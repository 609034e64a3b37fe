//! From lyric text to blocks.
//!
//! The text is normalized and read line by line. A blank line ends the block that is
//! being built, if it holds anything; any other line adds its text and the anchors of
//! its timing tags to that block. The end of the text ends the last block.

use crate::model::{Block, BlockView, ParsedLyrics, Timestamp, TimestampView};
use crate::tags::{scan_chars, stripped, tag_views, tags, TagView};
use crate::text::{
    is_blank, lemma_lines_push, lemma_lines_single, lemma_lines_split, lemma_normalized_append,
    lemma_normalized_ends_in_line_feed, lemma_normalized_identity, lines, normalized,
    normalized_chars, string_of, trim, trim_bounds,
};
use crate::timecode::{parse_timecode, timecode_millis};
use vstd::prelude::*;
use vstd::slice::slice_subrange;

verus! {

/// The anchors of the tags of a line that is added to a block whose text has `base`
/// characters: one for each timing tag whose numerals are in range, in the order of
/// the tags, at the position of the tag in the text of the block.
pub open spec fn anchors(tags: Seq<TagView>, base: nat) -> Seq<TimestampView>
    decreases tags.len(),
{
    if tags.len() == 0 {
        Seq::empty()
    } else {
        let before = anchors(tags.drop_last(), base);
        match timecode_millis(tags.last().text) {
            Some(time) => before.push(
                TimestampView { position: tags.last().position + base, time },
            ),
            None => before,
        }
    }
}

impl BlockView {
    /// The block with one more line, given trimmed: the text of the line and a line
    /// feed are added to the text of the block, and the anchors of the line to its
    /// anchors.
    pub open spec fn with_line(self, line: Seq<char>) -> BlockView {
        BlockView {
            text: self.text + stripped(line) + seq!['\n'],
            timestamps: self.timestamps + anchors(tags(line), self.text.len()),
        }
    }
}

/// What has been made of the lines read so far.
pub struct Parse {
    /// The blocks that are complete.
    pub blocks: Seq<BlockView>,
    /// The block that is being built.
    pub current: BlockView,
}

impl Parse {
    /// Nothing read yet.
    pub open spec fn start() -> Parse {
        Parse { blocks: Seq::empty(), current: BlockView::empty() }
    }

    /// The block that is being built is complete, if it holds any text.
    pub open spec fn close(self) -> Parse {
        if self.current.text.len() > 0 {
            Parse { blocks: self.blocks.push(self.current), current: BlockView::empty() }
        } else {
            self
        }
    }

    /// The parse after one more line: a blank line closes the block, any other line
    /// is trimmed and added to it.
    pub open spec fn line(self, raw: Seq<char>) -> Parse {
        let line = trim(raw);
        if line.len() == 0 {
            self.close()
        } else {
            Parse { current: self.current.with_line(line), ..self }
        }
    }

    /// The parse after the given lines.
    pub open spec fn read(self, lines: Seq<Seq<char>>) -> Parse
        decreases lines.len(),
    {
        if lines.len() == 0 {
            self
        } else {
            self.read(lines.drop_last()).line(lines.last())
        }
    }

    /// The blocks at the end of the text.
    pub open spec fn finish(self) -> Seq<BlockView> {
        self.close().blocks
    }
}

/// The blocks of a sequence of lines.
pub open spec fn parse_lines(lines: Seq<Seq<char>>) -> Seq<BlockView> {
    Parse::start().read(lines).finish()
}

/// The blocks of a lyric text.
pub open spec fn parse_text(text: Seq<char>) -> Seq<BlockView> {
    parse_lines(lines(normalized(text)))
}

impl Parse {
    /// What holds of every parse: each block holds text that ends in a line feed, and
    /// so does the block that is being built, unless it is empty.
    pub open spec fn tidy(self) -> bool {
        &&& forall|i: int|
            0 <= i < self.blocks.len() ==> (#[trigger] self.blocks[i]).text.len() > 0
                && self.blocks[i].text.last() == '\n'
        &&& self.current.text.len() > 0 ==> self.current.text.last() == '\n'
    }
}

/// Reading lines one run after another is reading them as one run.
pub proof fn lemma_read_lines_append(st: Parse, a: Seq<Seq<char>>, b: Seq<Seq<char>>)
    ensures
        st.read(a + b) == st.read(a).read(b),
    decreases b.len(),
{
    if b.len() == 0 {
        assert(a + b == a);
    } else {
        lemma_read_lines_append(st, a, b.drop_last());
        assert((a + b).drop_last() == a + b.drop_last());
    }
}

/// A run of one or more blank lines does what one blank line does: it closes the
/// block that is being built.
pub proof fn lemma_read_blank_lines(st: Parse, blanks: Seq<Seq<char>>)
    requires
        blanks.len() >= 1,
        forall|i: int| 0 <= i < blanks.len() ==> is_blank(#[trigger] blanks[i]),
    ensures
        st.read(blanks) == st.close(),
    decreases blanks.len(),
{
    assert(is_blank(blanks.last()));
    if blanks.len() == 1 {
        assert(blanks.drop_last() == Seq::<Seq<char>>::empty());
        assert(st.read(blanks.drop_last()) == st);
    } else {
        lemma_read_blank_lines(st, blanks.drop_last());
    }
}

/// Between two groups of lines, any run of one or more blank lines gives the same
/// blocks as any other: two blank lines, or ten, part the groups as one does.
pub proof fn lemma_blank_lines_idempotent(
    before: Seq<Seq<char>>,
    blanks: Seq<Seq<char>>,
    others: Seq<Seq<char>>,
    after: Seq<Seq<char>>,
)
    requires
        blanks.len() >= 1,
        others.len() >= 1,
        forall|i: int| 0 <= i < blanks.len() ==> is_blank(#[trigger] blanks[i]),
        forall|i: int| 0 <= i < others.len() ==> is_blank(#[trigger] others[i]),
    ensures
        parse_lines(before + blanks + after) == parse_lines(before + others + after),
{
    let start = Parse::start();
    lemma_read_lines_append(start, before + blanks, after);
    lemma_read_lines_append(start, before, blanks);
    lemma_read_blank_lines(start.read(before), blanks);
    lemma_read_lines_append(start, before + others, after);
    lemma_read_lines_append(start, before, others);
    lemma_read_blank_lines(start.read(before), others);
}

/// In a text too, one blank line more changes nothing: where a blank line follows
/// a line ending, a second blank line behind it gives the same blocks.
pub proof fn lemma_blank_lines_idempotent_in_text(
    a: Seq<char>,
    blank: Seq<char>,
    other: Seq<char>,
    b: Seq<char>,
)
    requires
        is_blank(blank),
        is_blank(other),
        forall|i: int| 0 <= i < blank.len() ==> blank[i] != '\n' && blank[i] != '\r',
        forall|i: int| 0 <= i < other.len() ==> other[i] != '\n' && other[i] != '\r',
    ensures
        parse_text(a + seq!['\n'] + blank + seq!['\n'] + other + seq!['\n'] + b) == parse_text(
            a + seq!['\n'] + blank + seq!['\n'] + b,
        ),
{
    let lf = seq!['\n'];
    let head = a + lf;
    let one = blank + lf;
    let two = other + lf;
    let with_two = a + lf + blank + lf + other + lf + b;
    let with_one = a + lf + blank + lf + b;
    // how the two texts are normalized
    lemma_normalized_identity(one);
    lemma_normalized_identity(two);
    lemma_normalized_ends_in_line_feed(head);
    let m = normalized(head).drop_last();
    assert(normalized(head) == m + lf);
    let nb = normalized(b);
    assert(with_one == head + (one + b));
    lemma_normalized_append(head, one + b);
    lemma_normalized_append(one, b);
    assert(with_two == head + (one + (two + b)));
    lemma_normalized_append(head, one + (two + b));
    lemma_normalized_append(one, two + b);
    lemma_normalized_append(two, b);
    // the lines of the two
    assert(normalized(with_one) == m + lf + (blank + lf + nb));
    assert(normalized(with_two) == m + lf + (blank + lf + (other + lf + nb)));
    lemma_lines_split(m, blank + lf + nb);
    lemma_lines_split(blank, nb);
    lemma_lines_split(m, blank + lf + (other + lf + nb));
    lemma_lines_split(blank, other + lf + nb);
    lemma_lines_split(other, nb);
    lemma_lines_single(blank);
    lemma_lines_single(other);
    assert(lines(normalized(with_one)) == lines(m) + seq![blank] + lines(nb));
    assert(lines(normalized(with_two)) == lines(m) + seq![blank, other] + lines(nb));
    lemma_blank_lines_idempotent(lines(m), seq![blank, other], seq![blank], lines(nb));
}

/// Every step of a parse keeps it tidy.
pub proof fn lemma_read_tidy(st: Parse, lines: Seq<Seq<char>>)
    requires
        st.tidy(),
    ensures
        st.read(lines).tidy(),
        st.read(lines).close().tidy(),
    decreases lines.len(),
{
    if lines.len() > 0 {
        lemma_read_tidy(st, lines.drop_last());
    }
}

/// No block of a parse is empty: each holds at least one line, and its text ends in
/// a line feed.
pub proof fn lemma_blocks_hold_text(lines: Seq<Seq<char>>)
    ensures
        forall|i: int|
            0 <= i < parse_lines(lines).len() ==> (#[trigger] parse_lines(lines)[i]).text.len() > 0
                && parse_lines(lines)[i].text.last() == '\n',
{
    lemma_read_tidy(Parse::start(), lines);
}

/// The blocks and the block in the making, while a text is parsed.
struct Builder {
    blocks: Vec<Block>,
    text: Vec<char>,
    anchors: Vec<Timestamp>,
}

impl View for Builder {
    type V = Parse;

    closed spec fn view(&self) -> Parse {
        Parse {
            blocks: self.blocks@.map_values(|b: Block| b@),
            current: BlockView {
                text: self.text@,
                timestamps: self.anchors@.map_values(|t: Timestamp| t@),
            },
        }
    }
}

impl Builder {
    /// A builder that has read nothing.
    fn new() -> (r: Builder)
        ensures
            r@ == Parse::start(),
            r.text.len() == 0,
    {
        let r = Builder { blocks: Vec::new(), text: Vec::new(), anchors: Vec::new() };
        assert(r@.blocks =~= Seq::empty());
        assert(r@.current.timestamps =~= Seq::empty());
        r
    }

    /// Ends the block in the making, if it holds any text.
    fn close(&mut self)
        ensures
            final(self)@ == old(self)@.close(),
            final(self).text.len() <= old(self).text.len(),
    {
        if self.text.len() > 0 {
            let lyrics = string_of(self.text.as_slice());
            let mut timestamps: Vec<Timestamp> = Vec::new();
            std::mem::swap(&mut timestamps, &mut self.anchors);
            let block = Block { lyrics, timestamps };
            assert(block@ == old(self)@.current);
            self.blocks.push(block);
            self.text = Vec::new();
            assert(self@.blocks =~= old(self)@.blocks.push(block@));
            assert(self@.current.timestamps =~= Seq::empty());
        }
    }

    /// Reads the line `text[lo..hi]`: a blank line ends the block in the making, any
    /// other line is trimmed, stripped of its tags and added to it.
    fn line(&mut self, text: &[char], lo: usize, hi: usize)
        requires
            lo <= hi <= text.len(),
            old(self).text.len() + (hi - lo) <= usize::MAX,
        ensures
            final(self)@ == old(self)@.line(text@.subrange(lo as int, hi as int)),
            final(self).text.len() <= old(self).text.len() + (hi - lo) + 1,
    {
        let (a, b) = trim_bounds(text, lo, hi);
        if a == b {
            self.close();
        } else {
            let line = slice_subrange(text, a, b);
            let (found, plain) = scan_chars(line);
            let base = self.text.len();
            let ghost earlier = self@.current.timestamps;
            let mut k: usize = 0;
            assert(tag_views(found@).take(0) == Seq::<TagView>::empty());
            while k < found.len()
                invariant
                    k <= found.len(),
                    base + line.len() <= usize::MAX,
                    forall|j: int| 0 <= j < found.len() ==> (#[trigger] found[j]).position <= line.len(),
                    self.blocks == old(self).blocks,
                    self.text == old(self).text,
                    self.anchors@.map_values(|t: Timestamp| t@) == earlier + anchors(
                        tag_views(found@).take(k as int),
                        base as nat,
                    ),
                decreases found.len() - k,
            {
                let tag = &found[k];
                let ghost seen = self.anchors@.map_values(|t: Timestamp| t@);
                proof {
                    let views = tag_views(found@);
                    assert(views.take(k + 1).drop_last() == views.take(k as int));
                    assert(views.take(k + 1).last() == tag@);
                }
                match parse_timecode(tag.tag.as_str()) {
                    Some(time) => {
                        let anchor = Timestamp { position: tag.position + base, time };
                        self.anchors.push(anchor);
                        assert(self.anchors@.map_values(|t: Timestamp| t@) == seen.push(anchor@));
                    },
                    None => {},
                }
                k += 1;
            }
            assert(tag_views(found@).take(found.len() as int) == tag_views(found@));
            let mut plain = plain;
            self.text.append(&mut plain);
            self.text.push('\n');
            proof {
                let raw = text@.subrange(lo as int, hi as int);
                let before = old(self)@;
                assert(line@ == trim(raw));
                assert(line@.len() > 0);
                assert(self@.blocks == before.blocks);
                assert(self@.current.text == before.current.text + stripped(line@) + seq!['\n']);
                assert(self@.current.timestamps == before.current.timestamps + anchors(
                    tags(line@),
                    before.current.text.len(),
                ));
            }
        }
    }

    /// The blocks at the end of the text.
    fn finish(self) -> (r: ParsedLyrics)
        ensures
            r@ == self@.finish(),
    {
        let mut done = self;
        done.close();
        ParsedLyrics { blocks: done.blocks }
    }
}

impl ParsedLyrics {
    /// Parses lyric text into blocks. Every text has a parse: a tag that is no timing
    /// tag, or whose numerals are out of range, is left out of the text and gives no
    /// anchor.
    pub fn parse(lyrics: &String) -> (r: Result<ParsedLyrics, String>)
        ensures
            r is Ok,
            r.unwrap()@ == parse_text(lyrics@),
            forall|i: int| 0 <= i < r.unwrap().blocks.len() ==> r.unwrap()@[i].text.len() > 0,
    {
        let text = normalized_chars(lyrics.as_str());
        let n = text.len();
        let mut builder = Builder::new();
        let mut start: usize = 0;
        let mut i: usize = 0;
        assert(text@.take(0) == Seq::<char>::empty());
        assert(lines(Seq::<char>::empty()).drop_last() == Seq::<Seq<char>>::empty());
        while i < n
            invariant
                n == text.len(),
                start <= i <= n,
                builder.text.len() <= start,
                builder@ == Parse::start().read(lines(text@.take(i as int)).drop_last()),
                lines(text@.take(i as int)).len() >= 1,
                lines(text@.take(i as int)).last() == text@.subrange(start as int, i as int),
            decreases n - i,
        {
            let ghost before = lines(text@.take(i as int));
            proof {
                lemma_lines_push(text@.take(i as int), text@[i as int]);
                assert(text@.take(i + 1) == text@.take(i as int).push(text@[i as int]));
            }
            if text[i] == '\n' {
                builder.line(text.as_slice(), start, i);
                start = i + 1;
                proof {
                    let after = lines(text@.take(i + 1));
                    assert(after.drop_last() == before);
                    assert(text@.subrange(start as int, i + 1) == Seq::<char>::empty());
                }
            } else {
                proof {
                    let after = lines(text@.take(i + 1));
                    assert(after.drop_last() == before.drop_last());
                    assert(text@.subrange(start as int, i + 1) == text@.subrange(
                        start as int,
                        i as int,
                    ).push(text@[i as int]));
                }
            }
            i += 1;
        }
        assert(text@.take(n as int) == text@);
        builder.line(text.as_slice(), start, n);
        let parsed = builder.finish();
        proof {
            lemma_blocks_hold_text(lines(text@));
            assert(parsed@ == parse_lines(lines(text@)));
        }
        Ok(parsed)
    }
}

} // verus!
