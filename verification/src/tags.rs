//! Bracket tags in a line of lyrics: what is text, what is tag, and where each tag
//! stands.
//!
//! A line is read from left to right. An opening bracket starts a tag, the next
//! closing bracket ends it, and everything from the one to the other is left out of
//! the text. An opening bracket inside a tag starts the tag anew; what stood before
//! it in the tag is lost. A tag that is never closed is dropped with all that
//! follows it. A closing bracket outside a tag is text.

use crate::model::ParsedLyrics;
use crate::text::{chars_of, string_of};
use vstd::prelude::*;

verus! {

/// A bracket tag of a line.
#[derive(Clone, Debug, PartialEq, Eq)]
pub struct LyricTag {
    /// Where the tag begins, counted in characters of the line once the tags before
    /// it are taken out.
    pub position: usize,
    /// The tag as written, brackets included.
    pub tag: String,
}

/// The value of a [`LyricTag`].
pub struct TagView {
    pub position: nat,
    pub text: Seq<char>,
}

impl View for LyricTag {
    type V = TagView;

    open spec fn view(&self) -> TagView {
        TagView { position: self.position as nat, text: self.tag@ }
    }
}

/// What has been made of the part of a line read so far.
pub struct Scan {
    /// The text outside tags.
    pub stripped: Seq<char>,
    /// The tags closed so far, in the order of the line.
    pub tags: Seq<TagView>,
    /// The tag that is open, with what has been read of it.
    pub pending: Option<TagView>,
    /// The number of characters read, less those of the tags closed so far.
    pub cursor: nat,
}

impl Scan {
    /// Nothing read yet.
    pub open spec fn start() -> Scan {
        Scan { stripped: Seq::empty(), tags: Seq::empty(), pending: None, cursor: 0 }
    }

    /// The scan after one more character.
    pub open spec fn step(self, c: char) -> Scan {
        if c == '[' {
            Scan {
                pending: Some(TagView { position: self.cursor, text: seq!['['] }),
                cursor: self.cursor + 1,
                ..self
            }
        } else {
            match self.pending {
                Some(tag) => if c == ']' {
                    Scan {
                        tags: self.tags.push(TagView { text: tag.text.push(']'), ..tag }),
                        pending: None,
                        cursor: tag.position,
                        ..self
                    }
                } else {
                    Scan {
                        pending: Some(TagView { text: tag.text.push(c), ..tag }),
                        cursor: self.cursor + 1,
                        ..self
                    }
                },
                None => Scan { stripped: self.stripped.push(c), cursor: self.cursor + 1, ..self },
            }
        }
    }

    /// The scan after the characters of `s`.
    pub open spec fn read(self, s: Seq<char>) -> Scan
        decreases s.len(),
    {
        if s.len() == 0 {
            self
        } else {
            self.read(s.drop_last()).step(s.last())
        }
    }

    /// What holds of every scan of a line of which `read` characters are read: the
    /// cursor never passes the reader, the text is no longer than what was read, and
    /// while a tag is open the cursor stands behind what has been read of it.
    pub open spec fn within(self, read: nat) -> bool {
        &&& self.cursor <= read
        &&& self.stripped.len() <= read
        &&& forall|k: int| 0 <= k < self.tags.len() ==> (#[trigger] self.tags[k]).position <= read
        &&& match self.pending {
            Some(tag) => tag.position + tag.text.len() == self.cursor,
            None => true,
        }
    }
}

/// The scan of a whole line.
pub open spec fn scan(line: Seq<char>) -> Scan {
    Scan::start().read(line)
}

/// The text of a line with its tags taken out.
pub open spec fn stripped(line: Seq<char>) -> Seq<char> {
    scan(line).stripped
}

/// The tags of a line.
pub open spec fn tags(line: Seq<char>) -> Seq<TagView> {
    scan(line).tags
}

/// The values of a vector of tags.
pub open spec fn tag_views(tags: Seq<LyricTag>) -> Seq<TagView> {
    tags.map_values(|t: LyricTag| t@)
}

/// Reading one text after another is reading the two as one.
pub proof fn lemma_read_append(st: Scan, a: Seq<char>, b: Seq<char>)
    ensures
        st.read(a + b) == st.read(a).read(b),
    decreases b.len(),
{
    if b.len() == 0 {
        assert(a + b == a);
    } else {
        lemma_read_append(st, a, b.drop_last());
        assert((a + b).drop_last() == a + b.drop_last());
    }
}

/// Reading one character is one step.
pub proof fn lemma_read_one(st: Scan, c: char)
    ensures
        st.read(seq![c]) == st.step(c),
{
    assert(seq![c].drop_last() == Seq::<char>::empty());
    assert(st.read(seq![c].drop_last()) == st);
}

/// The bounds of `within` hold however far the line is read.
pub proof fn lemma_read_within(st: Scan, s: Seq<char>, read: nat)
    requires
        st.within(read),
    ensures
        st.read(s).within(read + s.len()),
    decreases s.len(),
{
    if s.len() > 0 {
        lemma_read_within(st, s.drop_last(), read);
    }
}

/// In the scan of a line the text is no longer than the line, and no tag stands
/// behind its end.
pub proof fn lemma_scan_within(line: Seq<char>)
    ensures
        scan(line).within(line.len()),
{
    lemma_read_within(Scan::start(), line, 0);
}

/// Text that stands outside tags: it holds no opening bracket.
pub open spec fn is_plain(s: Seq<char>) -> bool {
    forall|i: int| 0 <= i < s.len() ==> s[i] != '['
}

/// A bracket span: an opening bracket, then anything but a closing bracket, then a
/// closing bracket.
pub open spec fn is_span(s: Seq<char>) -> bool {
    &&& s.len() >= 2
    &&& s.first() == '['
    &&& s.last() == ']'
    &&& forall|i: int| 0 <= i < s.len() - 1 ==> s[i] != ']'
}

/// A bracket span with no further opening bracket in it.
pub open spec fn is_flat_span(s: Seq<char>) -> bool {
    is_span(s) && forall|i: int| 1 <= i < s.len() ==> s[i] != '['
}

/// A line written as text, span, text, span and so on, ending in text: one text
/// more than there are spans.
pub open spec fn interleaved(texts: Seq<Seq<char>>, spans: Seq<Seq<char>>) -> Seq<char>
    decreases spans.len(),
{
    if texts.len() == 0 {
        Seq::empty()
    } else if spans.len() == 0 {
        texts.last()
    } else {
        interleaved(texts.drop_last(), spans.drop_last()) + spans.last() + texts.last()
    }
}

/// The given texts, one after another.
pub open spec fn joined(texts: Seq<Seq<char>>) -> Seq<char>
    decreases texts.len(),
{
    if texts.len() == 0 {
        Seq::empty()
    } else {
        joined(texts.drop_last()) + texts.last()
    }
}

/// Outside a tag, text without an opening bracket is taken over as it is.
pub proof fn lemma_read_plain(st: Scan, t: Seq<char>)
    requires
        st.pending is None,
        is_plain(t),
    ensures
        st.read(t) == (Scan { stripped: st.stripped + t, cursor: st.cursor + t.len(), ..st }),
    decreases t.len(),
{
    if t.len() == 0 {
        assert(st.stripped + t == st.stripped);
    } else {
        lemma_read_plain(st, t.drop_last());
        assert(st.stripped + t == (st.stripped + t.drop_last()).push(t.last()));
    }
}

/// Inside a tag, whatever is no closing bracket leaves text and tags as they are and
/// the tag open.
pub proof fn lemma_read_inside(st: Scan, body: Seq<char>)
    requires
        st.pending is Some,
        forall|i: int| 0 <= i < body.len() ==> body[i] != ']',
    ensures
        st.read(body).pending is Some,
        st.read(body).stripped == st.stripped,
        st.read(body).tags == st.tags,
    decreases body.len(),
{
    if body.len() > 0 {
        lemma_read_inside(st, body.drop_last());
    }
}

/// Inside a tag, whatever is no bracket is added to the tag.
pub proof fn lemma_read_inside_flat(st: Scan, body: Seq<char>)
    requires
        st.pending is Some,
        forall|i: int| 0 <= i < body.len() ==> body[i] != ']' && body[i] != '[',
    ensures
        st.read(body) == (Scan {
            pending: Some(
                TagView { text: st.pending.unwrap().text + body, ..st.pending.unwrap() },
            ),
            cursor: st.cursor + body.len(),
            ..st
        }),
    decreases body.len(),
{
    let tag = st.pending.unwrap();
    if body.len() == 0 {
        assert(tag.text + body == tag.text);
    } else {
        lemma_read_inside_flat(st, body.drop_last());
        assert(tag.text + body == (tag.text + body.drop_last()).push(body.last()));
    }
}

/// Outside a tag, a bracket span adds one tag and leaves the text as it is.
pub proof fn lemma_read_span(st: Scan, span: Seq<char>)
    requires
        st.pending is None,
        is_span(span),
    ensures
        st.read(span).pending is None,
        st.read(span).stripped == st.stripped,
        st.read(span).tags.len() == st.tags.len() + 1,
        is_flat_span(span) ==> st.read(span) == (Scan {
            tags: st.tags.push(TagView { position: st.cursor, text: span }),
            ..st
        }),
{
    let body = span.subrange(1, span.len() - 1);
    let opened = st.step('[');
    assert(span == seq!['['] + body + seq![']']);
    lemma_read_append(st, seq!['['] + body, seq![']']);
    lemma_read_append(st, seq!['['], body);
    lemma_read_one(st, '[');
    lemma_read_one(opened.read(body), ']');
    lemma_read_inside(opened, body);
    if is_flat_span(span) {
        assert forall|i: int| 0 <= i < body.len() implies body[i] != ']' && body[i] != '[' by {
            assert(body[i] == span[i + 1]);
        }
        lemma_read_inside_flat(opened, body);
        assert((seq!['['] + body).push(']') == span);
    }
}

/// Taking the tags out of a line gives back the text that stood around them: a line
/// made of texts with a bracket span between each two of them is stripped to the
/// texts alone, whatever the spans hold. No tag is left open, and there is one tag for
/// each span.
pub proof fn lemma_strip_round_trip(texts: Seq<Seq<char>>, spans: Seq<Seq<char>>)
    requires
        texts.len() == spans.len() + 1,
        forall|i: int| 0 <= i < texts.len() ==> is_plain(#[trigger] texts[i]),
        forall|i: int| 0 <= i < spans.len() ==> is_span(#[trigger] spans[i]),
    ensures
        stripped(interleaved(texts, spans)) == joined(texts),
        scan(interleaved(texts, spans)).pending is None,
        tags(interleaved(texts, spans)).len() == spans.len(),
    decreases spans.len(),
{
    let start = Scan::start();
    if spans.len() == 0 {
        assert(joined(texts.drop_last()) == Seq::<char>::empty());
        assert(joined(texts) == texts.last());
        lemma_read_plain(start, texts.last());
    } else {
        let head = interleaved(texts.drop_last(), spans.drop_last());
        lemma_strip_round_trip(texts.drop_last(), spans.drop_last());
        lemma_read_append(start, head + spans.last(), texts.last());
        lemma_read_append(start, head, spans.last());
        lemma_read_span(start.read(head), spans.last());
        lemma_read_plain(start.read(head).read(spans.last()), texts.last());
    }
}

/// Where no span holds a further opening bracket, each tag is its span as written,
/// and it stands where its span stood in the text: behind the texts that came
/// before it.
pub proof fn lemma_tags_of_flat_spans(texts: Seq<Seq<char>>, spans: Seq<Seq<char>>)
    requires
        texts.len() == spans.len() + 1,
        forall|i: int| 0 <= i < texts.len() ==> is_plain(#[trigger] texts[i]),
        forall|i: int| 0 <= i < spans.len() ==> is_flat_span(#[trigger] spans[i]),
    ensures
        tags(interleaved(texts, spans)).len() == spans.len(),
        scan(interleaved(texts, spans)).pending is None,
        scan(interleaved(texts, spans)).cursor == joined(texts).len(),
        forall|k: int|
            0 <= k < spans.len() ==> #[trigger] tags(interleaved(texts, spans))[k] == (TagView {
                position: joined(texts.take(k + 1)).len(),
                text: spans[k],
            }),
    decreases spans.len(),
{
    let start = Scan::start();
    let line = interleaved(texts, spans);
    if spans.len() == 0 {
        assert(joined(texts.drop_last()) == Seq::<char>::empty());
        assert(joined(texts) == texts.last());
        lemma_read_plain(start, texts.last());
    } else {
        let n = spans.len() - 1;
        let head = interleaved(texts.drop_last(), spans.drop_last());
        lemma_tags_of_flat_spans(texts.drop_last(), spans.drop_last());
        lemma_read_append(start, head + spans.last(), texts.last());
        lemma_read_append(start, head, spans.last());
        lemma_read_span(start.read(head), spans.last());
        lemma_read_plain(start.read(head).read(spans.last()), texts.last());
        assert forall|k: int| 0 <= k < spans.len() implies #[trigger] tags(line)[k] == (TagView {
            position: joined(texts.take(k + 1)).len(),
            text: spans[k],
        }) by {
            if k < n {
                assert(tags(line)[k] == tags(head)[k]);
                assert(texts.drop_last().take(k + 1) == texts.take(k + 1));
                assert(spans.drop_last()[k] == spans[k]);
            } else {
                assert(texts.take(k + 1) == texts.drop_last());
            }
        }
    }
}

/// Splits a line of characters into its tags and its text.
pub(crate) fn scan_chars(line: &[char]) -> (r: (Vec<LyricTag>, Vec<char>))
    ensures
        tag_views(r.0@) == tags(line@),
        r.1@ == stripped(line@),
        r.1.len() <= line.len(),
        forall|k: int| 0 <= k < r.0.len() ==> (#[trigger] r.0[k]).position <= line.len(),
{
    let mut found: Vec<LyricTag> = Vec::new();
    let mut text: Vec<char> = Vec::new();
    let mut open = false;
    let mut pending_position: usize = 0;
    let mut pending_text = String::new();
    let mut cursor: usize = 0;
    let mut i: usize = 0;
    assert(line@.take(0) == Seq::<char>::empty());
    assert(tag_views(found@) == Seq::<TagView>::empty());
    while i < line.len()
        invariant
            i <= line.len(),
            scan(line@.take(i as int)).within(i as nat),
            tag_views(found@) == scan(line@.take(i as int)).tags,
            text@ == scan(line@.take(i as int)).stripped,
            cursor == scan(line@.take(i as int)).cursor,
            open == scan(line@.take(i as int)).pending is Some,
            open ==> scan(line@.take(i as int)).pending == Some(
                TagView { position: pending_position as nat, text: pending_text@ },
            ),
        decreases line.len() - i,
    {
        let c = line[i];
        proof {
            let before = scan(line@.take(i as int));
            assert(line@.take(i + 1).drop_last() == line@.take(i as int));
            assert(scan(line@.take(i + 1)) == before.step(c));
            lemma_scan_within(line@.take(i + 1));
        }
        if c == '[' {
            open = true;
            pending_position = cursor;
            pending_text = String::new();
            pending_text.push(c);
            assert(pending_text@ == seq!['[']);
            cursor += 1;
        } else if open {
            pending_text.push(c);
            if c == ']' {
                let ghost earlier = tag_views(found@);
                let tag = LyricTag { position: pending_position, tag: pending_text };
                found.push(tag);
                assert(tag_views(found@) == earlier.push(tag@));
                pending_text = String::new();
                open = false;
                cursor = pending_position;
            } else {
                cursor += 1;
            }
        } else {
            text.push(c);
            cursor += 1;
        }
        i += 1;
    }
    assert(line@.take(line.len() as int) == line@);
    proof {
        let views = tag_views(found@);
        assert forall|k: int| 0 <= k < found.len() implies (#[trigger] found[k]).position
            <= line.len() by {
            assert(views[k] == found[k]@);
        }
    }
    (found, text)
}

impl ParsedLyrics {
    /// Splits a line into its bracket tags and the text around them. Every span from
    /// an opening bracket to the next closing bracket is a tag, whether or not it
    /// gives a time, and none of it is text.
    pub fn extract_tags(line: &str) -> (r: (Vec<LyricTag>, String))
        ensures
            tag_views(r.0@) == tags(line@),
            r.1@ == stripped(line@),
    {
        let chars = chars_of(line);
        let (found, text) = scan_chars(chars.as_slice());
        (found, string_of(text.as_slice()))
    }
}

} // verus!
