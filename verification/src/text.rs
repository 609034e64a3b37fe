//! Characters, line endings, lines and white space.
//!
//! Lyric text is handled as a sequence of characters. This module turns strings
//! into characters and back, normalizes line endings, and says what the lines of
//! a text and the trimmed form of a line are.

use vstd::prelude::*;

verus! {

/// `String::push` appends one character at the end and leaves the rest as it was.
pub assume_specification[ String::push ](s: &mut String, c: char)
    ensures
        final(s)@ == old(s)@.push(c),
;

/// What `char::is_whitespace` answers for a character: whether Unicode counts it as
/// white space (`White_Space`).
pub uninterp spec fn is_whitespace(c: char) -> bool;

/// `char::is_whitespace` depends on the character alone.
pub assume_specification[ char::is_whitespace ](c: char) -> (r: bool)
    ensures
        r == is_whitespace(c),
;

/// A text with every line ending written as a single line feed: a carriage return
/// followed by a line feed becomes one line feed, and so does a carriage return
/// that stands alone.
pub open spec fn normalized(s: Seq<char>) -> Seq<char>
    decreases s.len(),
{
    if s.len() == 0 {
        Seq::empty()
    } else if s[0] == '\r' && s.len() > 1 && s[1] == '\n' {
        seq!['\n'] + normalized(s.skip(2))
    } else if s[0] == '\r' {
        seq!['\n'] + normalized(s.skip(1))
    } else {
        seq![s[0]] + normalized(s.skip(1))
    }
}

/// Runs `normalize_line_endings::normalized` over the characters of `text` and
/// collects what it yields. The iterator replaces each carriage return by a line
/// feed and swallows a line feed that directly follows a carriage return; every
/// other character passes through.
#[verifier::external_body]
pub(crate) fn normalized_chars(text: &str) -> (r: Vec<char>)
    ensures
        r@ == normalized(text@),
{
    normalize_line_endings::normalized(text.chars()).collect()
}

/// The lines of a text: the pieces between line feeds. A text without a line feed is
/// one line, and a text that ends in a line feed has an empty last line.
pub open spec fn lines(s: Seq<char>) -> Seq<Seq<char>>
    decreases s.len(),
{
    if s.len() == 0 {
        seq![Seq::empty()]
    } else {
        let before = lines(s.drop_last());
        if s.last() == '\n' {
            before.push(Seq::empty())
        } else {
            before.drop_last().push(before.last().push(s.last()))
        }
    }
}

/// A line without its leading white space.
pub open spec fn trim_start(s: Seq<char>) -> Seq<char>
    decreases s.len(),
{
    if s.len() > 0 && is_whitespace(s[0]) {
        trim_start(s.skip(1))
    } else {
        s
    }
}

/// A line without its trailing white space.
pub open spec fn trim_end(s: Seq<char>) -> Seq<char>
    decreases s.len(),
{
    if s.len() > 0 && is_whitespace(s.last()) {
        trim_end(s.drop_last())
    } else {
        s
    }
}

/// A line without the white space that surrounds it.
pub open spec fn trim(s: Seq<char>) -> Seq<char> {
    trim_end(trim_start(s))
}

/// A line that holds nothing but white space.
pub open spec fn is_blank(s: Seq<char>) -> bool {
    trim(s).len() == 0
}

/// A text always has at least one line.
pub proof fn lemma_lines_nonempty(s: Seq<char>)
    ensures
        lines(s).len() >= 1,
    decreases s.len(),
{
    if s.len() > 0 {
        lemma_lines_nonempty(s.drop_last());
    }
}

/// Reading one more character either starts a new line or extends the last one.
pub proof fn lemma_lines_push(s: Seq<char>, c: char)
    ensures
        lines(s).len() >= 1,
        c == '\n' ==> lines(s.push(c)) == lines(s).push(Seq::empty()),
        c != '\n' ==> lines(s.push(c)) == lines(s).drop_last().push(lines(s).last().push(c)),
{
    lemma_lines_nonempty(s);
    assert(s.push(c).drop_last() == s);
}

/// Normalized text holds no carriage return.
pub proof fn lemma_normalized_has_no_carriage_return(s: Seq<char>)
    ensures
        forall|i: int| 0 <= i < normalized(s).len() ==> normalized(s)[i] != '\r',
    decreases s.len(),
{
    if s.len() > 0 {
        let rest = if s[0] == '\r' && s.len() > 1 && s[1] == '\n' {
            s.skip(2)
        } else {
            s.skip(1)
        };
        lemma_normalized_has_no_carriage_return(rest);
        let head = if s[0] == '\r' {
            '\n'
        } else {
            s[0]
        };
        assert(normalized(s) == seq![head] + normalized(rest));
        assert forall|i: int| 0 <= i < normalized(s).len() implies normalized(s)[i] != '\r' by {
            if i > 0 {
                assert(normalized(s)[i] == normalized(rest)[i - 1]);
            }
        }
    }
}

/// Text without a carriage return is left as it is.
pub proof fn lemma_normalized_identity(s: Seq<char>)
    requires
        forall|i: int| 0 <= i < s.len() ==> s[i] != '\r',
    ensures
        normalized(s) == s,
    decreases s.len(),
{
    if s.len() > 0 {
        lemma_normalized_identity(s.skip(1));
        assert(seq![s[0]] + s.skip(1) == s);
    }
}

/// Normalizing two texts one after the other is normalizing them as one, unless the
/// first ends in a carriage return and the second begins with a line feed: the two
/// would be one line ending.
pub proof fn lemma_normalized_append(x: Seq<char>, y: Seq<char>)
    requires
        x.len() == 0 || x.last() != '\r' || y.len() == 0 || y[0] != '\n',
    ensures
        normalized(x + y) == normalized(x) + normalized(y),
    decreases x.len(),
{
    if x.len() == 0 {
        assert(x + y == y);
    } else if x[0] == '\r' && x.len() > 1 && x[1] == '\n' {
        assert((x + y).skip(2) == x.skip(2) + y);
        lemma_normalized_append(x.skip(2), y);
    } else {
        assert((x + y).skip(1) == x.skip(1) + y);
        lemma_normalized_append(x.skip(1), y);
        if x.len() == 1 && y.len() == 0 {
            assert(x + y == x);
        }
    }
}

/// A text that ends in a line feed still does when it is normalized.
pub proof fn lemma_normalized_ends_in_line_feed(x: Seq<char>)
    requires
        x.len() > 0,
        x.last() == '\n',
    ensures
        normalized(x).len() > 0,
        normalized(x).last() == '\n',
{
    let init = x.drop_last();
    assert(normalized(seq!['\n']) == seq!['\n']) by {
        lemma_normalized_identity(seq!['\n']);
    }
    if init.len() > 0 && init.last() == '\r' {
        let tail = seq!['\r', '\n'];
        assert(normalized(tail.skip(2)) == Seq::<char>::empty());
        assert(normalized(tail) == seq!['\n'] + normalized(tail.skip(2)));
        assert(x == init.drop_last() + tail);
        lemma_normalized_append(init.drop_last(), tail);
    } else {
        assert(x == init + seq!['\n']);
        lemma_normalized_append(init, seq!['\n']);
    }
}

/// The lines of two texts joined by a line feed are the lines of the first and then
/// the lines of the second.
pub proof fn lemma_lines_split(x: Seq<char>, y: Seq<char>)
    ensures
        lines(x + seq!['\n'] + y) == lines(x) + lines(y),
    decreases y.len(),
{
    lemma_lines_nonempty(x);
    if y.len() == 0 {
        assert(x + seq!['\n'] + y == x.push('\n'));
        lemma_lines_push(x, '\n');
        assert(lines(y) == seq![Seq::<char>::empty()]);
    } else {
        let init = y.drop_last();
        lemma_lines_split(x, init);
        lemma_lines_nonempty(init);
        assert(x + seq!['\n'] + y == (x + seq!['\n'] + init).push(y.last()));
        lemma_lines_push(x + seq!['\n'] + init, y.last());
        lemma_lines_push(init, y.last());
        assert(y == init.push(y.last()));
        if y.last() != '\n' {
            assert((lines(x) + lines(init)).drop_last() == lines(x) + lines(init).drop_last());
        }
    }
}

/// A text without a line feed is one line.
pub proof fn lemma_lines_single(w: Seq<char>)
    requires
        forall|i: int| 0 <= i < w.len() ==> w[i] != '\n',
    ensures
        lines(w) == seq![w],
    decreases w.len(),
{
    if w.len() > 0 {
        let init = w.drop_last();
        lemma_lines_single(init);
        assert(init.push(w.last()) == w);
        assert(seq![init].drop_last().push(seq![init].last().push(w.last())) == seq![w]);
    } else {
        assert(w == Seq::<char>::empty());
    }
}

/// The characters of a string slice, in order.
pub(crate) fn chars_of(s: &str) -> (r: Vec<char>)
    ensures
        r@ == s@,
{
    let mut v: Vec<char> = Vec::new();
    for c in it: s.chars()
        invariant
            v@ == it.seq().take(it.index() as int),
            it.seq() == s@,
    {
        v.push(c);
    }
    v
}

/// The string made of the given characters, in order.
pub(crate) fn string_of(chars: &[char]) -> (r: String)
    ensures
        r@ == chars@,
{
    let mut s = String::new();
    let mut i: usize = 0;
    while i < chars.len()
        invariant
            i <= chars.len(),
            s@ == chars@.take(i as int),
        decreases chars.len() - i,
    {
        s.push(chars[i]);
        i += 1;
    }
    s
}

/// Where the trimmed form of `text[lo..hi]` begins and ends in `text`.
pub(crate) fn trim_bounds(text: &[char], lo: usize, hi: usize) -> (r: (usize, usize))
    requires
        lo <= hi <= text.len(),
    ensures
        lo <= r.0 <= r.1 <= hi,
        text@.subrange(r.0 as int, r.1 as int) == trim(text@.subrange(lo as int, hi as int)),
{
    let mut a = lo;
    while a < hi && text[a].is_whitespace()
        invariant
            lo <= a <= hi <= text.len(),
            trim_start(text@.subrange(lo as int, hi as int)) == trim_start(
                text@.subrange(a as int, hi as int),
            ),
        decreases hi - a,
    {
        assert(text@.subrange(a as int, hi as int).skip(1) == text@.subrange(a + 1, hi as int));
        a += 1;
    }
    let mut b = hi;
    while a < b && text[b - 1].is_whitespace()
        invariant
            a <= b <= hi <= text.len(),
            trim_end(text@.subrange(a as int, hi as int)) == trim_end(
                text@.subrange(a as int, b as int),
            ),
        decreases b - a,
    {
        assert(text@.subrange(a as int, b as int).drop_last() == text@.subrange(
            a as int,
            b - 1,
        ));
        b -= 1;
    }
    (a, b)
}

} // verus!
