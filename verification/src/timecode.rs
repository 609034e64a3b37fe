//! The timing tag: `[minutes:seconds.milliseconds]`, each of the three a run of one
//! or more decimal digits.
//!
//! The third numeral counts milliseconds as it is written, however many digits it
//! has. A tag of this shape gives a time only if each of its numerals fits in 32
//! bits.

use crate::text::chars_of;
use vstd::prelude::*;

verus! {

/// The three numerals of a timing tag, as written.
pub struct Timecode {
    pub minutes: Seq<char>,
    pub seconds: Seq<char>,
    pub millis: Seq<char>,
}

/// A decimal digit.
pub open spec fn is_digit(c: char) -> bool {
    '0' <= c <= '9'
}

/// The number that a decimal digit stands for.
pub open spec fn digit_value(c: char) -> nat {
    (c as u32 - '0' as u32) as nat
}

/// One or more decimal digits.
pub open spec fn is_numeral(s: Seq<char>) -> bool {
    s.len() > 0 && forall|i: int| 0 <= i < s.len() ==> is_digit(#[trigger] s[i])
}

/// The number that a run of decimal digits stands for.
pub open spec fn numeral_value(s: Seq<char>) -> nat
    decreases s.len(),
{
    if s.len() == 0 {
        0
    } else {
        10 * numeral_value(s.drop_last()) + digit_value(s.last())
    }
}

/// Where the run of digits that begins at `from` ends.
pub open spec fn digits_end(s: Seq<char>, from: int) -> int
    decreases s.len() - from,
{
    if 0 <= from < s.len() && is_digit(s[from]) {
        digits_end(s, from + 1)
    } else {
        from
    }
}

impl Timecode {
    /// Each of the three is a numeral.
    pub open spec fn well_formed(self) -> bool {
        is_numeral(self.minutes) && is_numeral(self.seconds) && is_numeral(self.millis)
    }

    /// The tag that holds the three numerals.
    pub open spec fn written(self) -> Seq<char> {
        seq!['['] + self.minutes + seq![':'] + self.seconds + seq!['.'] + self.millis + seq![']']
    }

    /// Each of the three numerals fits in 32 bits.
    pub open spec fn in_range(self) -> bool {
        &&& numeral_value(self.minutes) <= u32::MAX
        &&& numeral_value(self.seconds) <= u32::MAX
        &&& numeral_value(self.millis) <= u32::MAX
    }

    /// The time that the three numerals give, in milliseconds.
    pub open spec fn total_millis(self) -> nat {
        (numeral_value(self.minutes) * 60 + numeral_value(self.seconds)) * 1000 + numeral_value(
            self.millis,
        )
    }
}

/// The numerals of a bracket tag, if it is a timing tag.
pub open spec fn timecode_fields(tag: Seq<char>) -> Option<Timecode> {
    let a = digits_end(tag, 1);
    let b = digits_end(tag, a + 1);
    let c = digits_end(tag, b + 1);
    if tag.len() > 0 && tag[0] == '[' && 1 < a < tag.len() && tag[a] == ':' && a + 1 < b
        < tag.len() && tag[b] == '.' && b + 1 < c && c + 1 == tag.len() && tag[c] == ']' {
        Some(
            Timecode {
                minutes: tag.subrange(1, a),
                seconds: tag.subrange(a + 1, b),
                millis: tag.subrange(b + 1, c),
            },
        )
    } else {
        None
    }
}

/// The time of a bracket tag, in milliseconds: that of its numerals, if it is a
/// timing tag and they are in range.
pub open spec fn timecode_millis(tag: Seq<char>) -> Option<nat> {
    match timecode_fields(tag) {
        Some(t) => if t.in_range() {
            Some(t.total_millis())
        } else {
            None
        },
        None => None,
    }
}

/// From `from` up to `digits_end` there are digits only, and the run stops at the end
/// of the text or before a character that is no digit.
pub proof fn lemma_digits_end(s: Seq<char>, from: int)
    requires
        0 <= from,
    ensures
        from <= digits_end(s, from),
        from <= s.len() ==> digits_end(s, from) <= s.len(),
        forall|k: int| from <= k < digits_end(s, from) ==> is_digit(#[trigger] s[k]),
        digits_end(s, from) < s.len() ==> !is_digit(s[digits_end(s, from)]),
    decreases s.len() - from,
{
    if from < s.len() && is_digit(s[from]) {
        lemma_digits_end(s, from + 1);
    }
}

/// A run of digits from `from` to `to` that cannot be made longer ends at `to`.
pub proof fn lemma_digits_end_unique(s: Seq<char>, from: int, to: int)
    requires
        0 <= from <= to <= s.len(),
        forall|k: int| from <= k < to ==> is_digit(#[trigger] s[k]),
        to < s.len() ==> !is_digit(s[to]),
    ensures
        digits_end(s, from) == to,
    decreases to - from,
{
    if from < to {
        lemma_digits_end_unique(s, from + 1, to);
    }
}

/// A timing tag is read back as the numerals that it was written with.
pub proof fn lemma_timecode_read_back(t: Timecode)
    requires
        t.well_formed(),
    ensures
        timecode_fields(t.written()) == Some(t),
{
    let tag = t.written();
    let a: int = (t.minutes.len() + 1) as int;
    let b: int = a + 1 + t.seconds.len();
    let c: int = b + 1 + t.millis.len();
    assert(tag.len() == c + 1);
    assert forall|k: int| 1 <= k < a implies is_digit(#[trigger] tag[k]) by {
        assert(tag[k] == t.minutes[k - 1]);
    }
    assert forall|k: int| a + 1 <= k < b implies is_digit(#[trigger] tag[k]) by {
        assert(tag[k] == t.seconds[k - a - 1]);
    }
    assert forall|k: int| b + 1 <= k < c implies is_digit(#[trigger] tag[k]) by {
        assert(tag[k] == t.millis[k - b - 1]);
    }
    assert(tag[a] == ':');
    assert(tag[b] == '.');
    assert(tag[c] == ']');
    lemma_digits_end_unique(tag, 1, a);
    lemma_digits_end_unique(tag, a + 1, b);
    lemma_digits_end_unique(tag, b + 1, c);
    assert(tag.subrange(1, a) == t.minutes);
    assert(tag.subrange(a + 1, b) == t.seconds);
    assert(tag.subrange(b + 1, c) == t.millis);
}

/// What is read as a timing tag is three numerals, written as one.
pub proof fn lemma_timecode_is_written(tag: Seq<char>)
    requires
        timecode_fields(tag) is Some,
    ensures
        timecode_fields(tag).unwrap().well_formed(),
        timecode_fields(tag).unwrap().written() == tag,
{
    let t = timecode_fields(tag).unwrap();
    let a = digits_end(tag, 1);
    let b = digits_end(tag, a + 1);
    let c = digits_end(tag, b + 1);
    lemma_digits_end(tag, 1);
    lemma_digits_end(tag, a + 1);
    lemma_digits_end(tag, b + 1);
    assert forall|i: int| 0 <= i < t.minutes.len() implies is_digit(#[trigger] t.minutes[i]) by {
        assert(t.minutes[i] == tag[i + 1]);
    }
    assert forall|i: int| 0 <= i < t.seconds.len() implies is_digit(#[trigger] t.seconds[i]) by {
        assert(t.seconds[i] == tag[i + a + 1]);
    }
    assert forall|i: int| 0 <= i < t.millis.len() implies is_digit(#[trigger] t.millis[i]) by {
        assert(t.millis[i] == tag[i + b + 1]);
    }
    assert(t.written() =~= tag);
}

/// The digit that stands for a number below ten.
pub open spec fn digit_char(d: nat) -> char {
    if d == 0 {
        '0'
    } else if d == 1 {
        '1'
    } else if d == 2 {
        '2'
    } else if d == 3 {
        '3'
    } else if d == 4 {
        '4'
    } else if d == 5 {
        '5'
    } else if d == 6 {
        '6'
    } else if d == 7 {
        '7'
    } else if d == 8 {
        '8'
    } else {
        '9'
    }
}

/// As many zeros as asked for.
pub open spec fn zeros(count: nat) -> Seq<char> {
    Seq::new(count, |i: int| '0')
}

/// A number in decimal digits, with zeros in front where it has fewer than `width`
/// digits.
pub open spec fn padded(n: nat, width: nat) -> Seq<char>
    decreases n,
{
    let fill = if width > 0 {
        (width - 1) as nat
    } else {
        0
    };
    if n < 10 {
        zeros(fill).push(digit_char(n))
    } else {
        padded(n / 10, fill).push(digit_char(n % 10))
    }
}

/// The numerals that a time is written with: the minutes and the seconds with two
/// digits at least, the milliseconds with three.
pub open spec fn time_fields(time: nat) -> Timecode {
    Timecode {
        minutes: padded(time / 60000, 2),
        seconds: padded(time / 1000 % 60, 2),
        millis: padded(time % 1000, 3),
    }
}

/// A time as it is shown: `minutes:seconds.milliseconds`.
pub open spec fn time_text(time: nat) -> Seq<char> {
    let t = time_fields(time);
    t.minutes + seq![':'] + t.seconds + seq!['.'] + t.millis
}

/// The timing tag of a time.
pub open spec fn time_tag(time: nat) -> Seq<char> {
    time_fields(time).written()
}

/// Zeros in front do not change what a numeral stands for.
pub proof fn lemma_padded(n: nat, width: nat)
    ensures
        is_numeral(padded(n, width)),
        numeral_value(padded(n, width)) == n,
        padded(n, width).len() >= width,
    decreases n,
{
    let fill = if width > 0 {
        (width - 1) as nat
    } else {
        0
    };
    if n < 10 {
        lemma_zeros(fill);
        assert(zeros(fill).push(digit_char(n)).drop_last() == zeros(fill));
    } else {
        lemma_padded(n / 10, fill);
        assert(padded(n / 10, fill).push(digit_char(n % 10)).drop_last() == padded(n / 10, fill));
    }
}

/// A run of zeros stands for zero.
pub proof fn lemma_zeros(count: nat)
    ensures
        numeral_value(zeros(count)) == 0,
        forall|i: int| 0 <= i < count ==> is_digit(#[trigger] zeros(count)[i]),
    decreases count,
{
    if count > 0 {
        lemma_zeros((count - 1) as nat);
        assert(zeros(count).drop_last() == zeros((count - 1) as nat));
    }
}

/// The timing tag of a time is read back as that time, as long as its minutes fit
/// in 32 bits.
pub proof fn lemma_time_tag_read_back(time: nat)
    requires
        time / 60000 <= u32::MAX,
    ensures
        timecode_millis(time_tag(time)) == Some(time),
{
    let t = time_fields(time);
    lemma_padded(time / 60000, 2);
    lemma_padded(time / 1000 % 60, 2);
    lemma_padded(time % 1000, 3);
    lemma_timecode_read_back(t);
    assert(time / 1000 / 60 == time / 60000 && (time / 1000 / 60 * 60 + time / 1000 % 60) * 1000
        + time % 1000 == time) by (nonlinear_arith);
}

/// Whether a character is a decimal digit.
fn is_digit_char(c: char) -> (r: bool)
    ensures
        r == is_digit(c),
{
    '0' <= c && c <= '9'
}

/// Reads the run of digits that begins at `from`: where it ends, and the number it
/// stands for, unless that number does not fit in 32 bits.
fn read_numeral(s: &[char], from: usize) -> (r: (usize, Option<u32>))
    requires
        from <= s.len(),
    ensures
        r.0 == digits_end(s@, from as int),
        from <= r.0 <= s.len(),
        match r.1 {
            Some(v) => v == numeral_value(s@.subrange(from as int, r.0 as int)),
            None => numeral_value(s@.subrange(from as int, r.0 as int)) > u32::MAX,
        },
{
    let mut i = from;
    let mut value: u64 = 0;
    let mut fits = true;
    assert(s@.subrange(from as int, from as int) == Seq::<char>::empty());
    while i < s.len() && is_digit_char(s[i])
        invariant
            from <= i <= s.len(),
            digits_end(s@, from as int) == digits_end(s@, i as int),
            fits ==> value == numeral_value(s@.subrange(from as int, i as int)) && value
                <= u32::MAX,
            !fits ==> numeral_value(s@.subrange(from as int, i as int)) > u32::MAX,
        decreases s.len() - i,
    {
        let digit = (s[i] as u32 - '0' as u32) as u64;
        assert(s@.subrange(from as int, i + 1).drop_last() == s@.subrange(from as int, i as int));
        if fits {
            value = value * 10 + digit;
            if value > u32::MAX as u64 {
                fits = false;
            }
        }
        i += 1;
    }
    if fits {
        (i, Some(value as u32))
    } else {
        (i, None)
    }
}

/// The time of a bracket tag given as characters.
fn parse_timecode_chars(tag: &[char]) -> (r: Option<u64>)
    ensures
        match r {
            Some(time) => timecode_millis(tag@) == Some(time as nat),
            None => timecode_millis(tag@) is None,
        },
{
    let n = tag.len();
    if n == 0 || tag[0] != '[' {
        return None;
    }
    let (a, minutes) = read_numeral(tag, 1);
    if a == 1 || a >= n || tag[a] != ':' {
        return None;
    }
    let (b, seconds) = read_numeral(tag, a + 1);
    if b == a + 1 || b >= n || tag[b] != '.' {
        return None;
    }
    let (c, millis) = read_numeral(tag, b + 1);
    if c == b + 1 || c != n - 1 || tag[c] != ']' {
        return None;
    }
    match (minutes, seconds, millis) {
        (Some(m), Some(s), Some(f)) => Some((m as u64 * 60 + s as u64) * 1000 + f as u64),
        _ => None,
    }
}

/// The digit of a number below ten.
fn digit_of(d: u64) -> (r: char)
    requires
        d < 10,
    ensures
        r == digit_char(d as nat),
{
    if d == 0 {
        '0'
    } else if d == 1 {
        '1'
    } else if d == 2 {
        '2'
    } else if d == 3 {
        '3'
    } else if d == 4 {
        '4'
    } else if d == 5 {
        '5'
    } else if d == 6 {
        '6'
    } else if d == 7 {
        '7'
    } else if d == 8 {
        '8'
    } else {
        '9'
    }
}

/// Writes a number in decimal digits at the end of `out`, with zeros in front where
/// it has fewer than `width` digits.
fn push_padded(out: &mut String, n: u64, width: usize)
    ensures
        final(out)@ == old(out)@ + padded(n as nat, width as nat),
    decreases n,
{
    let fill = if width > 0 {
        width - 1
    } else {
        0
    };
    if n < 10 {
        let mut i: usize = 0;
        while i < fill
            invariant
                i <= fill,
                out@ == old(out)@ + zeros(i as nat),
            decreases fill - i,
        {
            out.push('0');
            i += 1;
            assert(zeros(i as nat) == zeros((i - 1) as nat).push('0'));
        }
        out.push(digit_of(n));
    } else {
        push_padded(out, n / 10, fill);
        out.push(digit_of(n % 10));
    }
}

/// A time in milliseconds as it is shown: `minutes:seconds.milliseconds`, the
/// minutes and the seconds with two digits at least, the milliseconds with three.
pub fn format_time(time: u64) -> (r: String)
    ensures
        r@ == time_text(time as nat),
{
    let mut out = String::new();
    push_padded(&mut out, time / 60000, 2);
    out.push(':');
    push_padded(&mut out, time / 1000 % 60, 2);
    out.push('.');
    push_padded(&mut out, time % 1000, 3);
    out
}

/// The timing tag of a time in milliseconds: the time as it is shown, in brackets.
/// Reading the tag gives the time back, as long as its minutes fit in 32 bits.
pub fn format_timecode(time: u64) -> (r: String)
    ensures
        r@ == time_tag(time as nat),
        time / 60000 <= u32::MAX ==> timecode_millis(r@) == Some(time as nat),
{
    let mut out = String::new();
    out.push('[');
    push_padded(&mut out, time / 60000, 2);
    out.push(':');
    push_padded(&mut out, time / 1000 % 60, 2);
    out.push('.');
    push_padded(&mut out, time % 1000, 3);
    out.push(']');
    proof {
        if time / 60000 <= u32::MAX {
            lemma_time_tag_read_back(time as nat);
        }
    }
    out
}

/// The time, in milliseconds, of a bracket tag: that of `[minutes:seconds.milliseconds]`
/// where the tag has this shape and each numeral fits in 32 bits, and none otherwise.
pub fn parse_timecode(tag: &str) -> (r: Option<u64>)
    ensures
        match r {
            Some(time) => timecode_millis(tag@) == Some(time as nat),
            None => timecode_millis(tag@) is None,
        },
{
    let chars = chars_of(tag);
    parse_timecode_chars(chars.as_slice())
}

} // verus!
