//! How much of a block has been sung at a moment of the song, and the split of its
//! text into the sung and the unsung part.

use crate::model::{Block, BlockView, ParsedLyrics, Timestamp, TimestampView};
use crate::query::first_active;
use crate::text::{chars_of, string_of};
use vstd::prelude::*;
use vstd::slice::slice_subrange;

verus! {

/// Whether `after` stands at or behind `before` in the text and strictly later in
/// time. Only between two such anchors is there anything to interpolate.
pub open spec fn in_sequence(before: TimestampView, after: TimestampView) -> bool {
    before.position <= after.position && before.time < after.time
}

/// The number of characters sung at `time` between two anchors that enclose it: the
/// position of the earlier anchor, plus the share of the characters between the two
/// that the time elapsed since the earlier anchor is of the time between the two,
/// rounded down. Nothing is sung between two anchors that are out of sequence.
pub open spec fn interpolate(before: TimestampView, after: TimestampView, time: nat) -> nat {
    if in_sequence(before, after) {
        let elapsed = time - before.time;
        let total = after.time - before.time;
        let span = after.position - before.position;
        (before.position + (elapsed * span) / total) as nat
    } else {
        0
    }
}

impl BlockView {
    /// The number of characters of the block that are sung at `time`: interpolated
    /// between the anchors that enclose `time`, and zero where none do.
    pub open spec fn chars_sung_at(self, time: nat) -> nat {
        match self.surrounding(time) {
            Some((before, after)) => interpolate(before, after, time),
            None => 0,
        }
    }

    /// The text of the block, split after `chars_sung` characters. There is no split
    /// for a text of two characters or fewer, nor where the whole text is sung.
    pub open spec fn split(self, chars_sung: nat) -> Option<(Seq<char>, Seq<char>)> {
        if self.text.len() > 2 && self.text.len() > chars_sung {
            Some((self.text.take(chars_sung as int), self.text.skip(chars_sung as int)))
        } else {
            None
        }
    }
}

/// What is shown of a lyric sheet at `time`: the text of the block that is on
/// screen, split where the singing stands. Nothing is shown while no block is on
/// screen.
pub open spec fn sung_unsung(blocks: Seq<BlockView>, time: nat, lead: nat) -> Option<
    (Seq<char>, Seq<char>),
> {
    let i = first_active(blocks, time, lead);
    if i < blocks.len() {
        blocks[i].split(blocks[i].chars_sung_at(time))
    } else {
        None
    }
}

/// Between two anchors in sequence, and at a time that they enclose, the number of
/// characters sung lies between their positions.
pub proof fn lemma_interpolate_bounds(before: TimestampView, after: TimestampView, time: nat)
    requires
        in_sequence(before, after),
        before.time <= time <= after.time,
    ensures
        before.position <= interpolate(before, after, time) <= after.position,
        time < after.time && before.position < after.position ==> interpolate(before, after, time)
            < after.position,
{
    let elapsed = time - before.time;
    let total = after.time - before.time;
    let span = after.position - before.position;
    assert(0 <= (elapsed * span) / total <= span && (elapsed < total && span > 0 ==> (elapsed
        * span) / total < span)) by (nonlinear_arith)
        requires
            0 <= elapsed <= total,
            0 < total,
            0 <= span,
    ;
}

impl Timestamp {
    /// Whether `after` stands at or behind this anchor in the text and strictly
    /// later in time. Two neighbouring anchors of which this does not hold are an
    /// anomaly of the lyric text.
    pub fn precedes(&self, after: &Timestamp) -> (r: bool)
        ensures
            r == in_sequence(self@, after@),
    {
        self.position <= after.position && self.time < after.time
    }
}

/// The number of characters sung at `time` between the anchors `before` and `after`.
/// Between two anchors that are out of sequence it is zero, whatever the time.
pub fn chars_sung(before: &Timestamp, after: &Timestamp, time: u64) -> (r: usize)
    requires
        in_sequence(before@, after@) ==> before.time <= time <= after.time,
    ensures
        r == interpolate(before@, after@, time as nat),
        !in_sequence(before@, after@) ==> r == 0,
        in_sequence(before@, after@) ==> before.position <= r <= after.position,
{
    if before.precedes(after) {
        let elapsed: u128 = (time - before.time) as u128;
        let total: u128 = (after.time - before.time) as u128;
        let span: u128 = (after.position - before.position) as u128;
        proof {
            lemma_interpolate_bounds(before@, after@, time as nat);
            assert(elapsed * span <= 0xffff_ffff_ffff_ffff * 0xffff_ffff_ffff_ffff)
                by (nonlinear_arith)
                requires
                    0 <= elapsed <= 0xffff_ffff_ffff_ffff,
                    0 <= span <= 0xffff_ffff_ffff_ffff,
            ;
        }
        let within: u128 = elapsed * span / total;
        before.position + within as usize
    } else {
        0
    }
}

impl Block {
    /// The number of characters of the block that are sung at `time`.
    pub fn chars_sung_at(&self, time: u64) -> (r: usize)
        ensures
            r == self@.chars_sung_at(time as nat),
    {
        match self.get_timestamps_surrounding(time) {
            Some((before, after)) => {
                proof {
                    crate::query::lemma_first_later(self@.timestamps, time as nat);
                }
                chars_sung(&before, &after, time)
            },
            None => 0,
        }
    }

    /// The text of the block, split after `chars_sung` characters into what is sung
    /// and what is not.
    pub fn split_sung(&self, chars_sung: usize) -> (r: Option<(String, String)>)
        ensures
            match r {
                Some((sung, unsung)) => self@.split(chars_sung as nat) == Some((sung@, unsung@)),
                None => self@.split(chars_sung as nat) is None,
            },
    {
        let chars = chars_of(self.lyrics.as_str());
        let n = chars.len();
        if n > 2 && n > chars_sung {
            let sung = string_of(slice_subrange(chars.as_slice(), 0, chars_sung));
            let unsung = string_of(slice_subrange(chars.as_slice(), chars_sung, n));
            Some((sung, unsung))
        } else {
            None
        }
    }
}

impl ParsedLyrics {
    /// What is shown at `time`: the text of the block that is on screen, seen
    /// `lead_time` ahead, split into what is sung and what is not.
    pub fn sung_unsung_at(&self, time: u64, lead_time: u64) -> (r: Option<(String, String)>)
        ensures
            match r {
                Some((sung, unsung)) => sung_unsung(self@, time as nat, lead_time as nat) == Some(
                    (sung@, unsung@),
                ),
                None => sung_unsung(self@, time as nat, lead_time as nat) is None,
            },
    {
        match self.get_block_at_time(time, lead_time) {
            Some(block) => block.split_sung(block.chars_sung_at(time)),
            None => None,
        }
    }
}

} // verus!
