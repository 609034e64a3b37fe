//! Queries on a parsed lyric sheet: which block is on screen at a moment of the
//! song, and which two anchors of a block enclose that moment.

use crate::model::{Block, BlockView, ParsedLyrics, Timestamp, TimestampView};
use std::ops::Range;
use vstd::prelude::*;

verus! {

/// The index of the first anchor that lies later than `time`, or the number of
/// anchors where none does.
pub open spec fn first_later(anchors: Seq<TimestampView>, time: nat) -> int
    decreases anchors.len(),
{
    if anchors.len() == 0 || anchors[0].time > time {
        0
    } else {
        1 + first_later(anchors.skip(1), time)
    }
}

/// The index of the first block whose window meets the span from `time` to
/// `time + lead`, or the number of blocks where none does.
pub open spec fn first_active(blocks: Seq<BlockView>, time: nat, lead: nat) -> int
    decreases blocks.len(),
{
    if blocks.len() == 0 || blocks[0].overlaps(time, lead) {
        0
    } else {
        1 + first_active(blocks.skip(1), time, lead)
    }
}

impl BlockView {
    /// The time of the first anchor.
    pub open spec fn start_time(self) -> Option<nat> {
        if self.timestamps.len() > 0 {
            Some(self.timestamps.first().time)
        } else {
            None
        }
    }

    /// The time of the last anchor.
    pub open spec fn end_time(self) -> Option<nat> {
        if self.timestamps.len() > 0 {
            Some(self.timestamps.last().time)
        } else {
            None
        }
    }

    /// The window of the block: from the time of its first anchor to the time of
    /// its last one. A block with fewer than two anchors has none. The anchors in
    /// between play no part.
    pub open spec fn time_range(self) -> Option<(nat, nat)> {
        if self.timestamps.len() >= 2 {
            Some((self.timestamps.first().time, self.timestamps.last().time))
        } else {
            None
        }
    }

    /// Whether the window of the block meets the span from `time` to `time + lead`,
    /// both ends counted in.
    pub open spec fn overlaps(self, time: nat, lead: nat) -> bool {
        match self.time_range() {
            Some((start, end)) => start <= time + lead && time <= end,
            None => false,
        }
    }

    /// The two neighbouring anchors that enclose `time`: the later one is the first
    /// anchor of the block that lies after `time`, the earlier one stands directly
    /// before it. There is no such pair outside the span from the first anchor to the
    /// last, nor where no anchor lies after `time`.
    pub open spec fn surrounding(self, time: nat) -> Option<(TimestampView, TimestampView)> {
        let j = first_later(self.timestamps, time);
        if self.timestamps.len() > 0 && self.timestamps.first().time <= time
            <= self.timestamps.last().time && 0 < j < self.timestamps.len() {
            Some((self.timestamps[j - 1], self.timestamps[j]))
        } else {
            None
        }
    }
}

/// `first_later` names the one index before which no anchor is later than `time` and
/// at which, if it is an index at all, the anchor is.
pub proof fn lemma_first_later(anchors: Seq<TimestampView>, time: nat)
    ensures
        0 <= first_later(anchors, time) <= anchors.len(),
        forall|k: int| 0 <= k < first_later(anchors, time) ==> anchors[k].time <= time,
        first_later(anchors, time) < anchors.len() ==> anchors[first_later(anchors, time)].time
            > time,
    decreases anchors.len(),
{
    if anchors.len() == 0 || anchors[0].time > time {
    } else {
        let rest = anchors.skip(1);
        lemma_first_later(rest, time);
        assert forall|k: int| 0 <= k < first_later(anchors, time) implies anchors[k].time
            <= time by {
            if k > 0 {
                assert(anchors[k] == rest[k - 1]);
            }
        }
    }
}

/// An index of which both of these hold is `first_later`.
pub proof fn lemma_first_later_unique(anchors: Seq<TimestampView>, time: nat, j: int)
    requires
        0 <= j <= anchors.len(),
        forall|k: int| 0 <= k < j ==> anchors[k].time <= time,
        j < anchors.len() ==> anchors[j].time > time,
    ensures
        j == first_later(anchors, time),
{
    lemma_first_later(anchors, time);
    let f = first_later(anchors, time);
    if f < j {
        assert(anchors[f].time <= time);
    } else if j < f {
        assert(anchors[j].time <= time);
    }
}

/// `first_active` names the one index before which no block is active and at which,
/// if it is an index at all, the block is.
pub proof fn lemma_first_active(blocks: Seq<BlockView>, time: nat, lead: nat)
    ensures
        0 <= first_active(blocks, time, lead) <= blocks.len(),
        forall|k: int|
            0 <= k < first_active(blocks, time, lead) ==> !(#[trigger] blocks[k]).overlaps(
                time,
                lead,
            ),
        first_active(blocks, time, lead) < blocks.len() ==> blocks[first_active(
            blocks,
            time,
            lead,
        )].overlaps(time, lead),
    decreases blocks.len(),
{
    if blocks.len() == 0 || blocks[0].overlaps(time, lead) {
    } else {
        let rest = blocks.skip(1);
        lemma_first_active(rest, time, lead);
        assert forall|k: int| 0 <= k < first_active(blocks, time, lead) implies !(
        #[trigger] blocks[k]).overlaps(time, lead) by {
            if k > 0 {
                assert(blocks[k] == rest[k - 1]);
            }
        }
    }
}

/// An index of which both of these hold is `first_active`.
pub proof fn lemma_first_active_unique(blocks: Seq<BlockView>, time: nat, lead: nat, j: int)
    requires
        0 <= j <= blocks.len(),
        forall|k: int| 0 <= k < j ==> !(#[trigger] blocks[k]).overlaps(time, lead),
        j < blocks.len() ==> blocks[j].overlaps(time, lead),
    ensures
        j == first_active(blocks, time, lead),
{
    lemma_first_active(blocks, time, lead);
    let f = first_active(blocks, time, lead);
    if f < j {
        assert(!blocks[f].overlaps(time, lead));
    } else if j < f {
        assert(!blocks[j].overlaps(time, lead));
    }
}

/// The anchors follow one another in time, each strictly later than the one before.
pub open spec fn strictly_timed(anchors: Seq<TimestampView>) -> bool {
    forall|i: int, j: int| 0 <= i < j < anchors.len() ==> anchors[i].time < anchors[j].time
}

/// In a block whose anchors follow one another in time, the pair that encloses the
/// time of an anchor begins with that anchor and ends with the next one. At the time
/// of the last anchor there is no pair, as no anchor lies later.
pub proof fn lemma_surrounding_at_anchor(block: BlockView, i: int)
    requires
        strictly_timed(block.timestamps),
        0 <= i < block.timestamps.len(),
    ensures
        i + 1 < block.timestamps.len() ==> block.surrounding(block.timestamps[i].time) == Some(
            (block.timestamps[i], block.timestamps[i + 1]),
        ),
        i + 1 == block.timestamps.len() ==> block.surrounding(block.timestamps[i].time) is None,
{
    lemma_first_later_unique(block.timestamps, block.timestamps[i].time, i + 1);
}

/// The pair that encloses a time does so: its earlier anchor is not later than the
/// time, its later anchor is, and the two are neighbours in the block.
pub proof fn lemma_surrounding_encloses(block: BlockView, time: nat)
    requires
        block.surrounding(time) is Some,
    ensures
        block.surrounding(time).unwrap().0.time <= time < block.surrounding(time).unwrap().1.time,
        exists|j: int|
            0 < j < block.timestamps.len() && block.surrounding(time) == Some(
                (block.timestamps[j - 1], #[trigger] block.timestamps[j]),
            ),
{
    lemma_first_later(block.timestamps, time);
}

/// A block is not active at any time after its last anchor, however long the lead.
pub proof fn lemma_inactive_after_end(block: BlockView, time: nat, lead: nat)
    requires
        block.timestamps.len() > 0 ==> time > block.timestamps.last().time,
    ensures
        !block.overlaps(time, lead),
{
}

/// At a time after the last anchor of every block, no block is on screen.
pub proof fn lemma_nothing_after_end(blocks: Seq<BlockView>, time: nat, lead: nat)
    requires
        forall|i: int|
            0 <= i < blocks.len() && (#[trigger] blocks[i]).timestamps.len() > 0 ==> time
                > blocks[i].timestamps.last().time,
    ensures
        first_active(blocks, time, lead) == blocks.len(),
{
    assert forall|k: int| 0 <= k < blocks.len() implies !(#[trigger] blocks[k]).overlaps(
        time,
        lead,
    ) by {
        lemma_inactive_after_end(blocks[k], time, lead);
    }
    lemma_first_active_unique(blocks, time, lead, blocks.len() as int);
}

/// A block becomes active the lead before its first anchor: at that very time it is
/// active, unless its last anchor lies earlier still. It is active at the time of
/// its last anchor too, if its first anchor is not more than the lead later.
pub proof fn lemma_active_at_bounds(block: BlockView, time: nat, lead: nat)
    requires
        block.timestamps.len() >= 2,
    ensures
        time + lead == block.timestamps.first().time && time <= block.timestamps.last().time
            ==> block.overlaps(time, lead),
        time == block.timestamps.last().time && block.timestamps.first().time <= time + lead
            ==> block.overlaps(time, lead),
{
}

impl Block {
    /// The time of the first anchor of the block, if it has one.
    pub fn start_time(&self) -> (r: Option<u64>)
        ensures
            match r {
                Some(t) => self@.start_time() == Some(t as nat),
                None => self@.start_time() is None,
            },
    {
        if self.timestamps.len() > 0 {
            return Some(self.timestamps[0].time);
        }
        None
    }

    /// The time of the last anchor of the block, if it has one.
    pub fn end_time(&self) -> (r: Option<u64>)
        ensures
            match r {
                Some(t) => self@.end_time() == Some(t as nat),
                None => self@.end_time() is None,
            },
    {
        if self.timestamps.len() > 0 {
            return Some(self.timestamps[self.timestamps.len() - 1].time);
        }
        None
    }

    /// The window of the block, from the time of its first anchor to the time of its
    /// last one; nothing for a block with fewer than two anchors.
    pub fn get_time_range(&self) -> (r: Option<Range<u64>>)
        ensures
            match r {
                Some(range) => self@.time_range() == Some((range.start as nat, range.end as nat)),
                None => self@.time_range() is None,
            },
    {
        let n = self.timestamps.len();
        if n >= 2 {
            return Some(Range { start: self.timestamps[0].time, end: self.timestamps[n - 1].time });
        }
        None
    }

    /// The two neighbouring anchors that enclose `time`.
    pub fn get_timestamps_surrounding(&self, time: u64) -> (r: Option<(Timestamp, Timestamp)>)
        ensures
            match r {
                Some((before, after)) => self@.surrounding(time as nat) == Some(
                    (before@, after@),
                ),
                None => self@.surrounding(time as nat) is None,
            },
            r matches Some((before, after)) ==> before.time <= time < after.time,
    {
        let n = self.timestamps.len();
        if n == 0 {
            return None;
        }
        if time < self.timestamps[0].time || time > self.timestamps[n - 1].time {
            return None;
        }
        let mut idx: usize = 0;
        while idx < n
            invariant
                n == self.timestamps.len(),
                idx <= n,
                self@.timestamps.first().time <= time <= self@.timestamps.last().time,
                forall|k: int| 0 <= k < idx ==> self@.timestamps[k].time <= time,
            decreases n - idx,
        {
            if self.timestamps[idx].time > time {
                proof {
                    lemma_first_later_unique(self@.timestamps, time as nat, idx as int);
                }
                if idx == 0 {
                    return None;
                }
                return Some((self.timestamps[idx - 1], self.timestamps[idx]));
            }
            idx += 1;
        }
        proof {
            lemma_first_later_unique(self@.timestamps, time as nat, n as int);
        }
        None
    }
}

impl ParsedLyrics {
    /// The block that is on screen at `time`, seen `lead_time` ahead: the first block,
    /// in the order of the text, whose window meets the span from `time` to
    /// `time + lead_time`.
    pub fn get_block_at_time(&self, time: u64, lead_time: u64) -> (r: Option<&Block>)
        ensures
            match r {
                Some(block) => {
                    let i = first_active(self@, time as nat, lead_time as nat);
                    0 <= i < self.blocks.len() && *block == self.blocks[i] && block@ == self@[i]
                },
                None => first_active(self@, time as nat, lead_time as nat) == self.blocks.len(),
            },
            r matches Some(block) ==> block@.overlaps(time as nat, lead_time as nat),
            r is None ==> forall|k: int|
                0 <= k < self.blocks.len() ==> !(#[trigger] self@[k]).overlaps(
                    time as nat,
                    lead_time as nat,
                ),
    {
        let n = self.blocks.len();
        let mut i: usize = 0;
        while i < n
            invariant
                n == self.blocks.len(),
                i <= n,
                forall|k: int|
                    0 <= k < i ==> !(#[trigger] self@[k]).overlaps(time as nat, lead_time as nat),
            decreases n - i,
        {
            let block = &self.blocks[i];
            if let Some(range) = block.get_time_range() {
                if (range.start <= time || range.start - time <= lead_time) && time <= range.end {
                    proof {
                        lemma_first_active_unique(
                            self@,
                            time as nat,
                            lead_time as nat,
                            i as int,
                        );
                    }
                    return Some(block);
                }
            }
            i += 1;
        }
        proof {
            lemma_first_active_unique(self@, time as nat, lead_time as nat, n as int);
        }
        None
    }
}

} // verus!
