//! The parsed document: time anchors, blocks and the whole lyric sheet, each with
//! the mathematical value that contracts speak of.

use vstd::prelude::*;

verus! {

/// A time anchor: the character of a block's text that is sung at a given moment.
#[derive(Clone, Copy, Debug, PartialEq, Eq)]
pub struct Timestamp {
    /// Offset, in characters, into the text of the block that owns the anchor.
    pub position: usize,
    /// Time since the start of the song, in milliseconds.
    pub time: u64,
}

/// The value of a [`Timestamp`].
pub struct TimestampView {
    pub position: nat,
    pub time: nat,
}

impl View for Timestamp {
    type V = TimestampView;

    open spec fn view(&self) -> TimestampView {
        TimestampView { position: self.position as nat, time: self.time as nat }
    }
}

/// One paragraph of lyrics: its text, each line ended by a line feed, and the time
/// anchors found in it, in the order in which they were written.
#[derive(Clone, Debug, PartialEq, Eq)]
pub struct Block {
    pub lyrics: String,
    pub timestamps: Vec<Timestamp>,
}

/// The value of a [`Block`].
pub struct BlockView {
    pub text: Seq<char>,
    pub timestamps: Seq<TimestampView>,
}

impl BlockView {
    /// The block that holds nothing.
    pub open spec fn empty() -> BlockView {
        BlockView { text: Seq::empty(), timestamps: Seq::empty() }
    }
}

impl View for Block {
    type V = BlockView;

    open spec fn view(&self) -> BlockView {
        BlockView {
            text: self.lyrics@,
            timestamps: self.timestamps@.map_values(|t: Timestamp| t@),
        }
    }
}

impl Default for Block {
    fn default() -> (r: Block)
        ensures
            r@ == BlockView::empty(),
    {
        let r = Block { lyrics: String::new(), timestamps: Vec::new() };
        assert(r@.timestamps =~= Seq::empty());
        r
    }
}

/// A whole lyric sheet: its blocks in the order of the text.
#[derive(Clone, Debug, PartialEq, Eq)]
pub struct ParsedLyrics {
    pub blocks: Vec<Block>,
}

impl View for ParsedLyrics {
    type V = Seq<BlockView>;

    open spec fn view(&self) -> Seq<BlockView> {
        self.blocks@.map_values(|b: Block| b@)
    }
}

} // verus!
