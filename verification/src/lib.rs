//! The lyric timing model of a karaoke display.
//!
//! Lyric text carries timing tags of the form `[minutes:seconds.milliseconds]`
//! between its words, and blank lines between its paragraphs. [`ParsedLyrics::parse`]
//! turns such a text into blocks, each with its text and its time anchors. At any
//! moment of the song, [`ParsedLyrics::get_block_at_time`] names the block that is on
//! screen and [`Block::chars_sung_at`] says how many of its characters have been
//! sung, by interpolation between the two anchors that enclose the moment.
//!
//! Times are whole milliseconds since the start of the song. Positions count
//! characters.

pub mod highlight;
pub mod model;
pub mod parse;
pub mod query;
pub mod tags;
pub mod text;
pub mod timecode;

pub use highlight::chars_sung;
pub use model::{Block, ParsedLyrics, Timestamp};
pub use tags::LyricTag;
pub use timecode::{format_time, format_timecode, parse_timecode};
