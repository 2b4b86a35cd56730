//! Adjust the timing and screen placement of subtitles in the line-oriented
//! numbered-record text format: parse a document, apply a validated
//! combination of time offset, time scale, renumbering and forced top/bottom
//! placement, and render the result byte-for-byte compatibly.

pub mod doc;
pub mod engine;
pub mod error;
pub mod text;
pub mod time;
