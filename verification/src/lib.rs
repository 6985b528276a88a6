//! Normalizer for line-timed subtitle files: parses a document of timed text
//! blocks, strips non-dialogue content (markers, tags, speaker labels), and
//! re-serializes the surviving blocks with fresh ordinals.

pub mod clean;
pub mod parse;
pub mod srt;
pub mod text;
