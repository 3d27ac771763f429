//! A fast and customizable rule-based sentence segmenter.
//!
//! Texts are split into sentence-like segments at configurable delimiter
//! strings, while breaks inside quoted spans, protected words, and
//! regex-captured spans are suppressed.  The segmenter only reports half-open
//! byte ranges into the original text; it never edits the text itself.

pub mod basic;
pub mod basic_ja;
pub mod bitset;
pub mod errors;
pub mod matcher;
pub mod pattern;
pub mod segmenter;
pub mod template;


pub use segmenter::Segmenter;
pub use segmenter::SegmenterBuilder;
