//! A library that re-renders unified-diff text for terminal viewing: it
//! parses a raw line stream into typed diff events, pairs removed lines with
//! added lines inside each change block, computes a token-level edit script
//! between paired lines, merges that classification with syntax-highlighting
//! spans and the line's diff role into final styled spans, and serializes the
//! result as ANSI escape sequences.

pub mod align;
pub mod color;
pub mod draw;
pub mod edit_spans;
pub mod edits;
pub mod paint;
pub mod parse;
pub mod pipeline;
pub mod style;
pub mod themes;
