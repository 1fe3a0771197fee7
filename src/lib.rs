//! A zero-copy byte cursor for hand-written lexers and parsers.
//!
//! A [`cursor::Cursor`] borrows an in-memory byte buffer and keeps one read
//! offset into it. Every operation either advances the offset or leaves it
//! untouched; consumed regions are reported as half-open index ranges.
pub mod cursor;
pub mod laws;
pub mod model;
