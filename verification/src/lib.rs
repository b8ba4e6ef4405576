//! Digests build-tool transcripts into a sorted list of diagnostics without
//! duplicates.
//!
//! A transcript is either a failure log, made of `FAILED:` blocks, or a
//! warning stream. Both are cut into [`item::Item`] records: escape sequences
//! that set colours are removed, header lines are recognised by their shape,
//! and the lines that follow a header become the body of its record. The
//! records are then ordered, duplicates are dropped, and each record is
//! rendered as styled text.
pub mod ansi;
pub mod collate;
pub mod error;
pub mod header;
pub mod item;
pub mod output;
pub mod scan;
pub mod text;
pub mod warning;
