//! Byte-level input: documents of a buffer, and cutting buffers into parts at
//! document boundaries.
pub mod counts;
pub mod documents;
pub mod format;
pub mod jsonl;
pub mod line_counts;
pub mod part_laws;
pub mod stream;
pub mod text_laws;
