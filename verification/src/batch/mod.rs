//! Chunked batch encoding: documents are grouped into chunks, encoded chunk
//! by chunk, and reassembled into one flat list of tokens and the row lengths
//! of the documents.
pub mod chunks;
pub mod encode;
pub mod file_laws;
pub mod laws;
pub mod ragged;
pub mod rows;
pub mod sentencepiece;
pub mod size_laws;
