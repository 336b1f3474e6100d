//! Byte-level and SentencePiece BPE tokenization.
pub mod batch;
pub mod bpe;
pub mod bytes_map;
pub mod heap;
pub mod input;
pub mod load;
pub mod maps;
pub mod pretokenize;
pub mod search;
pub mod sp;
pub mod text;
pub mod token;
pub mod train;
