//! BPE merging, its tables and caches, and the two tokenizers built on it.
pub mod added;
pub mod added_laws;
pub mod budget;
pub mod byte_level;
pub mod bytes;
pub mod cache_value;
pub mod caches;
pub mod listing;
pub mod match_laws;
pub mod merge;
pub mod model;
pub mod nfc_laws;
pub mod pair_rank;
pub mod pretoken_cache;
pub mod pretoken_laws;
pub mod rank_laws;
pub mod rules;
pub mod split_laws;
pub mod tiktoken;
pub mod vocab_laws;
