//! SentencePiece-style BPE with byte fallback.
pub mod charsmap;
pub mod cuts;
pub mod decode_laws;
pub mod fragment_laws;
pub mod fragments;
pub mod graphemes;
pub mod lookups;
pub mod model;
pub mod norm_added_laws;
pub mod normalize;
pub mod normalize_laws;
pub mod piece_laws;
pub mod raw_laws;
pub mod spread;
pub mod state;
pub mod symbols;
pub mod unit_laws;
