//! Pretokenization: splitting text into the pieces that BPE merges never
//! cross.
pub mod batches;
pub mod bits;
pub mod chars;
pub mod cl100k_family;
pub mod classes;
pub mod family_masks;
pub mod family_starts;
pub mod keys;
pub mod locality;
pub mod mask;
pub mod o200k_family;
pub mod pattern;
pub mod pattern_laws;
pub mod r50k;
pub mod r50k_masks;
pub mod r50k_starts;
pub mod runs;
pub mod scalar_laws;
pub mod scheme;
pub mod scheme_laws;
pub mod split;
pub mod starts;
pub mod unicode;
pub mod words;
