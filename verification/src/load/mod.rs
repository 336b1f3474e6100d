//! Building tokenizers from the contents of a `tokenizer.json` file.
pub mod file_laws;
pub mod json;
pub mod merge_laws;
pub mod normalizer;
pub mod outcome_laws;
pub mod pre_tokenizer;
pub mod settings_laws;
pub mod spell_laws;
pub mod vocab;
pub mod vocab_laws;
pub mod assemble;
