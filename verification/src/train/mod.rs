//! Training byte-level BPE merges from word counts.
pub mod laws;
pub mod order_laws;
pub mod queue;
pub mod run;
pub mod step_laws;
pub mod tie_laws;
pub mod update;
pub mod words;
