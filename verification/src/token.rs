//! Vocabulary indices.
use vstd::prelude::*;

verus! {

/// A vocabulary index.
#[derive(Clone, Copy, Debug, PartialEq, Eq, Structural, Hash)]
pub struct TokenId(pub u32);

impl TokenId {
    /// The index as a plain number.
    pub fn get(self) -> (r: u32)
        ensures
            r == self.0,
    {
        self.0
    }
}

} // verus!
