//! Outcomes of user translation operations.
use vstd::prelude::*;

verus! {

/// An error returned by a user operation; it stops the engine.
#[derive(Debug)]
pub enum TranslationError {
    Failed(String),
}

/// Whether an operation changed its destination model.
#[derive(Debug, PartialEq, Eq, Structural)]
pub enum TranslationResult {
    Changed,
    Unchanged,
}

} // verus!
