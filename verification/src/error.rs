//! Errors of stateless validation.

use vstd::prelude::*;

verus! {

/// Errors that can occur while a block is validated against a witness.
#[derive(Clone, Debug, PartialEq, Eq)]
pub enum StatelessValidationError {
    /// An ancestor header of the witness could not be decoded.
    HeaderDeserializationFailed,
    /// The witness holds no ancestor header.
    MissingAncestorHeader,
    /// The witness does not determine the pre-state of an account.
    WitnessIncomplete {
        /// What was missing.
        message: String,
    },
    /// Another component of the validation failed: signer recovery, or the trie.
    Custom(String),
}

} // verus!
