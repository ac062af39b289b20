//! Error types for subblock proving.

use crate::error::StatelessValidationError;
use crate::primitives::B256;
use vstd::prelude::*;

verus! {

/// Errors that can occur during subblock validation.
#[derive(Debug, PartialEq, Eq)]
pub enum SubblockValidationError {
    /// Transaction range is out of bounds.
    TxRangeOutOfBounds {
        /// Start of the requested range.
        start: usize,
        /// End of the requested range.
        end: usize,
        /// Number of transactions in the block.
        tx_count: usize,
    },
    /// BAL index range is out of bounds.
    BalRangeOutOfBounds {
        /// Start of the requested range.
        start: u64,
        /// End of the requested range.
        end: u64,
        /// The largest end that a range of the block can have.
        max_bal_index: u64,
    },
    /// Error from the underlying stateless validation.
    StatelessValidation(StatelessValidationError),
    /// Error during block execution.
    ExecutionFailed(String),
    /// BAL error (an execution that does not match the block access list).
    BalError(String),
}

/// Errors that can occur during aggregation validation.
#[derive(Debug, PartialEq, Eq)]
pub enum AggregationValidationError {
    /// Ranges are not contiguous.
    NonContiguousRanges {
        /// Index of the first range.
        index: usize,
        /// End of the first range.
        end: usize,
        /// Index of the second range.
        next_index: usize,
        /// Start of the second range.
        start: usize,
    },
    /// Ranges don't cover the whole block.
    IncompleteRanges {
        /// Number of transactions that are covered.
        covered: usize,
        /// Number of transactions in the block.
        tx_count: usize,
    },
    /// Ranges don't start at 0.
    RangesNotStartingAtZero {
        /// Start of the first range.
        start: usize,
    },
    /// No subblock outputs provided.
    NoSubblockOutputs,
    /// Mismatched number of outputs and ranges.
    MismatchedOutputsAndRanges {
        /// Number of outputs.
        outputs: usize,
        /// Number of ranges.
        ranges: usize,
    },
    /// The cumulative gas of a subblock's receipts falls.
    GasChainingMismatch {
        /// Index of the subblock.
        index: usize,
        /// Cumulative gas that the next receipt must at least have.
        expected: u64,
        /// Index of the subblock that holds the next receipt.
        next_index: usize,
    },
    /// Error from the underlying stateless validation.
    StatelessValidation(StatelessValidationError),
    /// Consensus validation error, in the words of the consensus rules.
    ConsensusValidation(String),
    /// Post-state root mismatch.
    PostStateRootMismatch {
        /// Computed state root.
        computed: B256,
        /// Expected state root from the block header.
        expected: B256,
    },
    /// The block access list does not have the hash that the block gives for it.
    BalHashMismatch {
        /// Computed hash of the block access list.
        computed: B256,
        /// Expected hash from the block.
        expected: B256,
    },
    /// The block gives no hash for its block access list, though Amsterdam is active.
    MissingBalHash {
        /// Computed hash of the block access list.
        computed: B256,
    },
}

} // verus!
