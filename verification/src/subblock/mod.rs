//! Subblock proving for parallelized block validation.
//!
//! A block is split into ranges of block access list (BAL) indices. Each range is executed on its
//! own, and an aggregator combines what the ranges gave.

pub mod aggregator;
pub mod bal_state;
pub mod bal_validation;
pub mod error;
pub mod host;
pub mod laws;
pub mod operations;
pub mod types;
pub mod worker;

pub use aggregator::aggregation_validation;
pub use bal_state::{bal_to_hashed_post_state, PreStateAccountProvider};
pub use error::{AggregationValidationError, SubblockValidationError};
pub use types::{AggregationInput, SubblockInput, SubblockOutput};
pub use worker::subblock_validation;
