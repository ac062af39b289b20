//! The work between the stages of workers and aggregator, which a host does for the guest programs.
//!
//! Nothing is assumed of what a host answers. The contracts of the guest programs say what a host is
//! asked, and what follows from each answer.

use crate::error::StatelessValidationError;
use crate::primitives::B256;
use crate::receipt::EthereumReceipt;
use crate::subblock::bal_state::{HashedPostState, PreStateAccountProvider};
use crate::subblock::types::{Block, ExecutionWitness, Requests};
use crate::subblock::worker::{Execution, ReadySubblock};
use vstd::prelude::*;

verus! {

/// What both guest programs need of a host.
pub trait BlockHost {
    /// The sparse trie of a witness.
    type Trie: PreStateAccountProvider<Error = StatelessValidationError>;

    /// Recovers the signers of the block's transactions.
    fn recover_signers(&self, block: &Block) -> Result<(), StatelessValidationError>;

    /// Builds the trie of the witness on a state root.
    fn build_trie(&self, witness: &ExecutionWitness, state_root: B256) -> Result<
        Self::Trie,
        StatelessValidationError,
    >;
}

/// What a worker needs of a host.
pub trait WorkerHost: BlockHost {
    /// Executes the transactions of a subblock, or of its whole block, on the state that the trie
    /// and the block access list give.
    fn execute(&self, subblock: &ReadySubblock, trie: &Self::Trie) -> Execution;
}

/// What the aggregator needs of a host.
pub trait AggregatorHost: BlockHost {
    /// Validates the block against what its execution gave.
    fn validate_post_execution(
        &self,
        block: &Block,
        receipts: &Vec<EthereumReceipt>,
        requests: &Requests,
    ) -> Result<(), String>;

    /// The state root of the trie after the changes of a post state.
    fn calculate_state_root(&self, trie: Self::Trie, state: HashedPostState) -> Result<
        B256,
        StatelessValidationError,
    >;
}

/// `reply` is an answer of the host on the signers of `block`.
pub open spec fn recovered<H: BlockHost>(
    host: H,
    block: Block,
    reply: Result<(), StatelessValidationError>,
) -> bool {
    call_ensures(H::recover_signers, (&host, &block), reply)
}

/// `reply` is an answer of the host on the trie of `witness`.
pub open spec fn trie_built<H: BlockHost>(
    host: H,
    witness: ExecutionWitness,
    state_root: B256,
    reply: Result<H::Trie, StatelessValidationError>,
) -> bool {
    call_ensures(H::build_trie, (&host, &witness, state_root), reply)
}

/// `reply` is what the host gives for the execution of `subblock`.
pub open spec fn executed<H: WorkerHost>(
    host: H,
    subblock: ReadySubblock,
    trie: H::Trie,
    reply: Execution,
) -> bool {
    call_ensures(H::execute, (&host, &subblock, &trie), reply)
}

/// `reply` is an answer of the host on the block with these receipts and requests.
pub open spec fn post_validated<H: AggregatorHost>(
    host: H,
    block: Block,
    receipts: Vec<EthereumReceipt>,
    requests: Requests,
    reply: Result<(), String>,
) -> bool {
    call_ensures(H::validate_post_execution, (&host, &block, &receipts, &requests), reply)
}

/// `reply` is an answer of the host on the state root after `state`.
pub open spec fn root_calculated<H: AggregatorHost>(
    host: H,
    trie: H::Trie,
    state: HashedPostState,
    reply: Result<B256, StatelessValidationError>,
) -> bool {
    call_ensures(H::calculate_state_root, (&host, trie, state), reply)
}

} // verus!
