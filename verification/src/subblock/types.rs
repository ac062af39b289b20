//! Data structures for subblock proving.

use crate::bal::Bal;
use crate::header::{byte_views, Header};
use crate::primitives::{Bloom, FixedBytes, B256};
use crate::receipt::{receipt_views, zero_bloom, EthereumReceipt, ReceiptView};
use std::ops::Range;
use std::sync::Arc;
use vstd::prelude::*;

verus! {

/// The chain configuration of `alloy_genesis`, which validation hands on unread.
#[verifier::external_type_specification]
#[verifier::external_body]
pub struct ExChainConfig(alloy_genesis::ChainConfig);

/// EIP-7685 requests. The first byte of each is its type.
#[derive(Debug, PartialEq, Eq)]
pub struct Requests {
    /// The requests, each with its type byte.
    pub requests: Vec<Vec<u8>>,
}

impl View for Requests {
    type V = Seq<Seq<u8>>;

    open spec fn view(&self) -> Seq<Seq<u8>> {
        self.requests@.map_values(|r: Vec<u8>| r@)
    }
}

/// Copies byte strings.
fn clone_byte_strings(strings: &Vec<Vec<u8>>) -> (r: Vec<Vec<u8>>)
    ensures
        byte_views(r@) == byte_views(strings@),
{
    let mut copies: Vec<Vec<u8>> = Vec::new();
    let mut i: usize = 0;
    while i < strings.len()
        invariant
            i <= strings.len(),
            copies.len() == i,
            forall|j: int| 0 <= j < i ==> #[trigger] copies@[j]@ == strings@[j]@,
        decreases strings.len() - i,
    {
        let next: Vec<u8> = strings[i].clone();
        proof {
            assert(next@ =~= strings@[i as int]@);
        }
        copies.push(next);
        i += 1;
    }
    proof {
        assert(byte_views(copies@) =~= byte_views(strings@));
    }
    copies
}

/// Calls `clone` of `std::sync::Arc`, which gives another pointer to the same value.
#[verifier::external_body]
fn clone_bal(bal: &Arc<Bal>) -> (r: Arc<Bal>)
    ensures
        r == *bal,
{
    bal.clone()
}

/// `clone` of `alloy_genesis::ChainConfig`, which is derived, gives the same configuration.
pub assume_specification[ <alloy_genesis::ChainConfig as Clone>::clone ](
    config: &alloy_genesis::ChainConfig,
) -> (r: alloy_genesis::ChainConfig)
    ensures
        r == *config,
;

impl Clone for Requests {
    fn clone(&self) -> (r: Self)
        ensures
            r@ == self@,
    {
        let r = Requests { requests: clone_byte_strings(&self.requests) };
        proof {
            assert(r@ =~= byte_views(r.requests@));
            assert(self@ =~= byte_views(self.requests@));
        }
        r
    }
}

impl Requests {
    /// No requests.
    pub fn empty() -> (r: Self)
        ensures
            r@ == Seq::<Seq<u8>>::empty(),
    {
        let r = Requests { requests: Vec::new() };
        proof {
            assert(r@ =~= Seq::<Seq<u8>>::empty());
        }
        r
    }

    /// Whether there are no requests.
    pub fn is_empty(&self) -> (r: bool)
        ensures
            r == (self@.len() == 0),
    {
        self.requests.len() == 0
    }
}

/// A block: its header, what EIP-7928 adds to a header, and its body.
#[derive(Debug)]
pub struct Block {
    /// The header.
    pub header: Header,
    /// Whether the Amsterdam fork is active at the block.
    pub amsterdam_active: bool,
    /// The hash of the block access list (EIP-7928), where the block has one. It stands beside the
    /// header: neither the fields nor the hash of `header` cover it.
    pub block_access_list_hash: Option<B256>,
    /// The transactions, each in its EIP-2718 encoding.
    pub transactions: Vec<Vec<u8>>,
    /// The headers of the ommers, each in its RLP encoding.
    pub ommers: Vec<Vec<u8>>,
    /// The withdrawals, each in its RLP encoding, where the block has a list of them (EIP-4895).
    pub withdrawals: Option<Vec<Vec<u8>>>,
}

/// `a` and `b` hold the same block.
pub open spec fn same_block(a: Block, b: Block) -> bool {
    &&& a.header@ == b.header@
    &&& a.amsterdam_active == b.amsterdam_active
    &&& a.block_access_list_hash == b.block_access_list_hash
    &&& byte_views(a.transactions@) == byte_views(b.transactions@)
    &&& byte_views(a.ommers@) == byte_views(b.ommers@)
    &&& match (a.withdrawals, b.withdrawals) {
        (Some(a), Some(b)) => byte_views(a@) == byte_views(b@),
        (None, None) => true,
        _ => false,
    }
}

impl Clone for Block {
    fn clone(&self) -> (r: Self)
        ensures
            same_block(*self, r),
    {
        Block {
            header: self.header.clone(),
            amsterdam_active: self.amsterdam_active,
            block_access_list_hash: self.block_access_list_hash,
            transactions: clone_byte_strings(&self.transactions),
            ommers: clone_byte_strings(&self.ommers),
            withdrawals: match &self.withdrawals {
                Some(withdrawals) => Some(clone_byte_strings(withdrawals)),
                None => None,
            },
        }
    }
}

/// The pre-state data that a block is validated against.
#[derive(Debug)]
pub struct ExecutionWitness {
    /// Encoded trie nodes.
    pub state: Vec<Vec<u8>>,
    /// Contract code.
    pub codes: Vec<Vec<u8>>,
    /// Preimages of hashed keys.
    pub keys: Vec<Vec<u8>>,
    /// RLP-encoded ancestor headers.
    pub headers: Vec<Vec<u8>>,
}

/// `a` and `b` hold the same witness.
pub open spec fn same_witness(a: ExecutionWitness, b: ExecutionWitness) -> bool {
    &&& byte_views(a.state@) == byte_views(b.state@)
    &&& byte_views(a.codes@) == byte_views(b.codes@)
    &&& byte_views(a.keys@) == byte_views(b.keys@)
    &&& byte_views(a.headers@) == byte_views(b.headers@)
}

impl Clone for ExecutionWitness {
    fn clone(&self) -> (r: Self)
        ensures
            same_witness(*self, r),
    {
        ExecutionWitness {
            state: clone_byte_strings(&self.state),
            codes: clone_byte_strings(&self.codes),
            keys: clone_byte_strings(&self.keys),
            headers: clone_byte_strings(&self.headers),
        }
    }
}

/// Input to the worker guest program for subblock proving.
///
/// Contains all data needed to execute a range of transactions within a block.
#[derive(Debug)]
pub struct SubblockInput {
    /// The full block (header and body).
    pub block: Block,
    /// Witness for the entire block (pre-state).
    pub witness: ExecutionWitness,
    /// Block access list for the entire block.
    pub bal: Arc<Bal>,
    /// BAL index range per EIP-7928.
    /// - Index 0 = pre-execution system calls (beacon root, blockhashes)
    /// - Index 1..n = transactions (tx i-1 at index i)
    /// - Index n+1 = post-execution (withdrawals)
    pub bal_range: Range<u64>,
    /// Chain config for fork rules.
    pub chain_config: alloy_genesis::ChainConfig,
}

impl Clone for SubblockInput {
    fn clone(&self) -> (r: Self)
        ensures
            same_block(self.block, r.block),
            same_witness(self.witness, r.witness),
            r.bal == self.bal,
            r.bal_range == self.bal_range,
            r.chain_config == self.chain_config,
    {
        SubblockInput {
            block: self.block.clone(),
            witness: self.witness.clone(),
            bal: clone_bal(&self.bal),
            bal_range: self.bal_range.start..self.bal_range.end,
            chain_config: self.chain_config.clone(),
        }
    }
}

/// Output committed by the worker (lightweight - no intermediate state roots).
#[derive(Debug, PartialEq, Eq)]
pub struct SubblockOutput<R = EthereumReceipt> {
    /// Receipts for transactions in this range, with the gas counted from the start of the range.
    pub receipts: Vec<R>,
    /// Logs bloom for this range.
    pub logs_bloom: Bloom,
    /// EIP-7685 requests from this range (only populated if it is the last).
    pub requests: Requests,
    /// Cumulative gas used at the end of the range.
    pub cumulative_gas_used: u64,
}

impl<R: Clone> Clone for SubblockOutput<R> {
    fn clone(&self) -> (r: Self)
        ensures
            r.receipts@.len() == self.receipts@.len(),
            forall|i: int|
                0 <= i < self.receipts@.len() ==> cloned(
                    self.receipts@[i],
                    #[trigger] r.receipts@[i],
                ),
            r.logs_bloom == self.logs_bloom,
            r.requests@ == self.requests@,
            r.cumulative_gas_used == self.cumulative_gas_used,
    {
        SubblockOutput {
            receipts: self.receipts.clone(),
            logs_bloom: self.logs_bloom,
            requests: self.requests.clone(),
            cumulative_gas_used: self.cumulative_gas_used,
        }
    }
}

impl<R> Default for SubblockOutput<R> {
    /// The output of a range without transactions.
    fn default() -> (r: Self)
        ensures
            r.receipts@ == Seq::<R>::empty(),
            r.logs_bloom@ == zero_bloom(),
            r.requests@ == Seq::<Seq<u8>>::empty(),
            r.cumulative_gas_used == 0,
    {
        SubblockOutput {
            receipts: Vec::new(),
            logs_bloom: FixedBytes::zero(),
            requests: Requests::empty(),
            cumulative_gas_used: 0,
        }
    }
}

/// What a [`SubblockOutput`] holds.
#[verifier::ext_equal]
pub struct OutputView {
    pub receipts: Seq<ReceiptView>,
    pub logs_bloom: Seq<u8>,
    pub requests: Seq<Seq<u8>>,
    pub cumulative_gas_used: int,
}

impl View for SubblockOutput<EthereumReceipt> {
    type V = OutputView;

    open spec fn view(&self) -> OutputView {
        OutputView {
            receipts: receipt_views(self.receipts@),
            logs_bloom: self.logs_bloom@,
            requests: self.requests@,
            cumulative_gas_used: self.cumulative_gas_used as int,
        }
    }
}

/// The views of a sequence of outputs.
pub open spec fn output_views(s: Seq<SubblockOutput<EthereumReceipt>>) -> Seq<OutputView> {
    s.map_values(|o: SubblockOutput<EthereumReceipt>| o@)
}

/// Input to the master/aggregator guest program.
///
/// Contains verified subblock outputs for combining and final validation.
#[derive(Debug)]
pub struct AggregationInput<R = EthereumReceipt> {
    /// The full block being validated.
    pub block: Block,
    /// Witness for the entire block.
    pub witness: ExecutionWitness,
    /// Block access list for the entire block.
    pub bal: Arc<Bal>,
    /// Chain config for fork rules.
    pub chain_config: alloy_genesis::ChainConfig,
    /// Subblock outputs (in order), verified by ZK proofs.
    pub subblock_outputs: Vec<SubblockOutput<R>>,
    /// The BAL ranges each subblock covered (for verification).
    /// Uses EIP-7928 BAL index semantics.
    pub bal_ranges: Vec<Range<u64>>,
}

impl<R: Clone> Clone for AggregationInput<R> {
    fn clone(&self) -> (r: Self)
        ensures
            same_block(self.block, r.block),
            same_witness(self.witness, r.witness),
            r.bal == self.bal,
            r.chain_config == self.chain_config,
            r.subblock_outputs@.len() == self.subblock_outputs@.len(),
            forall|i: int|
                0 <= i < self.subblock_outputs@.len() ==> cloned(
                    self.subblock_outputs@[i],
                    #[trigger] r.subblock_outputs@[i],
                ),
            r.bal_ranges@ == self.bal_ranges@,
    {
        let mut bal_ranges: Vec<Range<u64>> = Vec::new();
        let mut i: usize = 0;
        while i < self.bal_ranges.len()
            invariant
                i <= self.bal_ranges.len(),
                bal_ranges@ == self.bal_ranges@.take(i as int),
            decreases self.bal_ranges.len() - i,
        {
            bal_ranges.push(self.bal_ranges[i].start..self.bal_ranges[i].end);
            proof {
                let all = self.bal_ranges@;
                assert(all.take(i + 1) =~= all.take(i as int).push(all[i as int]));
            }
            i += 1;
        }
        proof {
            assert(self.bal_ranges@.take(i as int) =~= self.bal_ranges@);
        }
        AggregationInput {
            block: self.block.clone(),
            witness: self.witness.clone(),
            bal: clone_bal(&self.bal),
            chain_config: self.chain_config.clone(),
            subblock_outputs: self.subblock_outputs.clone(),
            bal_ranges,
        }
    }
}

/// An output is seen with all its parts.
pub proof fn lemma_output_view(output: SubblockOutput<EthereumReceipt>)
    ensures
        output@.receipts == receipt_views(output.receipts@),
        output@.receipts.len() == output.receipts@.len(),
        forall|i: int|
            0 <= i < output.receipts@.len() ==> #[trigger] output@.receipts[i]
                == output.receipts@[i]@,
        output@.logs_bloom == output.logs_bloom@,
        output@.requests == output.requests@,
        output@.requests.len() == output.requests.requests@.len(),
        forall|i: int|
            0 <= i < output.requests.requests@.len() ==> #[trigger] output@.requests[i]
                == output.requests.requests@[i]@,
        output@.cumulative_gas_used == output.cumulative_gas_used,
{
}

/// `a` and `b` hold the same byte strings.
pub open spec fn same_byte_strings(a: Vec<Vec<u8>>, b: Vec<Vec<u8>>) -> bool {
    &&& a@.len() == b@.len()
    &&& forall|i: int| 0 <= i < a@.len() ==> #[trigger] a@[i]@ == b@[i]@
}

proof fn lemma_same_byte_strings(a: Vec<Vec<u8>>, b: Vec<Vec<u8>>)
    requires
        byte_views(a@) == byte_views(b@),
    ensures
        same_byte_strings(a, b),
{
    let (x, y) = (byte_views(a@), byte_views(b@));
    assert(x.len() == a@.len() && y.len() == b@.len());
    assert forall|i: int| 0 <= i < a@.len() implies #[trigger] a@[i]@ == b@[i]@ by {
        assert(x[i] == a@[i]@);
        assert(y[i] == b@[i]@);
    }
}

/// Two blocks are the same only if they have the same header, fork flag and hash of the block access
/// list, and the same transactions, ommers and withdrawals.
pub proof fn lemma_same_block(a: Block, b: Block)
    requires
        same_block(a, b),
    ensures
        a.header@ == b.header@,
        a.amsterdam_active == b.amsterdam_active,
        a.block_access_list_hash == b.block_access_list_hash,
        same_byte_strings(a.transactions, b.transactions),
        same_byte_strings(a.ommers, b.ommers),
        a.withdrawals is Some <==> b.withdrawals is Some,
        a.withdrawals is Some ==> same_byte_strings(a.withdrawals->0, b.withdrawals->0),
{
    lemma_same_byte_strings(a.transactions, b.transactions);
    lemma_same_byte_strings(a.ommers, b.ommers);
    if a.withdrawals is Some {
        lemma_same_byte_strings(a.withdrawals->0, b.withdrawals->0);
    }
}

/// Two witnesses are the same only if they hold the same nodes, codes, keys and headers.
pub proof fn lemma_same_witness(a: ExecutionWitness, b: ExecutionWitness)
    requires
        same_witness(a, b),
    ensures
        same_byte_strings(a.state, b.state),
        same_byte_strings(a.codes, b.codes),
        same_byte_strings(a.keys, b.keys),
        same_byte_strings(a.headers, b.headers),
{
    lemma_same_byte_strings(a.state, b.state);
    lemma_same_byte_strings(a.codes, b.codes);
    lemma_same_byte_strings(a.keys, b.keys);
    lemma_same_byte_strings(a.headers, b.headers);
}

} // verus!
