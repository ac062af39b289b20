//! Worker guest program for subblock validation.
//!
//! Prepares the execution of a range of transactions within a block on a state that the block
//! access list is fast-forwarded to, and turns what the execution gave into the subblock's output.

use crate::bal::Bal;
use crate::error::StatelessValidationError;
use crate::header::{
    ancestor_hashes, byte_views, hash_map_view, hashes_by_number, hashes_match, header_views,
    headers_of, parent_verdict, sort_by_number, witness_ancestors, HeaderView, SealedHeader,
};
use crate::primitives::{fixed_bytes, lemma_fixed_bytes, Bloom, B256};
use crate::receipt::{
    combined_bloom, receipt_views, receipts_bloom, EthereumReceipt, ReceiptView,
};
use crate::subblock::bal_validation::{bal_agrees, check_built_bal, mismatch_message};
use crate::subblock::error::SubblockValidationError;
use crate::subblock::host::{executed, recovered, trie_built, WorkerHost};
use crate::subblock::types::{OutputView, Requests, SubblockInput, SubblockOutput};
use std::collections::BTreeMap;
use std::ops::Range;
use vstd::prelude::*;

verus! {

/// The place of a subblock in its block.
#[derive(Clone, Copy, Debug, PartialEq, Eq, Structural)]
pub struct SubblockPosition {
    /// The first transaction of the subblock.
    pub tx_start: usize,
    /// The transaction after the last one of the subblock.
    pub tx_end: usize,
    /// Whether the subblock runs the pre-execution system calls.
    pub is_first: bool,
    /// Whether the subblock runs the post-execution processing.
    pub is_last: bool,
}

/// The place of the subblock that covers the BAL indices of `range`: BAL index `i` is transaction
/// `i - 1`, index 0 comes before all transactions and index `tx_count + 1` after them.
pub open spec fn position_of(range: Range<u64>, tx_count: usize) -> SubblockPosition {
    let end = (if range.end == 0 {
        0u64
    } else {
        (range.end - 1) as u64
    }) as usize;
    SubblockPosition {
        tx_start: if range.start == 0 {
            0
        } else {
            (range.start - 1) as u64 as usize
        },
        tx_end: if end < tx_count {
            end
        } else {
            tx_count
        },
        is_first: range.start == 0,
        is_last: range.end > tx_count,
    }
}

/// Converts a range of BAL indices to transaction indices and position flags.
pub fn subblock_position(bal_range: &Range<u64>, tx_count: usize) -> (r: SubblockPosition)
    ensures
        r == position_of(*bal_range, tx_count),
{
    let tx_start: usize = if bal_range.start == 0 {
        0
    } else {
        (bal_range.start - 1) as usize
    };
    let end: usize = (bal_range.end.saturating_sub(1)) as usize;
    let tx_end: usize = if end < tx_count {
        end
    } else {
        tx_count
    };
    SubblockPosition {
        tx_start,
        tx_end,
        is_first: bal_range.start == 0,
        is_last: bal_range.end > tx_count as u64,
    }
}

/// The receipts of the transactions from `start` up to `end`, as far as there are receipts.
pub open spec fn receipts_between(
    receipts: Seq<ReceiptView>,
    start: int,
    end: int,
) -> Seq<ReceiptView> {
    if start < end && start < receipts.len() {
        receipts.subrange(
            start,
            if end < receipts.len() {
                end
            } else {
                receipts.len() as int
            },
        )
    } else {
        Seq::empty()
    }
}

/// The gas used before transaction `start`.
pub open spec fn gas_before(receipts: Seq<ReceiptView>, start: int) -> int {
    if 0 < start <= receipts.len() {
        receipts[start - 1].cumulative_gas_used
    } else {
        0
    }
}

/// The receipt with its cumulative gas counted from where `base` gas was used. A receipt with less
/// than that counts as 0.
pub open spec fn rebased(receipt: ReceiptView, base: int) -> ReceiptView {
    ReceiptView {
        cumulative_gas_used: if receipt.cumulative_gas_used > base {
            receipt.cumulative_gas_used - base
        } else {
            0
        },
        ..receipt
    }
}

/// The receipts of the transactions from `start` up to `end` of a block, with the gas counted from
/// `start`.
pub open spec fn local_receipts(
    receipts: Seq<ReceiptView>,
    start: int,
    end: int,
) -> Seq<ReceiptView> {
    receipts_between(receipts, start, end).map_values(
        |r: ReceiptView| rebased(r, gas_before(receipts, start)),
    )
}

/// Takes the receipts of the transactions from `start` up to `end` out of those of a block, and
/// counts their gas from `start`.
pub fn extract_receipts(receipts: &[EthereumReceipt], start: usize, end: usize) -> (r: Vec<
    EthereumReceipt,
>)
    ensures
        receipt_views(r@) == local_receipts(receipt_views(receipts@), start as int, end as int),
{
    let ghost views = receipt_views(receipts@);
    let ghost all = local_receipts(views, start as int, end as int);
    let mut extracted: Vec<EthereumReceipt> = Vec::new();
    if start >= end || start >= receipts.len() {
        proof {
            assert(receipt_views(extracted@) =~= all);
        }
        return extracted;
    }
    let base: u64 = if start == 0 {
        0
    } else {
        receipts[start - 1].cumulative_gas_used
    };
    let stop: usize = if end < receipts.len() {
        end
    } else {
        receipts.len()
    };
    let mut i: usize = start;
    proof {
        assert(base == gas_before(views, start as int));
        assert(receipt_views(extracted@) =~= all.take(0));
    }
    while i < stop
        invariant
            start <= i <= stop <= receipts.len(),
            start < end,
            stop == if end < receipts.len() {
                end
            } else {
                receipts.len()
            },
            views == receipt_views(receipts@),
            all == local_receipts(views, start as int, end as int),
            base == gas_before(views, start as int),
            receipt_views(extracted@) == all.take(i - start),
        decreases stop - i,
    {
        let mut receipt: EthereumReceipt = receipts[i].clone();
        let ghost copied = receipt@;
        receipt.cumulative_gas_used = receipt.cumulative_gas_used.saturating_sub(base);
        proof {
            assert(copied == views[i as int]);
            assert(all.len() == stop - start);
            assert(all[i - start] == rebased(views[i as int], base as int));
            assert(receipt@ =~= rebased(copied, base as int));
            assert(all.take(i - start + 1) =~= all.take(i - start).push(all[i - start]));
            assert(receipt_views(extracted@.push(receipt)) =~= receipt_views(extracted@).push(
                receipt@,
            ));
        }
        extracted.push(receipt);
        i += 1;
    }
    proof {
        assert(all.take(stop - start) =~= all);
    }
    extracted
}

/// The output that a subblock commits to.
pub open spec fn output_of(receipts: Seq<ReceiptView>, requests: Seq<Seq<u8>>) -> OutputView {
    OutputView {
        receipts,
        logs_bloom: receipts_bloom(receipts),
        requests,
        cumulative_gas_used: if receipts.len() == 0 {
            0
        } else {
            receipts.last().cumulative_gas_used
        },
    }
}

/// Builds the output that a subblock commits to.
pub fn build_output(receipts: Vec<EthereumReceipt>, requests: Requests) -> (r: SubblockOutput<
    EthereumReceipt,
>)
    ensures
        r@ == output_of(receipt_views(receipts@), requests@),
{
    let logs_bloom: Bloom = combined_bloom(receipts.as_slice());
    let cumulative_gas_used: u64 = if receipts.len() == 0 {
        0
    } else {
        receipts[receipts.len() - 1].cumulative_gas_used
    };
    SubblockOutput { receipts, logs_bloom, requests, cumulative_gas_used }
}

/// What an executor gave.
#[derive(Debug)]
pub enum Execution {
    /// It executed the transactions of the subblock only, and counted gas from the first of them.
    Subblock {
        /// The receipts of the subblock's transactions.
        receipts: Vec<EthereumReceipt>,
        /// The requests that it collected.
        requests: Requests,
        /// The block access list that it built.
        bal: Bal,
    },
    /// It executed all transactions of the block.
    Block {
        /// The receipts of all transactions.
        receipts: Vec<EthereumReceipt>,
        /// The requests that it collected.
        requests: Requests,
        /// The block access list that it built.
        bal: Bal,
    },
    /// It failed.
    Failed {
        /// What went wrong.
        message: String,
    },
}

/// The output of the subblock at `position` after the given execution.
pub open spec fn output_verdict(position: SubblockPosition, execution: Execution) -> Result<
    OutputView,
    SubblockValidationError,
> {
    match execution {
        Execution::Failed { message } => Err(SubblockValidationError::ExecutionFailed(message)),
        Execution::Subblock { receipts, requests, .. } => Ok(
            output_of(
                receipt_views(receipts@),
                if position.is_last {
                    requests@
                } else {
                    Seq::empty()
                },
            ),
        ),
        Execution::Block { receipts, requests, .. } => Ok(
            output_of(
                local_receipts(
                    receipt_views(receipts@),
                    position.tx_start as int,
                    position.tx_end as int,
                ),
                if position.is_last {
                    requests@
                } else {
                    Seq::empty()
                },
            ),
        ),
    }
}

/// What a result holds.
pub open spec fn output_result_view(
    r: Result<SubblockOutput<EthereumReceipt>, SubblockValidationError>,
) -> Result<OutputView, SubblockValidationError> {
    match r {
        Ok(output) => Ok(output@),
        Err(e) => Err(e),
    }
}

/// Turns what an execution gave into the output of the subblock. Requests are kept only by the last
/// subblock.
pub fn subblock_output(position: SubblockPosition, execution: Execution) -> (r: Result<
    SubblockOutput<EthereumReceipt>,
    SubblockValidationError,
>)
    ensures
        output_result_view(r) == output_verdict(position, execution),
{
    match execution {
        Execution::Failed { message } => Err(SubblockValidationError::ExecutionFailed(message)),
        Execution::Subblock { receipts, requests, .. } => {
            let kept: Requests = if position.is_last {
                requests
            } else {
                Requests::empty()
            };
            Ok(build_output(receipts, kept))
        },
        Execution::Block { receipts, requests, .. } => {
            let kept: Requests = if position.is_last {
                requests
            } else {
                Requests::empty()
            };
            let extracted: Vec<EthereumReceipt> = extract_receipts(
                receipts.as_slice(),
                position.tx_start,
                position.tx_end,
            );
            Ok(build_output(extracted, kept))
        },
    }
}

/// A subblock whose range lies within its block.
///
/// The signers of the block are to be recovered next.
#[derive(Debug)]
pub struct CheckedSubblock {
    /// The input.
    pub input: SubblockInput,
}

/// A subblock whose ancestor headers are known.
///
/// The trie of the witness is to be built next, on the state root of the parent.
#[derive(Debug)]
pub struct PreparedSubblock {
    /// The input.
    pub input: SubblockInput,
    /// The ancestors of the block, sorted by number.
    pub ancestors: Vec<SealedHeader>,
    /// The parent of the block.
    pub parent: SealedHeader,
}

/// A subblock that is ready to be executed.
#[derive(Debug)]
pub struct ReadySubblock {
    /// The input.
    pub input: SubblockInput,
    /// The transactions to execute, and what comes before and after them.
    pub position: SubblockPosition,
    /// The BAL index to which the state is fast-forwarded.
    pub start_bal_index: u64,
    /// The hashes of the ancestors of the block, by number.
    pub ancestor_hashes: BTreeMap<u64, B256>,
}

/// What the check of a range says: indices up to `tx_count + 1` exist.
pub open spec fn range_verdict(range: Range<u64>, tx_count: int) -> Result<
    (),
    SubblockValidationError,
> {
    if range.end > tx_count + 2 {
        Err(
            SubblockValidationError::BalRangeOutOfBounds {
                start: range.start,
                end: range.end,
                max_bal_index: (tx_count + 2) as u64,
            },
        )
    } else {
        Ok(())
    }
}

/// Checks that the range of a subblock lies within its block.
pub fn check_subblock(input: SubblockInput) -> (r: Result<CheckedSubblock, SubblockValidationError>)
    requires
        input.block.transactions@.len() + 2 <= usize::MAX,
    ensures
        r == match range_verdict(input.bal_range, input.block.transactions@.len() as int) {
            Ok(_) => Ok::<CheckedSubblock, SubblockValidationError>(CheckedSubblock { input }),
            Err(e) => Err::<CheckedSubblock, SubblockValidationError>(e),
        },
{
    let max_bal_index: u64 = (input.block.transactions.len() + 2) as u64;
    if input.bal_range.end > max_bal_index {
        return Err(
            SubblockValidationError::BalRangeOutOfBounds {
                start: input.bal_range.start,
                end: input.bal_range.end,
                max_bal_index,
            },
        );
    }
    Ok(CheckedSubblock { input })
}

impl CheckedSubblock {
    /// Reads the ancestors of the block from the witness, once the signers of the block were
    /// recovered; `recovery` tells whether they were.
    pub fn prepare(self, recovery: Result<(), StatelessValidationError>) -> (r: Result<
        PreparedSubblock,
        SubblockValidationError,
    >)
        ensures
            recovery matches Err(e) ==> r == Err::<PreparedSubblock, SubblockValidationError>(
                SubblockValidationError::StatelessValidation(e),
            ),
            recovery is Ok ==> match parent_verdict(byte_views(self.input.witness.headers@)) {
                Err(e) => r == Err::<PreparedSubblock, SubblockValidationError>(
                    SubblockValidationError::StatelessValidation(e),
                ),
                Ok(parent) => {
                    &&& r is Ok
                    &&& r->Ok_0.input == self.input
                    &&& header_views(r->Ok_0.ancestors@) == sort_by_number(
                        headers_of(byte_views(self.input.witness.headers@)),
                    )
                    &&& hashes_match(r->Ok_0.ancestors@)
                    &&& r->Ok_0.parent.header@ == parent
                    &&& r->Ok_0.parent.hash@ == parent.hash()
                },
            },
    {
        match recovery {
            Ok(_) => {},
            Err(e) => {
                return Err(SubblockValidationError::StatelessValidation(e));
            },
        }
        match witness_ancestors(&self.input.witness.headers) {
            Ok(ancestors) => {
                let last = &ancestors[ancestors.len() - 1];
                let parent = SealedHeader { header: last.header.clone(), hash: last.hash };
                Ok(PreparedSubblock { input: self.input, ancestors, parent })
            },
            Err(e) => Err(SubblockValidationError::StatelessValidation(e)),
        }
    }
}

impl PreparedSubblock {
    /// Says what is to be executed, once the trie was built; `trie` tells whether it was.
    pub fn ready(self, trie: Result<(), StatelessValidationError>) -> (r: Result<
        ReadySubblock,
        SubblockValidationError,
    >)
        ensures
            match trie {
                Err(e) => r == Err::<ReadySubblock, SubblockValidationError>(
                    SubblockValidationError::StatelessValidation(e),
                ),
                Ok(_) => {
                    &&& r is Ok
                    &&& r->Ok_0.input == self.input
                    &&& r->Ok_0.position == position_of(
                        self.input.bal_range,
                        self.input.block.transactions@.len() as usize,
                    )
                    &&& r->Ok_0.start_bal_index == self.input.bal_range.start
                    &&& hash_map_view(r->Ok_0.ancestor_hashes@) == hashes_by_number(
                        header_views(self.ancestors@),
                        self.input.block.header@.parent_hash,
                    )
                },
            },
    {
        match trie {
            Ok(_) => {},
            Err(e) => {
                return Err(SubblockValidationError::StatelessValidation(e));
            },
        }
        let position: SubblockPosition = subblock_position(
            &self.input.bal_range,
            self.input.block.transactions.len(),
        );
        let start_bal_index: u64 = self.input.bal_range.start;
        let hashes: BTreeMap<u64, B256> = ancestor_hashes(
            self.ancestors.as_slice(),
            self.input.block.header.parent_hash(),
        );
        Ok(
            ReadySubblock {
                input: self.input,
                position,
                start_bal_index,
                ancestor_hashes: hashes,
            },
        )
    }
}

/// `r` is what a subblock returns after the given execution: its output, if the execution did at the
/// BAL indices of the subblock what the block access list records there.
pub open spec fn finished(
    input: SubblockInput,
    execution: Execution,
    r: Result<SubblockOutput<EthereumReceipt>, SubblockValidationError>,
) -> bool {
    let position = position_of(input.bal_range, input.block.transactions@.len() as usize);
    match built_bal(execution) {
        None => output_result_view(r) == output_verdict(position, execution),
        Some(built) => if bal_agrees(input.bal.accounts@, built.accounts@, input.bal_range) {
            output_result_view(r) == output_verdict(position, execution)
        } else {
            &&& r matches Err(SubblockValidationError::BalError(message))
            &&& message@ == mismatch_message()
        },
    }
}

/// The block access list that an execution built, unless it failed.
pub open spec fn built_bal(execution: Execution) -> Option<Bal> {
    match execution {
        Execution::Subblock { bal, .. } => Some(bal),
        Execution::Block { bal, .. } => Some(bal),
        Execution::Failed { .. } => None,
    }
}

impl ReadySubblock {
    /// The withdrawals that an execution of this subblock alone processes: those of the block where
    /// the subblock runs the post-execution processing, else none.
    pub fn withdrawals(&self) -> (r: Option<&Vec<Vec<u8>>>)
        ensures
            match self.input.block.withdrawals {
                Some(withdrawals) => if self.position.is_last {
                    r == Some(&withdrawals)
                } else {
                    r is None
                },
                None => r is None,
            },
    {
        if self.position.is_last {
            self.input.block.withdrawals.as_ref()
        } else {
            None
        }
    }

    /// Compares what the execution did with the block access list, and turns what it gave into the
    /// output of the subblock.
    pub fn finish(&self, execution: Execution) -> (r: Result<
        SubblockOutput<EthereumReceipt>,
        SubblockValidationError,
    >)
        requires
            self.position == position_of(
                self.input.bal_range,
                self.input.block.transactions@.len() as usize,
            ),
        ensures
            finished(self.input, execution, r),
    {
        let provided: &Bal = &self.input.bal;
        let check: Result<(), SubblockValidationError> = match &execution {
            Execution::Subblock { bal, .. } => check_built_bal(
                provided,
                bal,
                &self.input.bal_range,
            ),
            Execution::Block { bal, .. } => check_built_bal(provided, bal, &self.input.bal_range),
            Execution::Failed { .. } => Ok(()),
        };
        match check {
            Ok(_) => subblock_output(self.position, execution),
            Err(e) => Err(e),
        }
    }
}

/// `ready` is what is to be executed for the subblock `input`.
pub open spec fn ready_for(input: SubblockInput, ready: ReadySubblock) -> bool {
    &&& ready.input == input
    &&& ready.position == position_of(input.bal_range, input.block.transactions@.len() as usize)
    &&& ready.start_bal_index == input.bal_range.start
    &&& hash_map_view(ready.ancestor_hashes@) == hashes_by_number(
        sort_by_number(headers_of(byte_views(input.witness.headers@))),
        input.block.header@.parent_hash,
    )
}

/// `r` is what a subblock returns once the host has answered on its trie.
pub open spec fn outcome_on_trie<H: WorkerHost>(
    input: SubblockInput,
    host: H,
    trie: Result<H::Trie, StatelessValidationError>,
    r: Result<SubblockOutput<EthereumReceipt>, SubblockValidationError>,
) -> bool {
    match trie {
        Err(e) => output_result_view(r) == Err::<OutputView, SubblockValidationError>(
            SubblockValidationError::StatelessValidation(e),
        ),
        Ok(trie) => exists|ready: ReadySubblock, execution: Execution| #[trigger]
            executed(host, ready, trie, execution) && ready_for(input, ready) && finished(
                input,
                execution,
                r,
            ),
    }
}

/// `r` is what a subblock returns once the host has answered on its signers.
pub open spec fn outcome_on_recovery<H: WorkerHost>(
    input: SubblockInput,
    host: H,
    recovery: Result<(), StatelessValidationError>,
    r: Result<SubblockOutput<EthereumReceipt>, SubblockValidationError>,
) -> bool {
    match recovery {
        Err(e) => output_result_view(r) == Err::<OutputView, SubblockValidationError>(
            SubblockValidationError::StatelessValidation(e),
        ),
        Ok(_) => match parent_verdict(byte_views(input.witness.headers@)) {
            Err(e) => output_result_view(r) == Err::<OutputView, SubblockValidationError>(
                SubblockValidationError::StatelessValidation(e),
            ),
            Ok(parent) => exists|trie: Result<H::Trie, StatelessValidationError>| #[trigger]
                trie_built(host, input.witness, fixed_bytes(parent.state_root), trie)
                    && outcome_on_trie(input, host, trie, r),
        },
    }
}

/// `r` is what a subblock returns. The first failure in the order of the stages is the one reported.
pub open spec fn subblock_outcome<H: WorkerHost>(
    input: SubblockInput,
    host: H,
    r: Result<SubblockOutput<EthereumReceipt>, SubblockValidationError>,
) -> bool {
    match range_verdict(input.bal_range, input.block.transactions@.len() as int) {
        Err(e) => output_result_view(r) == Err::<OutputView, SubblockValidationError>(e),
        Ok(_) => exists|recovery: Result<(), StatelessValidationError>| #[trigger]
            recovered(host, input.block, recovery) && outcome_on_recovery(
                input,
                host,
                recovery,
                r,
            ),
    }
}

/// Executes a subblock (range of transactions) using BAL fast-forwarding.
///
/// The host recovers the signers, builds the trie on the parent's state root and executes. What it
/// executed must match the block access list in the range of the subblock. Returns the output with
/// receipts, logs bloom, requests, and cumulative gas.
pub fn subblock_validation<H: WorkerHost>(input: SubblockInput, host: &H) -> (r: Result<
    SubblockOutput<EthereumReceipt>,
    SubblockValidationError,
>)
    requires
        input.block.transactions@.len() + 2 <= usize::MAX,
    ensures
        subblock_outcome(input, *host, r),
{
    let checked: CheckedSubblock = match check_subblock(input) {
        Ok(checked) => checked,
        Err(e) => {
            return Err(e);
        },
    };
    let recovery: Result<(), StatelessValidationError> = host.recover_signers(
        &checked.input.block,
    );
    assert(recovered(*host, input.block, recovery));
    let ghost given = recovery;
    let prepared: PreparedSubblock = match checked.prepare(recovery) {
        Ok(prepared) => prepared,
        Err(e) => {
            let r = Err(e);
            assert(outcome_on_recovery(input, *host, given, r));
            return r;
        },
    };
    let state_root: B256 = prepared.parent.header.state_root();
    proof {
        lemma_fixed_bytes(state_root);
    }
    let built: Result<H::Trie, StatelessValidationError> = host.build_trie(
        &prepared.input.witness,
        state_root,
    );
    assert(trie_built(*host, input.witness, state_root, built));
    let ghost answer = built;
    let trie: H::Trie = match built {
        Ok(trie) => trie,
        Err(e) => {
            let r = Err(SubblockValidationError::StatelessValidation(e));
            assert(outcome_on_trie(input, *host, answer, r));
            assert(outcome_on_recovery(input, *host, given, r));
            return r;
        },
    };
    let ready: ReadySubblock = match prepared.ready(Ok(())) {
        Ok(ready) => ready,
        Err(e) => {
            return Err(e);
        },
    };
    let execution: Execution = host.execute(&ready, &trie);
    assert(executed(*host, ready, trie, execution));
    assert(ready_for(input, ready));
    let r = ready.finish(execution);
    assert(outcome_on_trie(input, *host, answer, r));
    assert(outcome_on_recovery(input, *host, given, r));
    r
}

/// The place of a subblock follows from its range for every number of transactions: BAL index `i` is
/// transaction `i - 1`, transactions beyond the last one are not counted, the subblock that starts at
/// index 0 is the first, and one that ends behind the last transaction is the last.
pub proof fn lemma_position(range: Range<u64>, tx_count: usize)
    ensures
        ({
            let position = position_of(range, tx_count);
            &&& position.is_first <==> range.start == 0
            &&& position.is_last <==> range.end > tx_count
            &&& range.start == 0 ==> position.tx_start == 0
            &&& 0 < range.start <= usize::MAX ==> position.tx_start == range.start - 1
            &&& range.end == 0 ==> position.tx_end == 0
            &&& 0 < range.end <= tx_count ==> position.tx_end == range.end - 1
            &&& tx_count < range.end <= usize::MAX ==> position.tx_end == tx_count
        }),
{
}

/// Of the receipts of a block, those of the transactions from `start` up to `end` are taken, as far
/// as there are any, in order. They are the same receipts, with the gas that was used before `start`
/// taken off their cumulative gas.
pub proof fn lemma_local_receipts(receipts: Seq<ReceiptView>, start: int, end: int)
    requires
        0 <= start,
        0 <= end,
    ensures
        ({
            let local = local_receipts(receipts, start, end);
            let stop = if end < receipts.len() {
                end
            } else {
                receipts.len() as int
            };
            &&& local.len() == if start < stop {
                stop - start
            } else {
                0
            }
            &&& forall|i: int|
                0 <= i < local.len() ==> {
                    let base = if start == 0 {
                        0
                    } else {
                        receipts[start - 1].cumulative_gas_used
                    };
                    let whole = receipts[start + i];
                    &&& (#[trigger] local[i]).tx_type == whole.tx_type
                    &&& local[i].success == whole.success
                    &&& local[i].logs == whole.logs
                    &&& whole.cumulative_gas_used >= base ==> local[i].cumulative_gas_used
                        == whole.cumulative_gas_used - base
                    &&& whole.cumulative_gas_used < base ==> local[i].cumulative_gas_used == 0
                }
        }),
{
    let local = local_receipts(receipts, start, end);
    let part = receipts_between(receipts, start, end);
    assert(local.len() == part.len());
    assert forall|i: int| 0 <= i < local.len() implies #[trigger] local[i] == rebased(
        receipts[start + i],
        gas_before(receipts, start),
    ) by {
        assert(part[i] == receipts[start + i]);
    }
}

/// A subblock commits to its receipts and requests, to the bloom of the receipts, and to the gas of
/// the last of them, or none.
pub proof fn lemma_output_of(receipts: Seq<ReceiptView>, requests: Seq<Seq<u8>>)
    ensures
        output_of(receipts, requests).receipts == receipts,
        output_of(receipts, requests).requests == requests,
        output_of(receipts, requests).logs_bloom == receipts_bloom(receipts),
        receipts.len() == 0 ==> output_of(receipts, requests).cumulative_gas_used == 0,
        receipts.len() > 0 ==> output_of(receipts, requests).cumulative_gas_used
            == receipts[receipts.len() - 1].cumulative_gas_used,
{
}

/// A range is refused exactly if it ends behind BAL index `tx_count + 2`, with what it is and where
/// it had to end.
pub proof fn lemma_range_judged(range: Range<u64>, tx_count: int)
    ensures
        range_verdict(range, tx_count) is Ok <==> range.end <= tx_count + 2,
        range_verdict(range, tx_count) matches Err(e) ==> e
            == (SubblockValidationError::BalRangeOutOfBounds {
            start: range.start,
            end: range.end,
            max_bal_index: (tx_count + 2) as u64,
        }),
{
}

/// A failed execution fails the subblock with its message. Any other is accepted exactly if it did at
/// the BAL indices of the subblock what the block access list records there, and refused as not
/// matching the list otherwise.
pub proof fn lemma_finished_judged(
    input: SubblockInput,
    execution: Execution,
    r: Result<SubblockOutput<EthereumReceipt>, SubblockValidationError>,
)
    requires
        finished(input, execution, r),
    ensures
        execution matches Execution::Failed { message } ==> r == Err::<
            SubblockOutput<EthereumReceipt>,
            SubblockValidationError,
        >(SubblockValidationError::ExecutionFailed(message)),
        execution matches Execution::Subblock { bal, .. } ==> (r is Ok <==> bal_agrees(
            input.bal.accounts@,
            bal.accounts@,
            input.bal_range,
        )),
        execution matches Execution::Block { bal, .. } ==> (r is Ok <==> bal_agrees(
            input.bal.accounts@,
            bal.accounts@,
            input.bal_range,
        )),
        !(execution is Failed) && r is Err ==> r->Err_0 is BalError,
{
}

/// The output of an accepted subblock, told by its range and its execution. It holds the receipts of
/// the subblock's transactions: all that an execution of these alone gave, or those between the
/// first and the last of them that an execution of the block gave, with the gas counted from the
/// first. It holds the requests exactly if the range ends behind the last transaction.
pub proof fn lemma_accepted_output(
    input: SubblockInput,
    execution: Execution,
    output: SubblockOutput<EthereumReceipt>,
)
    requires
        finished(input, execution, Ok(output)),
        input.block.transactions@.len() + 2 <= usize::MAX,
        input.bal_range.start <= usize::MAX,
        input.bal_range.end <= usize::MAX,
    ensures
        ({
            let tx_count = input.block.transactions@.len();
            let range = input.bal_range;
            let start = if range.start == 0 {
                0
            } else {
                range.start - 1
            };
            let end = if range.end == 0 {
                0
            } else if range.end <= tx_count {
                range.end - 1
            } else {
                tx_count as int
            };
            let kept = receipt_views(output.receipts@);
            &&& execution matches Execution::Subblock { receipts, requests, .. } ==> {
                &&& kept == receipt_views(receipts@)
                &&& range.end > tx_count ==> output.requests@ == requests@
            }
            &&& execution matches Execution::Block { receipts, requests, .. } ==> {
                &&& kept == local_receipts(receipt_views(receipts@), start, end)
                &&& range.end > tx_count ==> output.requests@ == requests@
            }
            &&& !(execution is Failed)
            &&& range.end <= tx_count ==> output.requests@.len() == 0
            &&& output.logs_bloom@ == receipts_bloom(kept)
            &&& kept.len() == 0 ==> output.cumulative_gas_used == 0
            &&& kept.len() > 0 ==> output.cumulative_gas_used
                == kept[kept.len() - 1].cumulative_gas_used
        }),
{
    let tx_count = input.block.transactions@.len() as usize;
    lemma_position(input.bal_range, tx_count);
    match execution {
        Execution::Subblock { receipts, requests, .. } => {
            assert(output@.receipts == receipt_views(receipts@));
        },
        Execution::Block { receipts, requests, .. } => {
            assert(output@.receipts == receipt_views(output.receipts@));
        },
        Execution::Failed { .. } => {},
    }
}

/// What is to be executed for a subblock: its own input, at the place of its range, on a state that is
/// fast-forwarded to the start of the range, with the hashes of its ancestors.
pub proof fn lemma_ready(input: SubblockInput, ready: ReadySubblock)
    requires
        ready_for(input, ready),
    ensures
        ready.input == input,
        ready.position == position_of(input.bal_range, input.block.transactions@.len() as usize),
        ready.start_bal_index == input.bal_range.start,
        hash_map_view(ready.ancestor_hashes@) == hashes_by_number(
            sort_by_number(headers_of(byte_views(input.witness.headers@))),
            input.block.header@.parent_hash,
        ),
{
}

/// What the host was asked and answered for a subblock that is accepted: it recovered the signers,
/// built the trie on the state root of the parent, and executed what [`lemma_ready`] tells of, and
/// the output is that of this execution.
pub proof fn lemma_accepted_subblock<H: WorkerHost>(
    input: SubblockInput,
    host: H,
    r: Result<SubblockOutput<EthereumReceipt>, SubblockValidationError>,
) -> (w: (B256, H::Trie, ReadySubblock, Execution))
    requires
        subblock_outcome(input, host, r),
        r is Ok,
    ensures
        input.bal_range.end <= input.block.transactions@.len() + 2,
        call_ensures(
            H::recover_signers,
            (&host, &input.block),
            Ok::<(), StatelessValidationError>(()),
        ),
        parent_verdict(byte_views(input.witness.headers@)) is Ok,
        w.0 == fixed_bytes::<32>(
            parent_verdict(byte_views(input.witness.headers@))->Ok_0.state_root,
        ),
        call_ensures(
            H::build_trie,
            (&host, &input.witness, w.0),
            Ok::<H::Trie, StatelessValidationError>(w.1),
        ),
        ready_for(input, w.2),
        call_ensures(H::execute, (&host, &w.2, &w.1), w.3),
        finished(input, w.3, r),
{
    let recovery = choose|recovery: Result<(), StatelessValidationError>| #[trigger]
        recovered(host, input.block, recovery) && outcome_on_recovery(input, host, recovery, r);
    assert(recovery is Ok);
    assert(recovery->Ok_0 == ());
    let parent = parent_verdict(byte_views(input.witness.headers@))->Ok_0;
    let trie = choose|trie: Result<H::Trie, StatelessValidationError>| #[trigger]
        trie_built(host, input.witness, fixed_bytes(parent.state_root), trie) && outcome_on_trie(
            input,
            host,
            trie,
            r,
        );
    assert(trie is Ok);
    let (ready, execution) = choose|ready: ReadySubblock, execution: Execution| #[trigger]
        executed(host, ready, trie->Ok_0, execution) && ready_for(input, ready) && finished(
            input,
            execution,
            r,
        );
    (fixed_bytes(parent.state_root), trie->Ok_0, ready, execution)
}

/// A subblock is refused for a reason. In the order of the stages: its range is out of bounds, the
/// host cannot recover the signers, the witness does not hold the parent, the host cannot build the
/// trie, or an execution failed or does not match the block access list.
pub proof fn lemma_refused_subblock<H: WorkerHost>(
    input: SubblockInput,
    host: H,
    e: SubblockValidationError,
)
    requires
        subblock_outcome(input, host, Err(e)),
    ensures
        range_verdict(input.bal_range, input.block.transactions@.len() as int) matches Err(x) ==> e
            == x,
        range_verdict(input.bal_range, input.block.transactions@.len() as int) is Ok ==> {
            ||| e matches SubblockValidationError::StatelessValidation(x) && call_ensures(
                H::recover_signers,
                (&host, &input.block),
                Err::<(), StatelessValidationError>(x),
            )
            ||| e matches SubblockValidationError::StatelessValidation(x) && parent_verdict(
                byte_views(input.witness.headers@),
            ) == Err::<HeaderView, StatelessValidationError>(x)
            ||| e matches SubblockValidationError::StatelessValidation(x) && parent_verdict(
                byte_views(input.witness.headers@),
            ) is Ok && call_ensures(
                H::build_trie,
                (
                    &host,
                    &input.witness,
                    fixed_bytes::<32>(
                        parent_verdict(byte_views(input.witness.headers@))->Ok_0.state_root,
                    ),
                ),
                Err::<H::Trie, StatelessValidationError>(x),
            )
            ||| exists|ready: ReadySubblock, trie: H::Trie, execution: Execution| #[trigger]
                executed(host, ready, trie, execution) && ready_for(input, ready) && finished(
                    input,
                    execution,
                    Err(e),
                )
        },
{
    let r = Err::<SubblockOutput<EthereumReceipt>, SubblockValidationError>(e);
    if range_verdict(input.bal_range, input.block.transactions@.len() as int) is Ok {
        let recovery = choose|recovery: Result<(), StatelessValidationError>| #[trigger]
            recovered(host, input.block, recovery) && outcome_on_recovery(
                input,
                host,
                recovery,
                r,
            );
        if recovery is Ok && parent_verdict(byte_views(input.witness.headers@)) is Ok {
            let parent = parent_verdict(byte_views(input.witness.headers@))->Ok_0;
            let trie = choose|trie: Result<H::Trie, StatelessValidationError>| #[trigger]
                trie_built(host, input.witness, fixed_bytes(parent.state_root), trie)
                    && outcome_on_trie(input, host, trie, r);
            if trie is Ok {
                let (ready, execution) = choose|ready: ReadySubblock, execution: Execution|
                    #[trigger]
                    executed(host, ready, trie->Ok_0, execution) && ready_for(input, ready)
                        && finished(input, execution, r);
                assert(executed(host, ready, trie->Ok_0, execution));
            }
        }
    }
}

/// A subblock must be accepted where its range is in bounds, the witness holds the parent, and every
/// answer of the host is in its favour: the signers are recovered, the trie is built, and the
/// execution does what the block access list records.
pub proof fn lemma_subblock_must_be_accepted<H: WorkerHost>(
    input: SubblockInput,
    host: H,
    r: Result<SubblockOutput<EthereumReceipt>, SubblockValidationError>,
)
    requires
        subblock_outcome(input, host, r),
        input.bal_range.end <= input.block.transactions@.len() + 2,
        forall|reply: Result<(), StatelessValidationError>| #[trigger]
            recovered(host, input.block, reply) ==> reply is Ok,
        parent_verdict(byte_views(input.witness.headers@)) is Ok,
        forall|at: B256, reply: Result<H::Trie, StatelessValidationError>| #[trigger]
            trie_built(host, input.witness, at, reply) ==> reply is Ok,
        forall|ready: ReadySubblock, trie: H::Trie, execution: Execution| #[trigger]
            executed(host, ready, trie, execution) && ready_for(input, ready)
                ==> match execution {
                Execution::Subblock { bal, .. } => bal_agrees(
                    input.bal.accounts@,
                    bal.accounts@,
                    input.bal_range,
                ),
                Execution::Block { bal, .. } => bal_agrees(
                    input.bal.accounts@,
                    bal.accounts@,
                    input.bal_range,
                ),
                Execution::Failed { .. } => false,
            },
    ensures
        r is Ok,
{
    if r is Err {
        let e = r->Err_0;
        assert(r == Err::<SubblockOutput<EthereumReceipt>, SubblockValidationError>(e));
        lemma_range_judged(input.bal_range, input.block.transactions@.len() as int);
        let recovery = choose|recovery: Result<(), StatelessValidationError>| #[trigger]
            recovered(host, input.block, recovery) && outcome_on_recovery(
                input,
                host,
                recovery,
                r,
            );
        let parent = parent_verdict(byte_views(input.witness.headers@))->Ok_0;
        let trie = choose|trie: Result<H::Trie, StatelessValidationError>| #[trigger]
            trie_built(host, input.witness, fixed_bytes(parent.state_root), trie)
                && outcome_on_trie(input, host, trie, r);
        let (ready, execution) = choose|ready: ReadySubblock, execution: Execution| #[trigger]
            executed(host, ready, trie->Ok_0, execution) && ready_for(input, ready) && finished(
                input,
                execution,
                r,
            );
        lemma_finished_judged(input, execution, r);
    }
}

/// The stages of a worker come in order: an earlier one that fails decides, whatever the later ones
/// would say.
pub proof fn lemma_worker_order<H: WorkerHost>(
    input: SubblockInput,
    host: H,
    r: Result<SubblockOutput<EthereumReceipt>, SubblockValidationError>,
)
    requires
        subblock_outcome(input, host, r),
    ensures
        input.bal_range.end > input.block.transactions@.len() + 2 ==> r is Err
            && r->Err_0 is BalRangeOutOfBounds,
        input.bal_range.end <= input.block.transactions@.len() + 2 ==> {
            &&& (forall|reply: Result<(), StatelessValidationError>| #[trigger]
                recovered(host, input.block, reply) ==> reply is Err) ==> {
                &&& r matches Err(SubblockValidationError::StatelessValidation(x))
                &&& call_ensures(
                    H::recover_signers,
                    (&host, &input.block),
                    Err::<(), StatelessValidationError>(x),
                )
            }
            &&& (forall|reply: Result<(), StatelessValidationError>| #[trigger]
                recovered(host, input.block, reply) ==> reply is Ok) ==> {
                &&& parent_verdict(byte_views(input.witness.headers@)) matches Err(x) ==> r
                    == Err::<SubblockOutput<EthereumReceipt>, SubblockValidationError>(
                    SubblockValidationError::StatelessValidation(x),
                )
                &&& parent_verdict(byte_views(input.witness.headers@)) is Ok && (forall|
                    at: B256,
                    reply: Result<H::Trie, StatelessValidationError>,
                | #[trigger]
                    trie_built(host, input.witness, at, reply) ==> reply is Err) ==> r is Err
                    && r->Err_0 is StatelessValidation
            }
        },
{
    lemma_range_judged(input.bal_range, input.block.transactions@.len() as int);
}

} // verus!
