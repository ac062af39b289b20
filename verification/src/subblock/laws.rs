//! What holds of workers and aggregator together.

use crate::bal::{
    account_ends_before, account_searchable, bal_changes_before, bal_contents, bal_determinate,
    bal_keys_distinct, bal_list_hash, bal_lookups, final_changes, has_hash, lemma_bal_lookups,
    lemma_final_account, lemma_final_changes, lemma_final_determinate, Bal, BalWrites,
    ChangesView,
};
use crate::error::StatelessValidationError;
use crate::hash::keccak256_digest;
use crate::header::{byte_views, parent_verdict, HeaderView};
use crate::map::distinct_keys;
use crate::primitives::{fixed_bytes, Address, B256, U256};
use crate::receipt::{
    bloom_union, logs_bloom_bits, receipt_views, receipts_bloom, zero_bloom, EthereumReceipt,
    ReceiptView,
};
use crate::subblock::aggregator::{
    aggregation_outcome, block_lookup_failure, block_post_state, combined_bloom,
    combined_receipts, combined_requests, combined_to, final_bal_index, final_verdict, gas_ascends,
    gas_fits, gas_offset, gas_verdict, has_txs, input_verdict, lemma_gas_judged, lemma_gas_verdict,
    lemma_opening, lemma_ranges_judged, lemma_ranges_verdict, opening_verdict, outcome_on_recovery, outcome_on_trie,
    outcome_on_validation, ranges_complete, shift_receipts,
};
use crate::subblock::bal_state::{
    all_found, first_failure, hashed_slots, hashes_apart, lemma_asked_pre_state,
    lemma_hashed_slot_was_written, lemma_post_state_of_account, lemma_state_of_changes, post_state, post_state_on, HashedPostState, PostStateView,
    PreStateAccountProvider, TrieAccount,
};
use crate::subblock::bal_validation::bal_agrees;
use crate::subblock::error::{AggregationValidationError, SubblockValidationError};
use crate::subblock::host::{
    post_validated, recovered, root_calculated, trie_built, AggregatorHost,
};
use crate::subblock::types::{
    output_views, AggregationInput, OutputView, Requests, SubblockInput, SubblockOutput,
};
use crate::subblock::worker::{
    built_bal, finished, gas_before, local_receipts, output_of, output_verdict, position_of, rebased,
    receipts_between, Execution, SubblockPosition,
};
use std::ops::Range;
use vstd::prelude::*;

verus! {

/// No range ends before it starts.
pub open spec fn ranges_ordered(ranges: Seq<Range<u64>>) -> bool {
    forall|i: int| 0 <= i < ranges.len() ==> (#[trigger] ranges[i]).start <= ranges[i].end
}

/// BAL index `k` lies in range `i`.
pub open spec fn in_range(ranges: Seq<Range<u64>>, i: int, k: int) -> bool {
    0 <= i < ranges.len() && ranges[i].start <= k < ranges[i].end
}

/// The first range that ends after `k`.
proof fn lemma_first_end_after(ranges: Seq<Range<u64>>, k: int, n: int) -> (i: int)
    requires
        0 <= n < ranges.len(),
        ranges[n].end > k,
    ensures
        0 <= i <= n,
        ranges[i].end > k,
        forall|j: int| 0 <= j < i ==> (#[trigger] ranges[j]).end <= k,
    decreases n,
{
    if exists|j: int| 0 <= j < n && (#[trigger] ranges[j]).end > k {
        let j = choose|j: int| 0 <= j < n && (#[trigger] ranges[j]).end > k;
        lemma_first_end_after(ranges, k, j)
    } else {
        n
    }
}

/// Complete ranges leave out no BAL index of the block.
pub proof fn lemma_complete_ranges_cover(ranges: Seq<Range<u64>>, tx_count: int, k: int)
    requires
        ranges_complete(ranges, tx_count),
        0 <= k < tx_count + 2,
    ensures
        exists|i: int| #[trigger] in_range(ranges, i, k),
{
    let i = lemma_first_end_after(ranges, k, ranges.len() - 1);
    if i > 0 {
        assert(ranges[i - 1].end == ranges[i - 1 + 1].start);
    }
    assert(in_range(ranges, i, k));
}

/// The ends of contiguous ordered ranges never fall.
proof fn lemma_ends_ascend(ranges: Seq<Range<u64>>, tx_count: int, i: int, j: int)
    requires
        ranges_complete(ranges, tx_count),
        ranges_ordered(ranges),
        0 <= i <= j < ranges.len(),
    ensures
        ranges[i].end <= ranges[j].end,
        i < j ==> ranges[i].end <= ranges[j].start,
    decreases j - i,
{
    if i < j {
        lemma_ends_ascend(ranges, tx_count, i, j - 1);
        assert(ranges[j - 1].end == ranges[j - 1 + 1].start);
    }
}

/// Complete ranges that are ordered cover each BAL index of the block exactly once.
pub proof fn lemma_complete_ranges_disjoint(
    ranges: Seq<Range<u64>>,
    tx_count: int,
    i: int,
    j: int,
    k: int,
)
    requires
        ranges_complete(ranges, tx_count),
        ranges_ordered(ranges),
        in_range(ranges, i, k),
        in_range(ranges, j, k),
    ensures
        i == j,
{
    if i < j {
        lemma_ends_ascend(ranges, tx_count, i, j);
    } else if j < i {
        lemma_ends_ascend(ranges, tx_count, j, i);
    }
}

/// A transaction belongs to a subblock exactly if its BAL index lies in the subblock's range.
pub proof fn lemma_tx_of_range(range: Range<u64>, tx_count: usize, tx: int)
    requires
        tx_count + 2 <= usize::MAX,
        range.start <= tx_count + 2,
        range.end <= tx_count + 2,
        0 <= tx < tx_count,
    ensures
        position_of(range, tx_count).tx_start <= tx < position_of(range, tx_count).tx_end
            <==> range.start <= tx + 1 < range.end,
{
}

/// The subblocks of complete ordered ranges share out the transactions of the block: each
/// transaction is executed by exactly one of them.
pub proof fn lemma_txs_partitioned(ranges: Seq<Range<u64>>, tx_count: usize, tx: int)
    requires
        ranges_complete(ranges, tx_count as int),
        ranges_ordered(ranges),
        tx_count + 2 <= usize::MAX,
        0 <= tx < tx_count,
    ensures
        exists|i: int|
            0 <= i < ranges.len() && (#[trigger] position_of(ranges[i], tx_count)).tx_start <= tx
                < position_of(ranges[i], tx_count).tx_end,
        forall|i: int, j: int|
            0 <= i < ranges.len() && 0 <= j < ranges.len() && (#[trigger] position_of(
                ranges[i],
                tx_count,
            )).tx_start <= tx < position_of(ranges[i], tx_count).tx_end && (#[trigger] position_of(
                ranges[j],
                tx_count,
            )).tx_start <= tx < position_of(ranges[j], tx_count).tx_end ==> i == j,
{
    assert forall|i: int| 0 <= i < ranges.len() implies (#[trigger] ranges[i]).end <= tx_count + 2
        by {
        lemma_ends_ascend(ranges, tx_count as int, i, ranges.len() - 1);
    }
    lemma_complete_ranges_cover(ranges, tx_count as int, tx + 1);
    let i = choose|i: int| #[trigger] in_range(ranges, i, tx + 1);
    lemma_tx_of_range(ranges[i], tx_count, tx);
    assert(position_of(ranges[i], tx_count).tx_start <= tx);
    assert forall|i: int, j: int|
        0 <= i < ranges.len() && 0 <= j < ranges.len() && (#[trigger] position_of(
            ranges[i],
            tx_count,
        )).tx_start <= tx < position_of(ranges[i], tx_count).tx_end && (#[trigger] position_of(
            ranges[j],
            tx_count,
        )).tx_start <= tx < position_of(ranges[j], tx_count).tx_end implies i == j by {
        lemma_tx_of_range(ranges[i], tx_count, tx);
        lemma_tx_of_range(ranges[j], tx_count, tx);
        assert(in_range(ranges, i, tx + 1) && in_range(ranges, j, tx + 1));
        lemma_complete_ranges_disjoint(ranges, tx_count as int, i, j, tx + 1);
    }
}

/// Of complete ranges that each hold an index, the first alone runs the pre-execution, the last one
/// runs the post-execution, and another one counts as last only if it ends right before the
/// post-execution index.
pub proof fn lemma_positions(ranges: Seq<Range<u64>>, tx_count: usize, i: int)
    requires
        ranges_complete(ranges, tx_count as int),
        forall|j: int| 0 <= j < ranges.len() ==> (#[trigger] ranges[j]).start < ranges[j].end,
        0 <= i < ranges.len(),
    ensures
        position_of(ranges[i], tx_count).is_first <==> i == 0,
        i == ranges.len() - 1 ==> position_of(ranges[i], tx_count).is_last,
        i < ranges.len() - 1 && position_of(ranges[i], tx_count).is_last ==> ranges[i].end
            == tx_count + 1,
{
    assert(ranges_ordered(ranges));
    if i > 0 {
        lemma_ends_ascend(ranges, tx_count as int, 0, i);
        assert(ranges[0].start < ranges[0].end);
    }
    if i < ranges.len() - 1 {
        lemma_ends_ascend(ranges, tx_count as int, i, ranges.len() - 1);
        let last = ranges[ranges.len() - 1];
        assert(last.start < last.end);
    }
}

/// The union of blooms is associative, commutative and idempotent, and the empty filter is its
/// neutral element.
pub proof fn lemma_bloom_union(a: Seq<u8>, b: Seq<u8>, c: Seq<u8>)
    requires
        a.len() == 256,
        b.len() == 256,
        c.len() == 256,
    ensures
        bloom_union(a, b) == bloom_union(b, a),
        bloom_union(a, bloom_union(b, c)) == bloom_union(bloom_union(a, b), c),
        bloom_union(a, a) == a,
        bloom_union(a, zero_bloom()) == a,
{
    lemma_union_assoc(a, b, c);
    assert forall|i: int| 0 <= i < 256 implies bloom_union(a, b)[i] == bloom_union(b, a)[i] by {
        let x = a[i];
        let y = b[i];
        assert(x | y == y | x) by (bit_vector);
    }
    assert(bloom_union(a, b) =~= bloom_union(b, a));
    assert forall|i: int| 0 <= i < 256 implies bloom_union(a, a)[i] == a[i] by {
        let x = a[i];
        assert(x | x == x) by (bit_vector);
    }
    assert(bloom_union(a, a) =~= a);
    lemma_union_zero(a);
}

proof fn lemma_union_assoc(a: Seq<u8>, b: Seq<u8>, c: Seq<u8>)
    requires
        a.len() == b.len(),
    ensures
        bloom_union(a, bloom_union(b, c)) == bloom_union(bloom_union(a, b), c),
{
    assert forall|i: int| 0 <= i < a.len() implies bloom_union(a, bloom_union(b, c))[i]
        == bloom_union(bloom_union(a, b), c)[i] by {
        let x = a[i];
        let y = b[i];
        let z = c[i];
        assert(x | (y | z) == (x | y) | z) by (bit_vector);
    }
    assert(bloom_union(a, bloom_union(b, c)) =~= bloom_union(bloom_union(a, b), c));
}

proof fn lemma_union_zero(a: Seq<u8>)
    requires
        a.len() == 256,
    ensures
        bloom_union(a, zero_bloom()) == a,
{
    assert forall|i: int| 0 <= i < 256 implies bloom_union(a, zero_bloom())[i] == a[i] by {
        let x = a[i];
        assert(x | 0u8 == x) by (bit_vector);
    }
    assert(bloom_union(a, zero_bloom()) =~= a);
}

proof fn lemma_receipts_bloom_len(receipts: Seq<ReceiptView>)
    ensures
        receipts_bloom(receipts).len() == 256,
    decreases receipts.len(),
{
    if receipts.len() > 0 {
        lemma_receipts_bloom_len(receipts.drop_last());
    }
}

/// The bloom of receipts does not depend on how they are split: it is the union of the blooms of
/// the parts.
pub proof fn lemma_receipts_bloom_split(a: Seq<ReceiptView>, b: Seq<ReceiptView>)
    ensures
        receipts_bloom(a + b) == bloom_union(receipts_bloom(a), receipts_bloom(b)),
    decreases b.len(),
{
    lemma_receipts_bloom_len(a);
    if b.len() == 0 {
        assert(a + b =~= a);
        lemma_union_zero(receipts_bloom(a));
    } else {
        let rest = b.drop_last();
        lemma_receipts_bloom_split(a, rest);
        lemma_receipts_bloom_len(rest);
        assert((a + b).drop_last() =~= a + rest);
        assert((a + b).last() == b.last());
        lemma_union_assoc(
            receipts_bloom(a),
            receipts_bloom(rest),
            logs_bloom_bits(b.last().bloom_inputs()),
        );
    }
}

/// The bloom of receipts does not depend on their gas.
proof fn lemma_receipts_bloom_gas(a: Seq<ReceiptView>, b: Seq<ReceiptView>)
    requires
        a.len() == b.len(),
        forall|i: int| 0 <= i < a.len() ==> (#[trigger] a[i]).logs == b[i].logs,
    ensures
        receipts_bloom(a) == receipts_bloom(b),
    decreases a.len(),
{
    if a.len() > 0 {
        let n = a.len() - 1;
        assert forall|i: int| 0 <= i < n implies (#[trigger] a.drop_last()[i]).logs
            == b.drop_last()[i].logs by {
            assert(a[i].logs == b[i].logs);
        }
        lemma_receipts_bloom_gas(a.drop_last(), b.drop_last());
        assert(a[n].logs == b[n].logs);
    }
}

/// The receipts of an executed block: one for each transaction, with cumulative gas that never falls
/// and fits its type.
pub open spec fn block_receipts(receipts: Seq<ReceiptView>, tx_count: int) -> bool {
    &&& receipts.len() == tx_count
    &&& gas_ascends(receipts)
    &&& forall|i: int|
        0 <= i < receipts.len() ==> 0 <= (#[trigger] receipts[i]).cumulative_gas_used <= u64::MAX
}

/// The output of the subblock that covers `range`, taken from the receipts and requests of the
/// whole block.
pub open spec fn split_output(
    receipts: Seq<ReceiptView>,
    requests: Seq<Seq<u8>>,
    range: Range<u64>,
    tx_count: usize,
) -> OutputView {
    let position = position_of(range, tx_count);
    output_of(
        local_receipts(receipts, position.tx_start as int, position.tx_end as int),
        if position.is_last {
            requests
        } else {
            Seq::empty()
        },
    )
}

/// The outputs of the subblocks that cover `ranges`.
pub open spec fn split_outputs(
    receipts: Seq<ReceiptView>,
    requests: Seq<Seq<u8>>,
    ranges: Seq<Range<u64>>,
    tx_count: usize,
) -> Seq<OutputView> {
    ranges.map_values(|range: Range<u64>| split_output(receipts, requests, range, tx_count))
}

/// How many transactions the first `n` ranges cover.
spec fn covered_by(ranges: Seq<Range<u64>>, tx_count: usize, n: int) -> int {
    if n == 0 {
        0
    } else {
        position_of(ranges[n - 1], tx_count).tx_end as int
    }
}

/// What one subblock adds to what the subblocks before it covered.
#[verifier::spinoff_prover]
#[verifier::rlimit(50)]
proof fn lemma_split_step(
    receipts: Seq<ReceiptView>,
    requests: Seq<Seq<u8>>,
    ranges: Seq<Range<u64>>,
    tx_count: usize,
    n: int,
)
    requires
        block_receipts(receipts, tx_count as int),
        ranges_complete(ranges, tx_count as int),
        ranges_ordered(ranges),
        tx_count + 2 <= usize::MAX,
        0 <= n < ranges.len(),
    ensures
        ({
            let output = split_outputs(receipts, requests, ranges, tx_count)[n];
            let start = covered_by(ranges, tx_count, n);
            let end = covered_by(ranges, tx_count, n + 1);
            let base = gas_before(receipts, start);
            &&& 0 <= start <= end <= tx_count
            &&& shift_receipts(output.receipts, base) == receipts.subrange(start, end)
            &&& base + output.cumulative_gas_used == gas_before(receipts, end)
            &&& output.logs_bloom == receipts_bloom(receipts.subrange(start, end))
            &&& gas_ascends(output.receipts)
        }),
{
    let range = ranges[n];
    let position = position_of(range, tx_count);
    let output = split_outputs(receipts, requests, ranges, tx_count)[n];
    let start = covered_by(ranges, tx_count, n);
    let end = covered_by(ranges, tx_count, n + 1);
    let base = gas_before(receipts, start);
    lemma_ends_ascend(ranges, tx_count as int, n, ranges.len() - 1);
    assert(range.start <= range.end <= tx_count + 2);
    if n > 0 {
        assert(ranges[n - 1].end == ranges[n - 1 + 1].start);
    }
    let local = output.receipts;
    let part = receipts.subrange(start, end);
    if position.tx_start < position.tx_end {
        assert(start == position.tx_start);
        assert(receipts_between(receipts, start, end) == part);
        assert(local.len() == part.len());
        assert forall|i: int| 0 <= i < part.len() implies (#[trigger] part[i]).cumulative_gas_used
            >= base by {
            assert(part[i] == receipts[start + i]);
            if start > 0 {
                assert(receipts[start - 1].cumulative_gas_used <= receipts[start
                    + i].cumulative_gas_used);
            } else {
                assert(receipts[start + i].cumulative_gas_used >= 0);
            }
        }
        assert forall|i: int| 0 <= i < part.len() implies shift_receipts(local, base)[i]
            == #[trigger] part[i] by {
            assert(local[i] == rebased(part[i], base));
            assert(local[i].shifted(base) =~= part[i]);
        }
        assert(shift_receipts(local, base) =~= part);
        assert(local.last() == rebased(part.last(), base));
        assert(part.last() == receipts[end - 1]);
        assert forall|i: int, j: int| 0 <= i <= j < local.len() implies (
        #[trigger] local[i]).cumulative_gas_used <= (#[trigger] local[j]).cumulative_gas_used by {
            assert(local[i] == rebased(part[i], base));
            assert(local[j] == rebased(part[j], base));
            assert(receipts[start + i].cumulative_gas_used <= receipts[start
                + j].cumulative_gas_used);
        }
    } else {
        assert(start == end);
        assert(local =~= Seq::empty());
        assert(shift_receipts(local, base) =~= part);
    }
    assert forall|i: int| 0 <= i < local.len() implies (#[trigger] local[i]).logs == part[i].logs by {
        assert(local[i] == rebased(part[i], base));
    }
    lemma_receipts_bloom_gas(local, part);
}

/// What the first `n` subblocks combine to.
#[verifier::spinoff_prover]
#[verifier::rlimit(50)]
proof fn lemma_split_prefix(
    receipts: Seq<ReceiptView>,
    requests: Seq<Seq<u8>>,
    ranges: Seq<Range<u64>>,
    tx_count: usize,
    n: int,
)
    requires
        block_receipts(receipts, tx_count as int),
        ranges_complete(ranges, tx_count as int),
        ranges_ordered(ranges),
        tx_count + 2 <= usize::MAX,
        0 <= n <= ranges.len(),
    ensures
        ({
            let outputs = split_outputs(receipts, requests, ranges, tx_count);
            let covered = covered_by(ranges, tx_count, n);
            &&& 0 <= covered <= tx_count
            &&& combined_receipts(outputs, n) == receipts.take(covered)
            &&& gas_offset(outputs, n) == gas_before(receipts, covered)
            &&& combined_bloom(outputs, n) == receipts_bloom(receipts.take(covered))
        }),
    decreases n,
{
    let outputs = split_outputs(receipts, requests, ranges, tx_count);
    let covered = covered_by(ranges, tx_count, n);
    if n == 0 {
        assert(receipts.take(0) =~= Seq::empty());
    } else {
        let start = covered_by(ranges, tx_count, n - 1);
        lemma_split_prefix(receipts, requests, ranges, tx_count, n - 1);
        lemma_split_step(receipts, requests, ranges, tx_count, n - 1);
        assert(receipts.take(start) + receipts.subrange(start, covered) =~= receipts.take(covered));
        lemma_receipts_bloom_split(receipts.take(start), receipts.subrange(start, covered));
    }
}

/// Splitting a block and combining it again gives the block back. Where the subblocks of complete
/// ordered ranges take their outputs from one execution of the block, the aggregator accepts these
/// outputs and combines them to the receipts, the logs bloom and the requests of that execution.
#[verifier::spinoff_prover]
#[verifier::rlimit(50)]
pub proof fn lemma_split_and_combine(
    receipts: Seq<ReceiptView>,
    requests: Seq<Seq<u8>>,
    ranges: Seq<Range<u64>>,
    tx_count: usize,
)
    requires
        block_receipts(receipts, tx_count as int),
        ranges_complete(ranges, tx_count as int),
        ranges_ordered(ranges),
        tx_count + 2 <= usize::MAX,
    ensures
        ({
            let outputs = split_outputs(receipts, requests, ranges, tx_count);
            let n = ranges.len() as int;
            &&& opening_verdict(outputs, ranges, tx_count) is Ok
            &&& gas_fits(outputs)
            &&& combined_receipts(outputs, n) == receipts
            &&& combined_bloom(outputs, n) == receipts_bloom(receipts)
            &&& combined_requests(outputs, n) == requests
        }),
{
    let outputs = split_outputs(receipts, requests, ranges, tx_count);
    let n = ranges.len() as int;
    lemma_split_prefix(receipts, requests, ranges, tx_count, n);
    assert(covered_by(ranges, tx_count, n) == tx_count);
    assert(receipts.take(tx_count as int) =~= receipts);
    assert(gas_fits(outputs)) by {
        assert forall|i: int| 0 <= i < outputs.len() implies {
            &&& #[trigger] gas_offset(outputs, i) + outputs[i].cumulative_gas_used <= u64::MAX
            &&& forall|j: int|
                0 <= j < outputs[i].receipts.len() ==> gas_offset(outputs, i) + (
                #[trigger] outputs[i].receipts[j]).cumulative_gas_used <= u64::MAX
        } by {
            lemma_split_prefix(receipts, requests, ranges, tx_count, i);
            lemma_split_step(receipts, requests, ranges, tx_count, i);
            let start = covered_by(ranges, tx_count, i);
            let end = covered_by(ranges, tx_count, i + 1);
            let shifted = shift_receipts(outputs[i].receipts, gas_offset(outputs, i));
            assert forall|j: int| 0 <= j < outputs[i].receipts.len() implies gas_offset(outputs, i)
                + (#[trigger] outputs[i].receipts[j]).cumulative_gas_used <= u64::MAX by {
                assert(shifted[j] == receipts.subrange(start, end)[j]);
                assert(receipts[start + j].cumulative_gas_used <= u64::MAX);
            }
            if end > 0 {
                assert(receipts[end - 1].cumulative_gas_used <= u64::MAX);
            }
        }
    }
    assert(gas_verdict(outputs, ranges) is Ok) by {
        lemma_gas_verdict(outputs, ranges);
        assert forall|i: int|
            0 <= i < outputs.len() && i < ranges.len() && has_txs(ranges[i]) implies gas_ascends(
            #[trigger] outputs[i].receipts,
        ) by {
            lemma_split_step(receipts, requests, ranges, tx_count, i);
        }
    }
    lemma_ranges_verdict(ranges, tx_count);
    assert(position_of(ranges[n - 1], tx_count).is_last);
    if requests.len() == 0 {
        lemma_no_requests(outputs, n);
        assert(requests =~= Seq::empty());
    }
}

proof fn lemma_no_requests(outputs: Seq<OutputView>, n: int)
    requires
        0 <= n <= outputs.len(),
        forall|i: int| 0 <= i < outputs.len() ==> (#[trigger] outputs[i]).requests.len() == 0,
    ensures
        combined_requests(outputs, n) == Seq::<Seq<u8>>::empty(),
    decreases n,
{
    if n > 0 {
        lemma_no_requests(outputs, n - 1);
    }
}

/// No receipt of a subblock has more cumulative gas than the subblock as a whole.
pub open spec fn gas_bounded(output: OutputView) -> bool {
    &&& output.cumulative_gas_used >= 0
    &&& forall|j: int|
        0 <= j < output.receipts.len() ==> 0 <= (#[trigger] output.receipts[j]).cumulative_gas_used
            <= output.cumulative_gas_used
}

/// Where the gas of each subblock ascends up to the subblock's own total, the gas of the combined
/// receipts ascends throughout the block, up to the sum of the totals.
pub proof fn lemma_combined_gas_ascends(outputs: Seq<OutputView>, n: int)
    requires
        0 <= n <= outputs.len(),
        forall|i: int|
            0 <= i < outputs.len() ==> gas_ascends((#[trigger] outputs[i]).receipts) && gas_bounded(
                outputs[i],
            ),
    ensures
        gas_ascends(combined_receipts(outputs, n)),
        forall|j: int|
            0 <= j < combined_receipts(outputs, n).len() ==> 0 <= (#[trigger] combined_receipts(
                outputs,
                n,
            )[j]).cumulative_gas_used <= gas_offset(outputs, n),
        gas_offset(outputs, n) >= 0,
    decreases n,
{
    if n > 0 {
        lemma_combined_gas_ascends(outputs, n - 1);
        let before = combined_receipts(outputs, n - 1);
        let offset = gas_offset(outputs, n - 1);
        let own = outputs[n - 1].receipts;
        let all = combined_receipts(outputs, n);
        assert(gas_ascends(own) && gas_bounded(outputs[n - 1]));
        assert(all == before + shift_receipts(own, offset));
        assert forall|j: int| 0 <= j < all.len() implies 0 <= (
        #[trigger] all[j]).cumulative_gas_used <= gas_offset(outputs, n) && (j >= before.len()
            ==> all[j].cumulative_gas_used >= offset) by {
            if j < before.len() {
                assert(all[j] == before[j]);
            } else {
                assert(all[j] == own[j - before.len()].shifted(offset));
            }
        }
        assert forall|i: int, j: int| 0 <= i <= j < all.len() implies (
        #[trigger] all[i]).cumulative_gas_used <= (#[trigger] all[j]).cumulative_gas_used by {
            if j < before.len() {
                assert(all[i] == before[i] && all[j] == before[j]);
            } else if i < before.len() {
                assert(all[i] == before[i]);
            } else {
                assert(all[i] == own[i - before.len()].shifted(offset));
                assert(all[j] == own[j - before.len()].shifted(offset));
            }
        }
    }
}

/// The post state of a block whose access list is determinate follows from the writes of the block
/// and the pre-state alone.
pub proof fn lemma_block_post_state<P: PreStateAccountProvider<Error = StatelessValidationError>>(
    input: AggregationInput<EthereumReceipt>,
    trie: P,
    state: PostStateView,
)
    requires
        block_post_state(input, trie, state),
        bal_determinate(
            input.bal.accounts@,
            final_bal_index(input.block.transactions@.len() as int) as u64,
        ),
    ensures
        post_state_on(
            trie,
            bal_changes_before(
                input.bal.accounts@,
                final_bal_index(input.block.transactions@.len() as int) as u64,
            ),
            state,
        ),
{
    let bal_index = final_bal_index(input.block.transactions@.len() as int) as u64;
    let changes = choose|changes: Seq<(Address, ChangesView)>| #[trigger]
        bal_lookups(input.bal.accounts@, bal_index, changes) && post_state_on(trie, changes, state);
    lemma_bal_lookups(input.bal.accounts@, bal_index, changes);
}

/// It makes no difference to the output of a subblock whether its transactions were executed alone
/// or as part of the whole block: receipts that agree up to where their gas is counted from give the
/// same output.
pub proof fn lemma_executions_agree(
    position: SubblockPosition,
    alone: Vec<EthereumReceipt>,
    whole: Vec<EthereumReceipt>,
    requests: Requests,
    bal: Bal,
)
    requires
        receipt_views(alone@) == local_receipts(
            receipt_views(whole@),
            position.tx_start as int,
            position.tx_end as int,
        ),
    ensures
        output_verdict(position, Execution::Subblock { receipts: alone, requests, bal })
            == output_verdict(position, Execution::Block { receipts: whole, requests, bal }),
{
}

/// `execution` is one of a block that gives `receipts` and `requests`: of the whole block, or of the
/// transactions at `position` with their gas counted from the first of them.
pub open spec fn executes_block(
    execution: Execution,
    position: SubblockPosition,
    receipts: Seq<ReceiptView>,
    requests: Seq<Seq<u8>>,
) -> bool {
    match execution {
        Execution::Block { receipts: whole, requests: collected, .. } => {
            &&& receipt_views(whole@) == receipts
            &&& collected@ == requests
        },
        Execution::Subblock { receipts: alone, requests: collected, .. } => {
            &&& receipt_views(alone@) == local_receipts(
                receipts,
                position.tx_start as int,
                position.tx_end as int,
            )
            &&& position.is_last ==> collected@ == requests
        },
        Execution::Failed { .. } => false,
    }
}

/// What a worker returns for an execution of its block, if it returns an output, is the subblock's
/// part of the block.
pub proof fn lemma_worker_splits(
    input: SubblockInput,
    execution: Execution,
    receipts: Seq<ReceiptView>,
    requests: Seq<Seq<u8>>,
    r: Result<SubblockOutput<EthereumReceipt>, SubblockValidationError>,
)
    requires
        finished(input, execution, r),
        executes_block(
            execution,
            position_of(input.bal_range, input.block.transactions@.len() as usize),
            receipts,
            requests,
        ),
    ensures
        built_bal(execution) is Some,
        r is Ok <==> bal_agrees(
            input.bal.accounts@,
            built_bal(execution)->0.accounts@,
            input.bal_range,
        ),
        r is Ok ==> r->Ok_0@ == split_output(
            receipts,
            requests,
            input.bal_range,
            input.block.transactions@.len() as usize,
        ),
{
}

/// A subblock that is accepted was executed in accordance with the block access list: at the BAL
/// indices of its range the execution wrote what the list records there.
pub proof fn lemma_accepted_subblock_matches_bal(
    input: SubblockInput,
    execution: Execution,
    r: Result<SubblockOutput<EthereumReceipt>, SubblockValidationError>,
)
    requires
        finished(input, execution, r),
        r is Ok,
    ensures
        built_bal(execution) matches Some(built) && bal_agrees(
            input.bal.accounts@,
            built.accounts@,
            input.bal_range,
        ),
{
}

/// The host takes `trie` for one of the block: no lookup fails, and the post state of the block has
/// the state root of the header.
pub open spec fn trie_accepted<H: AggregatorHost>(
    input: AggregationInput<EthereumReceipt>,
    host: H,
    trie: H::Trie,
) -> bool {
    &&& forall|e: StatelessValidationError| !(#[trigger] block_lookup_failure(input, trie, e))
    &&& forall|state: HashedPostState, root: Result<B256, StatelessValidationError>| #[trigger]
        root_calculated(host, trie, state, root) && block_post_state(input, trie, state@) ==> (
        root matches Ok(root) && root@ == input.block.header@.state_root)
}

/// The block access list has the hash that the block gives for it, and the block gives one where
/// Amsterdam is active.
pub open spec fn bal_accepted(input: AggregationInput<EthereumReceipt>) -> bool {
    match input.block.block_access_list_hash {
        Some(hash) => has_hash(*input.bal, hash),
        None => !input.block.amsterdam_active,
    }
}

/// The block is accepted with the receipts and requests of its execution: every answer that the host
/// can give on it is in favour of it, the witness holds its parent, and its block access list has
/// the hash that it gives.
pub open spec fn block_accepted<H: AggregatorHost>(
    input: AggregationInput<EthereumReceipt>,
    host: H,
    receipts: Seq<ReceiptView>,
    requests: Seq<Seq<u8>>,
) -> bool {
    &&& forall|reply: Result<(), StatelessValidationError>| #[trigger]
        recovered(host, input.block, reply) ==> reply is Ok
    &&& parent_verdict(byte_views(input.witness.headers@)) is Ok
    &&& forall|rs: Vec<EthereumReceipt>, qs: Requests, reply: Result<(), String>| #[trigger]
        post_validated(host, input.block, rs, qs, reply) && receipt_views(rs@) == receipts && qs@
            == requests ==> reply is Ok
    &&& forall|reply: Result<H::Trie, StatelessValidationError>| #[trigger]
        trie_built(
            host,
            input.witness,
            fixed_bytes(parent_verdict(byte_views(input.witness.headers@))->Ok_0.state_root),
            reply,
        ) ==> reply is Ok && trie_accepted(input, host, reply->Ok_0)
    &&& bal_accepted(input)
}

/// The outputs of `input` are what workers returned for executions of the block that give `receipts`
/// and `requests`; worker `i` had range `i`.
pub open spec fn from_workers(
    input: AggregationInput<EthereumReceipt>,
    workers: Seq<SubblockInput>,
    executions: Seq<Execution>,
    receipts: Seq<ReceiptView>,
    requests: Seq<Seq<u8>>,
) -> bool {
    let outputs = input.subblock_outputs@;
    &&& outputs.len() == input.bal_ranges@.len()
    &&& workers.len() == outputs.len()
    &&& executions.len() == outputs.len()
    &&& forall|i: int|
        0 <= i < outputs.len() ==> {
            &&& (#[trigger] workers[i]).block == input.block
            &&& workers[i].bal_range == input.bal_ranges@[i]
            &&& executes_block(
                executions[i],
                position_of(
                    workers[i].bal_range,
                    workers[i].block.transactions@.len() as usize,
                ),
                receipts,
                requests,
            )
            &&& finished(workers[i], executions[i], Ok(outputs[i]))
        }
}

/// Validation in subblocks accepts what validation of the whole block accepts. However a block is
/// split into complete ordered ranges, where the outputs are those of the block's workers and the
/// host accepts the block with the receipts and requests of its execution, the aggregator has no
/// outcome but the block hash.
#[verifier::spinoff_prover]
#[verifier::rlimit(50)]
pub proof fn lemma_split_block_is_accepted<H: AggregatorHost>(
    input: AggregationInput<EthereumReceipt>,
    host: H,
    workers: Seq<SubblockInput>,
    executions: Seq<Execution>,
    receipts: Seq<ReceiptView>,
    requests: Seq<Seq<u8>>,
    r: Result<B256, AggregationValidationError>,
)
    requires
        input.block.transactions@.len() + 2 <= usize::MAX,
        from_workers(input, workers, executions, receipts, requests),
        block_receipts(receipts, input.block.transactions@.len() as int),
        ranges_complete(input.bal_ranges@, input.block.transactions@.len() as int),
        ranges_ordered(input.bal_ranges@),
        block_accepted(input, host, receipts, requests),
        aggregation_outcome(input, host, r),
    ensures
        gas_fits(output_views(input.subblock_outputs@)),
        r == Ok::<B256, AggregationValidationError>(fixed_bytes(input.block.header@.hash())),
{
    let outputs = output_views(input.subblock_outputs@);
    let ranges = input.bal_ranges@;
    let tx_count = input.block.transactions@.len() as usize;
    let split = split_outputs(receipts, requests, ranges, tx_count);
    assert forall|i: int| 0 <= i < outputs.len() implies outputs[i] == split[i] by {
        let output = input.subblock_outputs@[i];
        assert(workers[i].block == input.block);
        lemma_worker_splits(workers[i], executions[i], receipts, requests, Ok(output));
    }
    assert(outputs =~= split);
    lemma_split_and_combine(receipts, requests, ranges, tx_count);
    let recovery = choose|recovery: Result<(), StatelessValidationError>| #[trigger]
        recovered(host, input.block, recovery) && outcome_on_recovery(input, host, recovery, r);
    let parent = parent_verdict(byte_views(input.witness.headers@))->Ok_0;
    let (rs, qs, validation) = choose|
        rs: Vec<EthereumReceipt>,
        qs: Requests,
        validation: Result<(), String>,
    | #[trigger]
        post_validated(host, input.block, rs, qs, validation) && combined_to(outputs, rs, qs)
            && outcome_on_validation(input, host, parent, validation, r);
    assert(validation is Ok);
    let trie = choose|trie: Result<H::Trie, StatelessValidationError>| #[trigger]
        trie_built(host, input.witness, fixed_bytes(parent.state_root), trie) && outcome_on_trie(
            input,
            host,
            trie,
            r,
        );
    assert(trie is Ok && trie_accepted(input, host, trie->Ok_0));
}

/// Nothing is accepted in vain: for an accepted block the checks on outputs and ranges passed, the
/// witness holds the parent, the post state of the block has the state root of the header, and the
/// block access list has the hash that the block gives for it. A block that gives none is accepted
/// only where Amsterdam is not active.
pub proof fn lemma_accepted_block<H: AggregatorHost>(
    input: AggregationInput<EthereumReceipt>,
    host: H,
    r: Result<B256, AggregationValidationError>,
)
    requires
        aggregation_outcome(input, host, r),
        r is Ok,
    ensures
        input_verdict(input) is Ok,
        parent_verdict(byte_views(input.witness.headers@)) is Ok,
        exists|trie: H::Trie, state: HashedPostState, root: B256| #[trigger]
            root_calculated(host, trie, state, Ok(root)) && block_post_state(input, trie, state@)
                && root@ == input.block.header@.state_root,
        input.block.block_access_list_hash matches Some(hash) ==> hash@ == bal_list_hash(
            bal_contents(input.bal.accounts@),
        ),
        input.block.block_access_list_hash is None ==> !input.block.amsterdam_active,
{
    let recovery = choose|recovery: Result<(), StatelessValidationError>| #[trigger]
        recovered(host, input.block, recovery) && outcome_on_recovery(input, host, recovery, r);
    let parent = parent_verdict(byte_views(input.witness.headers@))->Ok_0;
    let (rs, qs, validation) = choose|
        rs: Vec<EthereumReceipt>,
        qs: Requests,
        validation: Result<(), String>,
    | #[trigger]
        post_validated(host, input.block, rs, qs, validation) && combined_to(
            output_views(input.subblock_outputs@),
            rs,
            qs,
        ) && outcome_on_validation(input, host, parent, validation, r);
    let trie = choose|trie: Result<H::Trie, StatelessValidationError>| #[trigger]
        trie_built(host, input.witness, fixed_bytes(parent.state_root), trie) && outcome_on_trie(
            input,
            host,
            trie,
            r,
        );
    let (state, root, hash) = choose|
        state: HashedPostState,
        root: Result<B256, StatelessValidationError>,
        hash: B256,
    | #[trigger]
        root_calculated(host, trie->Ok_0, state, root) && block_post_state(
            input,
            trie->Ok_0,
            state@,
        ) && #[trigger] has_hash(*input.bal, hash) && r == final_verdict(input.block, root, hash);
    assert(root_calculated(host, trie->Ok_0, state, Ok(root->Ok_0)));
}

/// The checks on the outputs and ranges of an aggregation pass exactly if there is an output for each
/// range, the ranges lead from BAL index 0 without a gap to `transactions + 2`, and in every subblock
/// whose range holds more than the pre-execution index no receipt has less cumulative gas than an
/// earlier one.
pub proof fn lemma_input_checks(input: AggregationInput<EthereumReceipt>)
    requires
        input.block.transactions@.len() + 2 <= usize::MAX,
    ensures
        ({
            let ranges = input.bal_ranges@;
            let outputs = input.subblock_outputs@;
            input_verdict(input) is Ok <==> {
                &&& outputs.len() > 0
                &&& outputs.len() == ranges.len()
                &&& ranges[0].start == 0
                &&& forall|j: int|
                    0 <= j < ranges.len() - 1 ==> (#[trigger] ranges[j]).end == ranges[j + 1].start
                &&& ranges[ranges.len() - 1].end == input.block.transactions@.len() + 2
                &&& forall|i: int, x: int, y: int|
                    0 <= i < outputs.len() && ranges[i].start < ranges[i].end && !(ranges[i].start
                        == 0 && ranges[i].end == 1) && 0 <= x <= y < outputs[i].receipts@.len()
                        ==> (#[trigger] outputs[i].receipts@[x]).cumulative_gas_used <= (
                    #[trigger] outputs[i].receipts@[y]).cumulative_gas_used
            }
        }),
{
    let ranges = input.bal_ranges@;
    let outputs = input.subblock_outputs@;
    let views = output_views(outputs);
    let tx_count = input.block.transactions@.len() as usize;
    lemma_opening(views, ranges, tx_count);
    lemma_ranges_judged(ranges, tx_count);
    lemma_gas_judged(views, ranges);
    assert forall|i: int, x: int|
        0 <= i < outputs.len() && 0 <= x < outputs[i].receipts@.len() implies (
    #[trigger] outputs[i].receipts@[x]).cumulative_gas_used
        == views[i].receipts[x].cumulative_gas_used by {}
    if input_verdict(input) is Ok {
        assert forall|i: int, x: int, y: int|
            0 <= i < outputs.len() && ranges[i].start < ranges[i].end && !(ranges[i].start == 0
                && ranges[i].end == 1) && 0 <= x <= y < outputs[i].receipts@.len() implies (
        #[trigger] outputs[i].receipts@[x]).cumulative_gas_used <= (
        #[trigger] outputs[i].receipts@[y]).cumulative_gas_used by {
            assert(views[i].receipts[x].cumulative_gas_used
                <= views[i].receipts[y].cumulative_gas_used);
        }
    }
    if gas_verdict(views, ranges) is Err && outputs.len() == ranges.len() {
        let (i, x, y) = choose|i: int, x: int, y: int|
            0 <= i < views.len() && i < ranges.len() && ranges[i].start < ranges[i].end && !(
            ranges[i].start == 0 && ranges[i].end == 1) && 0 <= x <= y < views[i].receipts.len()
                && !((#[trigger] views[i].receipts[x]).cumulative_gas_used <= (
            #[trigger] views[i].receipts[y]).cumulative_gas_used);
        assert(!(outputs[i].receipts@[x].cumulative_gas_used
            <= outputs[i].receipts@[y].cumulative_gas_used));
    }
}

/// The block access list is read behind all its indices: the post state of a block is what lookups at
/// BAL index `transactions + 2` lead to, for every number of transactions, and a lookup fails only
/// for changes that are seen there.
pub proof fn lemma_block_read_at_end<P: PreStateAccountProvider<Error = StatelessValidationError>>(
    input: AggregationInput<EthereumReceipt>,
    trie: P,
    state: PostStateView,
    e: StatelessValidationError,
)
    ensures
        block_post_state(input, trie, state) <==> exists|changes: Seq<(Address, ChangesView)>|
            #[trigger]
            bal_lookups(
                input.bal.accounts@,
                (input.block.transactions@.len() + 2) as u64,
                changes,
            ) && post_state_on(trie, changes, state),
        block_lookup_failure(input, trie, e) <==> exists|changes: Seq<(Address, ChangesView)>|
            #[trigger]
            bal_lookups(
                input.bal.accounts@,
                (input.block.transactions@.len() + 2) as u64,
                changes,
            ) && first_failure(trie, changes, e),
{
    let accounts = input.bal.accounts@;
    let bal_index = (input.block.transactions@.len() + 2) as u64;
    assert(final_bal_index(input.block.transactions@.len() as int) as u64 == bal_index);
    if block_post_state(input, trie, state) {
        let changes = choose|changes: Seq<(Address, ChangesView)>| #[trigger]
            bal_lookups(
                accounts,
                final_bal_index(input.block.transactions@.len() as int) as u64,
                changes,
            ) && post_state_on(trie, changes, state);
        assert(bal_lookups(accounts, bal_index, changes));
    }
    if block_lookup_failure(input, trie, e) {
        let changes = choose|changes: Seq<(Address, ChangesView)>| #[trigger]
            bal_lookups(
                accounts,
                final_bal_index(input.block.transactions@.len() as int) as u64,
                changes,
            ) && first_failure(trie, changes, e);
        assert(bal_lookups(accounts, bal_index, changes));
    }
    if exists|changes: Seq<(Address, ChangesView)>| #[trigger]
        bal_lookups(accounts, bal_index, changes) && post_state_on(trie, changes, state) {
        let changes = choose|changes: Seq<(Address, ChangesView)>| #[trigger]
            bal_lookups(accounts, bal_index, changes) && post_state_on(trie, changes, state);
        assert(bal_lookups(
            accounts,
            final_bal_index(input.block.transactions@.len() as int) as u64,
            changes,
        ));
    }
    if exists|changes: Seq<(Address, ChangesView)>| #[trigger]
        bal_lookups(accounts, bal_index, changes) && first_failure(trie, changes, e) {
        let changes = choose|changes: Seq<(Address, ChangesView)>| #[trigger]
            bal_lookups(accounts, bal_index, changes) && first_failure(trie, changes, e);
        assert(bal_lookups(
            accounts,
            final_bal_index(input.block.transactions@.len() as int) as u64,
            changes,
        ));
    }
}

/// All writes of a block are in its post state. Where every write lies at a BAL index below
/// `transactions + 2`, and the writes to each item are in order or fewer than five, the post state of
/// the block is that of the last write to every nonce, balance, code and slot.
pub proof fn lemma_block_post_state_is_final<
    P: PreStateAccountProvider<Error = StatelessValidationError>,
>(input: AggregationInput<EthereumReceipt>, trie: P, state: PostStateView)
    requires
        input.block.transactions@.len() + 2 <= usize::MAX,
        forall|i: int|
            0 <= i < input.bal.accounts@.len() ==> account_searchable(
                (#[trigger] input.bal.accounts@[i]).1,
            ) && account_ends_before(
                input.bal.accounts@[i].1,
                (input.block.transactions@.len() + 2) as u64,
            ),
        block_post_state(input, trie, state),
    ensures
        post_state_on(trie, final_changes(input.bal.accounts@), state),
{
    let accounts = input.bal.accounts@;
    let bal_index = (input.block.transactions@.len() + 2) as u64;
    let changes = choose|changes: Seq<(Address, ChangesView)>| #[trigger]
        bal_lookups(accounts, bal_index, changes) && post_state_on(trie, changes, state);
    lemma_final_determinate(accounts, bal_index);
    lemma_bal_lookups(accounts, bal_index, changes);
    lemma_final_changes(accounts, bal_index);
}

/// What the post state of a block holds of one of its accounts, told by the writes of the block. The
/// account is in it exactly if its nonce, balance or code was written. It then has the last write to
/// each that was written, and for the rest what the trie answers for its address, or nonce 0, balance
/// 0 and no code if the trie has no such account. Its storage holds the last write of every slot that
/// was written, and nothing else.
#[verifier::spinoff_prover]
#[verifier::rlimit(50)]
pub proof fn lemma_block_account<P: PreStateAccountProvider<Error = StatelessValidationError>>(
    input: AggregationInput<EthereumReceipt>,
    trie: P,
    state: PostStateView,
    i: int,
) -> (pre: Option<TrieAccount>)
    requires
        input.block.transactions@.len() + 2 <= usize::MAX,
        forall|j: int|
            0 <= j < input.bal.accounts@.len() ==> account_searchable(
                (#[trigger] input.bal.accounts@[j]).1,
            ) && account_ends_before(
                input.bal.accounts@[j].1,
                (input.block.transactions@.len() + 2) as u64,
            ),
        bal_keys_distinct(input.bal.accounts@),
        hashes_apart(input.bal.accounts@),
        0 <= i < input.bal.accounts@.len(),
        hashes_apart(input.bal.accounts@[i].1.storage.storage@),
        block_post_state(input, trie, state),
    ensures
        ({
            let account = input.bal.accounts@[i].1;
            let nonce = account.account_info.nonce.writes@;
            let balance = account.account_info.balance.writes@;
            let code = account.account_info.code.writes@;
            let slots = account.storage.storage@;
            let key = keccak256_digest(input.bal.accounts@[i].0@);
            let some = nonce.len() > 0 || balance.len() > 0 || code.len() > 0;
            let all = nonce.len() > 0 && balance.len() > 0 && code.len() > 0;
            &&& some && !all ==> call_ensures(
                P::account,
                (&trie, input.bal.accounts@[i].0),
                Ok::<Option<TrieAccount>, StatelessValidationError>(pre),
            )
            &&& state.accounts.contains_key(key) <==> some
            &&& some ==> {
                &&& state.accounts[key] is Some
                &&& nonce.len() > 0 ==> state.accounts[key]->0.nonce == nonce[nonce.len() - 1].1
                &&& nonce.len() == 0 ==> state.accounts[key]->0.nonce == match pre {
                    Some(pre) => pre.nonce,
                    None => 0,
                }
                &&& balance.len() > 0 ==> state.accounts[key]->0.balance == balance[balance.len()
                    - 1].1@
                &&& balance.len() == 0 && pre is Some ==> state.accounts[key]->0.balance
                    == pre->0.balance@
                &&& balance.len() == 0 && pre is None ==> forall|b: int|
                    0 <= b < 32 ==> #[trigger] state.accounts[key]->0.balance[b] == 0
                &&& code.len() > 0 ==> state.accounts[key]->0.bytecode_hash == Some(
                    code[code.len() - 1].1.0@,
                )
                &&& code.len() == 0 && pre is None ==> state.accounts[key]->0.bytecode_hash is None
                &&& code.len() == 0 && pre is Some && pre->0.code_hash@ == keccak256_digest(
                    Seq::empty(),
                ) ==> state.accounts[key]->0.bytecode_hash is None
                &&& code.len() == 0 && pre is Some && pre->0.code_hash@ != keccak256_digest(
                    Seq::empty(),
                ) ==> state.accounts[key]->0.bytecode_hash == Some(pre->0.code_hash@)
            }
            &&& state.storages.contains_key(key) <==> exists|s: int|
                0 <= s < slots.len() && (#[trigger] slots[s]).1.writes@.len() > 0
            &&& state.storages.contains_key(key) ==> !state.storages[key].wiped
            &&& forall|s: int|
                0 <= s < slots.len() && (#[trigger] slots[s]).1.writes@.len() > 0
                    ==> state.storages[key].storage.contains_key(keccak256_digest(slots[s].0@))
                    && state.storages[key].storage[keccak256_digest(slots[s].0@)]
                    == slots[s].1.writes@.last().1
            &&& state.storages.contains_key(key) ==> forall|k: Seq<u8>| #[trigger]
                state.storages[key].storage.contains_key(k) ==> exists|s: int|
                    0 <= s < slots.len() && keccak256_digest((#[trigger] slots[s]).0@) == k
                        && slots[s].1.writes@.len() > 0
        }),
{
    let accounts = input.bal.accounts@;
    lemma_block_post_state_is_final(input, trie, state);
    let changes = final_changes(accounts);
    let pre = choose|pre: Seq<Option<TrieAccount>>| #[trigger]
        all_found(trie, changes, pre) && state == post_state(changes, pre);
    lemma_final_account(accounts, i);
    lemma_asked_pre_state(trie, changes, pre, i);
    assert forall|j: int| 0 <= j < changes.len() && j != i implies keccak256_digest(
        (#[trigger] changes[j]).0@,
    ) != keccak256_digest(changes[i].0@) by {
        lemma_final_account(accounts, j);
        if j < i {
            assert(accounts[j].0@ != accounts[i].0@);
        } else {
            assert(accounts[i].0@ != accounts[j].0@);
        }
    }
    lemma_state_of_changes(changes, pre, i);
    let slots = accounts[i].1.storage.storage@;
    let key = keccak256_digest(accounts[i].0@);
    assert(distinct_keys(slots));
    lemma_post_state_of_account(changes, pre, i);
    lemma_hashed_last_writes(slots, changes[i].1.storage);
    pre[i]
}

/// Where `values` are the last writes of the slots that were written, their hashed storage holds these
/// and nothing else.
proof fn lemma_hashed_last_writes(
    slots: Seq<(U256, BalWrites<U256>)>,
    values: Seq<(U256, U256)>,
)
    requires
        distinct_keys(slots),
        hashes_apart(slots),
        forall|s: int|
            0 <= s < slots.len() && (#[trigger] slots[s]).1.writes@.len() > 0 ==> values.contains(
                (slots[s].0, slots[s].1.writes@.last().1),
            ),
        forall|c: (U256, U256)| #[trigger]
            values.contains(c) ==> exists|s: int|
                0 <= s < slots.len() && (#[trigger] slots[s]).0 == c.0
                    && slots[s].1.writes@.len() > 0 && slots[s].1.writes@.last().1 == c.1,
    ensures
        values.len() > 0 <==> exists|s: int|
            0 <= s < slots.len() && (#[trigger] slots[s]).1.writes@.len() > 0,
        forall|s: int|
            0 <= s < slots.len() && (#[trigger] slots[s]).1.writes@.len() > 0 ==> hashed_slots(
                values,
            ).contains_key(keccak256_digest(slots[s].0@)) && hashed_slots(
                values,
            )[keccak256_digest(slots[s].0@)] == slots[s].1.writes@.last().1,
        forall|k: Seq<u8>| #[trigger]
            hashed_slots(values).contains_key(k) ==> exists|s: int|
                0 <= s < slots.len() && keccak256_digest((#[trigger] slots[s]).0@) == k
                    && slots[s].1.writes@.len() > 0,
{
    if values.len() > 0 {
        assert(values.contains(values[0]));
    }
    assert forall|s: int|
        0 <= s < slots.len() && (#[trigger] slots[s]).1.writes@.len() > 0 implies hashed_slots(
        values,
    ).contains_key(keccak256_digest(slots[s].0@)) && hashed_slots(
        values,
    )[keccak256_digest(slots[s].0@)] == slots[s].1.writes@.last().1 by {
        let written = (slots[s].0, slots[s].1.writes@.last().1);
        let k = keccak256_digest(slots[s].0@);
        assert(values.contains(written));
        let p = choose|p: int| 0 <= p < values.len() && values[p] == written;
        assert(keccak256_digest(values[p].0@) == k);
        lemma_slot_is_hashed(values, k);
        lemma_hashed_slot_was_written(values, k);
        let q = choose|q: int|
            0 <= q < values.len() && keccak256_digest((#[trigger] values[q]).0@) == k
                && hashed_slots(values)[k] == values[q].1;
        assert(values.contains(values[q]));
        let t = choose|t: int|
            0 <= t < slots.len() && (#[trigger] slots[t]).0 == values[q].0
                && slots[t].1.writes@.len() > 0 && slots[t].1.writes@.last().1 == values[q].1;
        assert(slots[t].0@ == slots[s].0@);
        if t < s {
            assert(slots[t].0@ != slots[s].0@);
        } else if s < t {
            assert(slots[s].0@ != slots[t].0@);
        }
    }
    assert forall|k: Seq<u8>| #[trigger] hashed_slots(values).contains_key(k) implies exists|
        s: int,
    |
        0 <= s < slots.len() && keccak256_digest((#[trigger] slots[s]).0@) == k
            && slots[s].1.writes@.len() > 0 by {
        lemma_hashed_slot_was_written(values, k);
        let q = choose|q: int|
            0 <= q < values.len() && keccak256_digest((#[trigger] values[q]).0@) == k
                && hashed_slots(values)[k] == values[q].1;
        assert(values.contains(values[q]));
    }
}

proof fn lemma_slot_is_hashed(storage: Seq<(U256, U256)>, key: Seq<u8>)
    requires
        exists|q: int|
            0 <= q < storage.len() && keccak256_digest((#[trigger] storage[q]).0@) == key,
    ensures
        hashed_slots(storage).contains_key(key),
    decreases storage.len(),
{
    let q = choose|q: int|
        0 <= q < storage.len() && keccak256_digest((#[trigger] storage[q]).0@) == key;
    if q < storage.len() - 1 {
        let rest = storage.drop_last();
        assert(keccak256_digest(rest[q].0@) == key);
        lemma_slot_is_hashed(rest, key);
    }
}

/// What the host was asked and answered for a block that is accepted: it recovered the signers,
/// accepted the block with the receipts and requests that the outputs combine to, built the trie on
/// the state root of the parent, and computed the state root of the header from the post state of the
/// block. What is returned is the hash of the header.
pub proof fn lemma_accepted_block_asked<H: AggregatorHost>(
    input: AggregationInput<EthereumReceipt>,
    host: H,
    r: Result<B256, AggregationValidationError>,
) -> (w: (Vec<EthereumReceipt>, Requests, B256, H::Trie, HashedPostState, B256))
    requires
        aggregation_outcome(input, host, r),
        r is Ok,
    ensures
        input_verdict(input) is Ok,
        call_ensures(
            H::recover_signers,
            (&host, &input.block),
            Ok::<(), StatelessValidationError>(()),
        ),
        call_ensures(
            H::validate_post_execution,
            (&host, &input.block, &w.0, &w.1),
            Ok::<(), String>(()),
        ),
        receipt_views(w.0@) == combined_receipts(
            output_views(input.subblock_outputs@),
            input.subblock_outputs@.len() as int,
        ),
        w.1@ == combined_requests(
            output_views(input.subblock_outputs@),
            input.subblock_outputs@.len() as int,
        ),
        parent_verdict(byte_views(input.witness.headers@)) is Ok,
        w.2 == fixed_bytes::<32>(
            parent_verdict(byte_views(input.witness.headers@))->Ok_0.state_root,
        ),
        call_ensures(
            H::build_trie,
            (&host, &input.witness, w.2),
            Ok::<H::Trie, StatelessValidationError>(w.3),
        ),
        block_post_state(input, w.3, w.4@),
        call_ensures(
            H::calculate_state_root,
            (&host, w.3, w.4),
            Ok::<B256, StatelessValidationError>(w.5),
        ),
        w.5@ == input.block.header@.state_root,
        r->Ok_0 == fixed_bytes::<32>(keccak256_digest(input.block.header@.encoded)),
{
    let recovery = choose|recovery: Result<(), StatelessValidationError>| #[trigger]
        recovered(host, input.block, recovery) && outcome_on_recovery(input, host, recovery, r);
    assert(recovery is Ok);
    assert(recovery->Ok_0 == ());
    let parent = parent_verdict(byte_views(input.witness.headers@))->Ok_0;
    let (rs, qs, validation) = choose|
        rs: Vec<EthereumReceipt>,
        qs: Requests,
        validation: Result<(), String>,
    | #[trigger]
        post_validated(host, input.block, rs, qs, validation) && combined_to(
            output_views(input.subblock_outputs@),
            rs,
            qs,
        ) && outcome_on_validation(input, host, parent, validation, r);
    assert(validation is Ok);
    assert(validation->Ok_0 == ());
    let trie = choose|trie: Result<H::Trie, StatelessValidationError>| #[trigger]
        trie_built(host, input.witness, fixed_bytes(parent.state_root), trie) && outcome_on_trie(
            input,
            host,
            trie,
            r,
        );
    assert(trie is Ok);
    let (state, root, hash) = choose|
        state: HashedPostState,
        root: Result<B256, StatelessValidationError>,
        hash: B256,
    | #[trigger]
        root_calculated(host, trie->Ok_0, state, root) && block_post_state(
            input,
            trie->Ok_0,
            state@,
        ) && #[trigger] has_hash(*input.bal, hash) && r == final_verdict(input.block, root, hash);
    assert(root is Ok);
    (rs, qs, fixed_bytes(parent.state_root), trie->Ok_0, state, root->Ok_0)
}

/// The host or the witness gives `x` as a reason to refuse the block: the signers are not recovered,
/// the parent is not found, the trie is not built, a lookup of the pre-state fails, or the state root
/// is not computed.
pub open spec fn stateless_reason<H: AggregatorHost>(
    input: AggregationInput<EthereumReceipt>,
    host: H,
    x: StatelessValidationError,
) -> bool {
    ||| call_ensures(
        H::recover_signers,
        (&host, &input.block),
        Err::<(), StatelessValidationError>(x),
    )
    ||| parent_verdict(byte_views(input.witness.headers@)) == Err::<
        HeaderView,
        StatelessValidationError,
    >(x)
    ||| exists|root: B256| #[trigger] trie_built(host, input.witness, root, Err(x))
    ||| exists|trie: H::Trie| #[trigger] block_lookup_failure(input, trie, x)
    ||| exists|trie: H::Trie, state: HashedPostState| #[trigger]
        root_calculated(host, trie, state, Err(x)) && block_post_state(input, trie, state@)
}

/// A block is refused for a reason: the checks on outputs and ranges refuse it, the host refuses it or
/// cannot do its work, the witness does not hold the parent, a lookup of the pre-state fails, the
/// state root is another one, or the block access list does not have the hash that the block gives.
#[verifier::spinoff_prover]
#[verifier::rlimit(50)]
pub proof fn lemma_refused_block<H: AggregatorHost>(
    input: AggregationInput<EthereumReceipt>,
    host: H,
    e: AggregationValidationError,
)
    requires
        aggregation_outcome(input, host, Err(e)),
    ensures
        input_verdict(input) matches Err(x) ==> e == x,
        input_verdict(input) is Ok ==> e is StatelessValidation || e is ConsensusValidation
            || e is PostStateRootMismatch || e is BalHashMismatch || e is MissingBalHash,
        input_verdict(input) is Ok && e is StatelessValidation ==> stateless_reason(
            input,
            host,
            e->StatelessValidation_0,
        ),
        input_verdict(input) is Ok && e is ConsensusValidation ==> exists|
            rs: Vec<EthereumReceipt>,
            qs: Requests,
        | #[trigger]
            post_validated(host, input.block, rs, qs, Err(e->ConsensusValidation_0)) && combined_to(
                output_views(input.subblock_outputs@),
                rs,
                qs,
            ),
        input_verdict(input) is Ok && e is PostStateRootMismatch
            ==> e->PostStateRootMismatch_computed@ != input.block.header@.state_root,
        input_verdict(input) is Ok && e is PostStateRootMismatch ==> exists|
            trie: H::Trie,
            state: HashedPostState,
        | #[trigger]
            root_calculated(host, trie, state, Ok(e->PostStateRootMismatch_computed))
                && block_post_state(input, trie, state@),
        input_verdict(input) is Ok && e is BalHashMismatch ==> {
            &&& e->BalHashMismatch_computed@ == bal_list_hash(bal_contents(input.bal.accounts@))
            &&& input.block.block_access_list_hash == Some(e->BalHashMismatch_expected)
            &&& e->BalHashMismatch_computed@ != e->BalHashMismatch_expected@
        },
        input_verdict(input) is Ok && e is MissingBalHash ==> {
            &&& e->MissingBalHash_computed@ == bal_list_hash(bal_contents(input.bal.accounts@))
            &&& input.block.block_access_list_hash is None
            &&& input.block.amsterdam_active
        },
{
    let r = Err::<B256, AggregationValidationError>(e);
    if input_verdict(input) is Ok {
        let recovery = choose|recovery: Result<(), StatelessValidationError>| #[trigger]
            recovered(host, input.block, recovery) && outcome_on_recovery(
                input,
                host,
                recovery,
                r,
            );
        if recovery is Err {
            let x = recovery->Err_0;
            assert(recovered(host, input.block, Err(x)));
        } else if parent_verdict(byte_views(input.witness.headers@)) is Ok {
            let parent = parent_verdict(byte_views(input.witness.headers@))->Ok_0;
            let (rs, qs, validation) = choose|
                rs: Vec<EthereumReceipt>,
                qs: Requests,
                validation: Result<(), String>,
            | #[trigger]
                post_validated(host, input.block, rs, qs, validation) && combined_to(
                    output_views(input.subblock_outputs@),
                    rs,
                    qs,
                ) && outcome_on_validation(input, host, parent, validation, r);
            if validation is Err {
                let message = validation->Err_0;
                assert(post_validated(host, input.block, rs, qs, Err(message)));
                assert(e == AggregationValidationError::ConsensusValidation(message));
                assert(post_validated(
                    host,
                    input.block,
                    rs,
                    qs,
                    Err(e->ConsensusValidation_0),
                ));
                assert(combined_to(output_views(input.subblock_outputs@), rs, qs));
            } else {
                let trie = choose|trie: Result<H::Trie, StatelessValidationError>| #[trigger]
                    trie_built(host, input.witness, fixed_bytes(parent.state_root), trie)
                        && outcome_on_trie(input, host, trie, r);
                if trie is Err {
                    let x = trie->Err_0;
                    assert(trie == Err::<H::Trie, StatelessValidationError>(x));
                    assert(trie_built(
                        host,
                        input.witness,
                        fixed_bytes(parent.state_root),
                        Err(x),
                    ));
                } else {
                    lemma_refused_on_trie(input, host, trie->Ok_0, e);
                }
            }
        }
    }
}

/// Once there is a trie, a block is refused because a lookup fails, or because of its state root or
/// the hash of its block access list.
#[verifier::spinoff_prover]
#[verifier::rlimit(50)]
proof fn lemma_refused_on_trie<H: AggregatorHost>(
    input: AggregationInput<EthereumReceipt>,
    host: H,
    trie: H::Trie,
    e: AggregationValidationError,
)
    requires
        outcome_on_trie(input, host, Ok(trie), Err(e)),
    ensures
        e matches AggregationValidationError::StatelessValidation(x) ==> block_lookup_failure(
            input,
            trie,
            x,
        ) || exists|state: HashedPostState| #[trigger]
            root_calculated(host, trie, state, Err(x)) && block_post_state(input, trie, state@),
        e matches AggregationValidationError::PostStateRootMismatch { computed, .. } ==> computed@
            != input.block.header@.state_root,
        e matches AggregationValidationError::PostStateRootMismatch { computed, .. } ==> exists|
            state: HashedPostState,
        | #[trigger]
            root_calculated(host, trie, state, Ok(computed)) && block_post_state(
                input,
                trie,
                state@,
            ),
        e matches AggregationValidationError::BalHashMismatch { computed, expected } ==> {
            &&& computed@ == bal_list_hash(bal_contents(input.bal.accounts@))
            &&& input.block.block_access_list_hash == Some(expected)
            &&& computed@ != expected@
        },
        e matches AggregationValidationError::MissingBalHash { computed } ==> {
            &&& computed@ == bal_list_hash(bal_contents(input.bal.accounts@))
            &&& input.block.block_access_list_hash is None
            &&& input.block.amsterdam_active
        },
        e is StatelessValidation || e is PostStateRootMismatch || e is BalHashMismatch
            || e is MissingBalHash,
{
    let r = Err::<B256, AggregationValidationError>(e);
    if exists|x: StatelessValidationError| #[trigger]
        block_lookup_failure(input, trie, x) && r == Err::<B256, AggregationValidationError>(
            AggregationValidationError::StatelessValidation(x),
        ) {
        let x = choose|x: StatelessValidationError| #[trigger]
            block_lookup_failure(input, trie, x) && r == Err::<B256, AggregationValidationError>(
                AggregationValidationError::StatelessValidation(x),
            );
        assert(e == AggregationValidationError::StatelessValidation(x));
        assert(block_lookup_failure(input, trie, x));
    } else {
        let (state, root, hash) = choose|
            state: HashedPostState,
            root: Result<B256, StatelessValidationError>,
            hash: B256,
        | #[trigger]
            root_calculated(host, trie, state, root) && block_post_state(input, trie, state@)
                && #[trigger] has_hash(*input.bal, hash) && r == final_verdict(
                input.block,
                root,
                hash,
            );
        match root {
            Ok(computed) => {
                assert(root_calculated(host, trie, state, Ok(computed)));
                assert(block_post_state(input, trie, state@));
                if computed@ != input.block.header@.state_root {
                    assert(e == AggregationValidationError::PostStateRootMismatch {
                        computed,
                        expected: fixed_bytes(input.block.header@.state_root),
                    });
                    assert(root_calculated(
                        host,
                        trie,
                        state,
                        Ok(e->PostStateRootMismatch_computed),
                    ));
                }
            },
            Err(x) => {
                assert(e == AggregationValidationError::StatelessValidation(x));
                assert(root_calculated(host, trie, state, Err(x)));
                assert(block_post_state(input, trie, state@));
            },
        }
    }
}

/// A block must be accepted where the checks on outputs and ranges pass, the witness holds the parent,
/// the block access list has the hash that the block gives for it, and every answer that the host can
/// give on the block, with what the outputs combine to, is in its favour.
pub proof fn lemma_block_must_be_accepted<H: AggregatorHost>(
    input: AggregationInput<EthereumReceipt>,
    host: H,
    r: Result<B256, AggregationValidationError>,
)
    requires
        aggregation_outcome(input, host, r),
        input_verdict(input) is Ok,
        block_accepted(
            input,
            host,
            combined_receipts(
                output_views(input.subblock_outputs@),
                input.subblock_outputs@.len() as int,
            ),
            combined_requests(
                output_views(input.subblock_outputs@),
                input.subblock_outputs@.len() as int,
            ),
        ),
    ensures
        r == Ok::<B256, AggregationValidationError>(
            fixed_bytes(keccak256_digest(input.block.header@.encoded)),
        ),
{
    let outputs = output_views(input.subblock_outputs@);
    let recovery = choose|recovery: Result<(), StatelessValidationError>| #[trigger]
        recovered(host, input.block, recovery) && outcome_on_recovery(input, host, recovery, r);
    let parent = parent_verdict(byte_views(input.witness.headers@))->Ok_0;
    let (rs, qs, validation) = choose|
        rs: Vec<EthereumReceipt>,
        qs: Requests,
        validation: Result<(), String>,
    | #[trigger]
        post_validated(host, input.block, rs, qs, validation) && combined_to(outputs, rs, qs)
            && outcome_on_validation(input, host, parent, validation, r);
    assert(validation is Ok);
    let trie = choose|trie: Result<H::Trie, StatelessValidationError>| #[trigger]
        trie_built(host, input.witness, fixed_bytes(parent.state_root), trie) && outcome_on_trie(
            input,
            host,
            trie,
            r,
        );
    assert(trie is Ok && trie_accepted(input, host, trie->Ok_0));
}

/// The stages of the aggregator come in order: an earlier one that fails decides, whatever the later
/// ones would say.
pub proof fn lemma_aggregator_order<H: AggregatorHost>(
    input: AggregationInput<EthereumReceipt>,
    host: H,
    r: Result<B256, AggregationValidationError>,
)
    requires
        aggregation_outcome(input, host, r),
    ensures
        input_verdict(input) matches Err(x) ==> r == Err::<B256, AggregationValidationError>(x),
        input_verdict(input) is Ok ==> {
            &&& (forall|reply: Result<(), StatelessValidationError>| #[trigger]
                recovered(host, input.block, reply) ==> reply is Err) ==> {
                &&& r matches Err(AggregationValidationError::StatelessValidation(x))
                &&& call_ensures(
                    H::recover_signers,
                    (&host, &input.block),
                    Err::<(), StatelessValidationError>(x),
                )
            }
            &&& (forall|reply: Result<(), StatelessValidationError>| #[trigger]
                recovered(host, input.block, reply) ==> reply is Ok) ==> {
                &&& parent_verdict(byte_views(input.witness.headers@)) matches Err(x) ==> r
                    == Err::<B256, AggregationValidationError>(
                    AggregationValidationError::StatelessValidation(x),
                )
                &&& parent_verdict(byte_views(input.witness.headers@)) is Ok && (forall|
                    rs: Vec<EthereumReceipt>,
                    qs: Requests,
                    reply: Result<(), String>,
                | #[trigger]
                    post_validated(host, input.block, rs, qs, reply) ==> reply is Err) ==> r is Err
                    && r->Err_0 is ConsensusValidation
            }
        },
{
}

} // verus!
