//! Master/aggregator guest program for subblock aggregation.
//!
//! Combines verified subblock outputs and validates the final state root.

use crate::bal::{bal_lookups, has_hash, Bal, ChangesView};
use crate::error::StatelessValidationError;
use crate::header::{byte_views, parent_verdict, witness_ancestors, HeaderView, SealedHeader};
use crate::primitives::{fixed_bytes, lemma_fixed_bytes, Address, Bloom, FixedBytes, B256};
use crate::receipt::{
    accrue_bloom, bloom_union, lemma_union_bits, lemma_zero_bits, receipt_views, zero_bloom,
    EthereumReceipt, ReceiptView,
};
use crate::subblock::bal_state::{
    bal_to_hashed_post_state_with_pre_state, first_failure, post_state_on, HashedPostState,
    PostStateView, PreStateAccountProvider,
};
use crate::subblock::error::AggregationValidationError;
use crate::subblock::host::{
    post_validated, recovered, root_calculated, trie_built, AggregatorHost,
};
use crate::subblock::types::{
    output_views, AggregationInput, Block, OutputView, Requests, SubblockOutput,
};
use std::ops::Range;
use vstd::prelude::*;

verus! {

/// Each range but the first starts where the one before it ends.
pub open spec fn ranges_contiguous(ranges: Seq<Range<u64>>) -> bool {
    forall|i: int| #![trigger ranges[i]] 0 <= i < ranges.len() - 1 ==> ranges[i].end == ranges[i + 1].start
}

/// The ranges lead from index 0 without a gap to the end of the full range `[0, tx_count + 2)`.
pub open spec fn ranges_complete(ranges: Seq<Range<u64>>, tx_count: int) -> bool {
    &&& ranges.len() > 0
    &&& ranges[0].start == 0
    &&& ranges_contiguous(ranges)
    &&& ranges.last().end == tx_count + 2
}

/// The first range that does not end where the next one starts.
pub open spec fn first_gap(ranges: Seq<Range<u64>>) -> Option<int>
    decreases ranges.len(),
{
    if ranges.len() < 2 {
        None
    } else {
        match first_gap(ranges.drop_last()) {
            Some(i) => Some(i),
            None => if ranges[ranges.len() - 2].end != ranges.last().start {
                Some(ranges.len() - 2)
            } else {
                None
            },
        }
    }
}

/// How many of the block's transactions ranges cover that end before BAL index `end`.
pub open spec fn covered_txs(end: u64, tx_count: usize) -> usize {
    let covered = (if end == 0 {
        0u64
    } else {
        (end - 1) as u64
    }) as usize;
    if covered < tx_count {
        covered
    } else {
        tx_count
    }
}

/// What [`verify_bal_ranges_complete`] returns.
pub open spec fn ranges_verdict(ranges: Seq<Range<u64>>, tx_count: usize) -> Result<
    (),
    AggregationValidationError,
> {
    if ranges.len() == 0 {
        Err(AggregationValidationError::IncompleteRanges { covered: 0, tx_count })
    } else if ranges[0].start != 0 {
        Err(
            AggregationValidationError::RangesNotStartingAtZero { start: ranges[0].start as usize },
        )
    } else if first_gap(ranges) is Some {
        let i = first_gap(ranges)->0;
        Err(
            AggregationValidationError::NonContiguousRanges {
                index: i as usize,
                end: ranges[i].end as usize,
                next_index: (i + 1) as usize,
                start: ranges[i + 1].start as usize,
            },
        )
    } else if ranges.last().end != tx_count + 2 {
        Err(
            AggregationValidationError::IncompleteRanges {
                covered: covered_txs(ranges.last().end, tx_count),
                tx_count,
            },
        )
    } else {
        Ok(())
    }
}

/// A first gap is a gap with none before it, and where there is none the ranges are contiguous.
proof fn lemma_first_gap(ranges: Seq<Range<u64>>)
    ensures
        first_gap(ranges) matches Some(i) ==> {
            &&& 0 <= i < ranges.len() - 1
            &&& ranges[i].end != ranges[i + 1].start
        },
        first_gap(ranges) is None <==> ranges_contiguous(ranges),
    decreases ranges.len(),
{
    if ranges.len() >= 2 {
        let rest = ranges.drop_last();
        lemma_first_gap(rest);
        if first_gap(rest) is None {
            let n = ranges.len();
            assert forall|i: int| #![trigger ranges[i]] 0 <= i < n - 2 implies ranges[i].end
                == ranges[i + 1].start by {
                assert(rest[i].end == rest[i + 1].start);
            }
            if first_gap(ranges) is Some {
                assert(ranges[n - 2].end != ranges[n - 2 + 1].start);
            }
        } else {
            let i = first_gap(rest)->0;
            assert(ranges[i].end != ranges[i + 1].start);
        }
    }
}

/// The ranges are accepted exactly if they are complete.
pub proof fn lemma_ranges_verdict(ranges: Seq<Range<u64>>, tx_count: usize)
    ensures
        ranges_verdict(ranges, tx_count) is Ok <==> ranges_complete(ranges, tx_count as int),
{
    lemma_first_gap(ranges);
}

/// Verifies that BAL ranges are complete and contiguous.
///
/// BAL index semantics per EIP-7928:
/// - Index 0 = pre-execution system calls
/// - Index 1..n = transactions (tx i-1 at index i)
/// - Index n+1 = post-execution (withdrawals)
///
/// For a complete block, ranges must cover `[0, tx_count + 2)`.
pub fn verify_bal_ranges_complete(bal_ranges: &[Range<u64>], tx_count: usize) -> (r: Result<
    (),
    AggregationValidationError,
>)
    requires
        tx_count + 2 <= usize::MAX,
    ensures
        r == ranges_verdict(bal_ranges@, tx_count),
        r is Ok <==> ranges_complete(bal_ranges@, tx_count as int),
{
    let max_bal_index: u64 = (tx_count + 2) as u64;
    proof {
        lemma_first_gap(bal_ranges@);
        lemma_ranges_verdict(bal_ranges@, tx_count);
    }
    if bal_ranges.len() == 0 {
        return Err(AggregationValidationError::IncompleteRanges { covered: 0, tx_count });
    }
    // The first range must start at 0 (pre-execution).
    if bal_ranges[0].start != 0 {
        return Err(
            AggregationValidationError::RangesNotStartingAtZero {
                start: bal_ranges[0].start as usize,
            },
        );
    }
    let mut i: usize = 0;
    proof {
        assert(bal_ranges@.take(1).len() < 2);
    }
    while i < bal_ranges.len() - 1
        invariant
            i < bal_ranges.len(),
            first_gap(bal_ranges@.take(i + 1)) is None,
            bal_ranges@[0].start == 0,
            bal_ranges@.len() > 0,
        decreases bal_ranges.len() - i,
    {
        proof {
            let t = bal_ranges@.take(i + 2);
            assert(t.drop_last() =~= bal_ranges@.take(i + 1));
            assert(t[t.len() - 2] == bal_ranges@[i as int]);
            assert(t.last() == bal_ranges@[i + 1]);
        }
        if bal_ranges[i].end != bal_ranges[i + 1].start {
            proof {
                lemma_first_gap_prefix(bal_ranges@, i + 2);
            }
            return Err(
                AggregationValidationError::NonContiguousRanges {
                    index: i,
                    end: bal_ranges[i].end as usize,
                    next_index: i + 1,
                    start: bal_ranges[i + 1].start as usize,
                },
            );
        }
        i += 1;
    }
    proof {
        assert(bal_ranges@.take(i + 1) =~= bal_ranges@);
    }
    // The last range must end at the end of the full range (post-execution).
    let last_end: u64 = bal_ranges[bal_ranges.len() - 1].end;
    if last_end != max_bal_index {
        // Reported in terms of transactions.
        let covered: usize = (if last_end == 0 {
            0
        } else {
            last_end - 1
        }) as usize;
        return Err(
            AggregationValidationError::IncompleteRanges {
                covered: if covered < tx_count {
                    covered
                } else {
                    tx_count
                },
                tx_count,
            },
        );
    }
    Ok(())
}

/// A gap among the first ranges is the first gap of all.
proof fn lemma_first_gap_prefix(ranges: Seq<Range<u64>>, n: int)
    requires
        0 <= n <= ranges.len(),
        first_gap(ranges.take(n)) is Some,
    ensures
        first_gap(ranges) == first_gap(ranges.take(n)),
    decreases ranges.len() - n,
{
    if n == ranges.len() {
        assert(ranges.take(n) =~= ranges);
    } else {
        let t = ranges.take(n + 1);
        assert(t.drop_last() =~= ranges.take(n));
        lemma_first_gap_prefix(ranges, n + 1);
    }
}

/// A range that can hold transactions: neither empty nor the pre-execution index alone.
pub open spec fn has_txs(range: Range<u64>) -> bool {
    range.start < range.end && (range.start > 0 || range.end > 1)
}

/// The cumulative gas never falls from one receipt to a later one.
pub open spec fn gas_ascends(receipts: Seq<ReceiptView>) -> bool {
    forall|i: int, j: int|
        0 <= i <= j < receipts.len() ==> (#[trigger] receipts[i]).cumulative_gas_used <= (
        #[trigger] receipts[j]).cumulative_gas_used
}

/// The first receipt whose cumulative gas is below that of the receipt before it.
pub open spec fn first_fall(receipts: Seq<ReceiptView>) -> Option<int>
    decreases receipts.len(),
{
    if receipts.len() < 2 {
        None
    } else {
        match first_fall(receipts.drop_last()) {
            Some(i) => Some(i),
            None => if receipts.last().cumulative_gas_used < receipts[receipts.len()
                - 2].cumulative_gas_used {
                Some(receipts.len() - 1)
            } else {
                None
            },
        }
    }
}

/// The gas of the subblock at `i` does not chain: its range holds transactions, and the cumulative
/// gas of its receipts falls somewhere.
pub open spec fn gas_broken(
    outputs: Seq<OutputView>,
    ranges: Seq<Range<u64>>,
    i: int,
) -> bool {
    i < ranges.len() && has_txs(ranges[i]) && first_fall(outputs[i].receipts) is Some
}

/// What [`verify_gas_chaining`] returns: the first subblock whose gas does not chain.
pub open spec fn gas_verdict(outputs: Seq<OutputView>, ranges: Seq<Range<u64>>) -> Result<
    (),
    AggregationValidationError,
>
    decreases outputs.len(),
{
    if outputs.len() == 0 {
        Ok(())
    } else {
        match gas_verdict(outputs.drop_last(), ranges) {
            Err(e) => Err(e),
            Ok(_) => {
                let i = outputs.len() - 1;
                if gas_broken(outputs, ranges, i) {
                    let j = first_fall(outputs[i].receipts)->0;
                    Err(
                        AggregationValidationError::GasChainingMismatch {
                            index: i as usize,
                            expected: outputs[i].receipts[j - 1].cumulative_gas_used as u64,
                            next_index: i as usize,
                        },
                    )
                } else {
                    Ok(())
                }
            },
        }
    }
}

proof fn lemma_first_fall(receipts: Seq<ReceiptView>)
    ensures
        first_fall(receipts) matches Some(j) ==> {
            &&& 0 < j < receipts.len()
            &&& receipts[j].cumulative_gas_used < receipts[j - 1].cumulative_gas_used
        },
        first_fall(receipts) is None <==> gas_ascends(receipts),
    decreases receipts.len(),
{
    if receipts.len() >= 2 {
        let rest = receipts.drop_last();
        let n = receipts.len();
        lemma_first_fall(rest);
        if first_fall(rest) is None {
            if first_fall(receipts) is None {
                assert forall|i: int, j: int| 0 <= i <= j < n implies (
                #[trigger] receipts[i]).cumulative_gas_used <= (
                #[trigger] receipts[j]).cumulative_gas_used by {
                    if j < n - 1 {
                        assert(rest[i].cumulative_gas_used <= rest[j].cumulative_gas_used);
                    } else if i < n - 1 {
                        assert(rest[i].cumulative_gas_used <= rest[n - 2].cumulative_gas_used);
                    }
                }
            } else {
                assert(receipts[n - 1].cumulative_gas_used < receipts[n
                    - 2].cumulative_gas_used);
            }
        } else {
            let j = first_fall(rest)->0;
            assert(receipts[j].cumulative_gas_used < receipts[j - 1].cumulative_gas_used);
        }
    }
}

proof fn lemma_first_fall_prefix(receipts: Seq<ReceiptView>, n: int)
    requires
        0 <= n <= receipts.len(),
        first_fall(receipts.take(n)) is Some,
    ensures
        first_fall(receipts) == first_fall(receipts.take(n)),
    decreases receipts.len() - n,
{
    if n == receipts.len() {
        assert(receipts.take(n) =~= receipts);
    } else {
        let t = receipts.take(n + 1);
        assert(t.drop_last() =~= receipts.take(n));
        lemma_first_fall_prefix(receipts, n + 1);
    }
}

/// A refusal among the first subblocks is the refusal of all.
proof fn lemma_gas_verdict_prefix(outputs: Seq<OutputView>, ranges: Seq<Range<u64>>, n: int)
    requires
        0 <= n <= outputs.len(),
        gas_verdict(outputs.take(n), ranges) is Err,
    ensures
        gas_verdict(outputs, ranges) == gas_verdict(outputs.take(n), ranges),
    decreases outputs.len() - n,
{
    if n == outputs.len() {
        assert(outputs.take(n) =~= outputs);
    } else {
        let t = outputs.take(n + 1);
        assert(t.drop_last() =~= outputs.take(n));
        lemma_gas_verdict_prefix(outputs, ranges, n + 1);
    }
}

/// The gas of all subblocks chains exactly if that of each does.
pub proof fn lemma_gas_verdict(outputs: Seq<OutputView>, ranges: Seq<Range<u64>>)
    ensures
        gas_verdict(outputs, ranges) is Ok <==> forall|i: int|
            0 <= i < outputs.len() && i < ranges.len() && has_txs(ranges[i]) ==> gas_ascends(
                #[trigger] outputs[i].receipts,
            ),
    decreases outputs.len(),
{
    if outputs.len() > 0 {
        let rest = outputs.drop_last();
        let n = outputs.len() - 1;
        lemma_gas_verdict(rest, ranges);
        lemma_first_fall(outputs[n].receipts);
        if gas_verdict(outputs, ranges) is Ok {
            assert forall|i: int|
                0 <= i < outputs.len() && i < ranges.len() && has_txs(
                    ranges[i],
                ) implies gas_ascends(#[trigger] outputs[i].receipts) by {
                if i < n {
                    assert(rest[i] == outputs[i]);
                }
            }
        } else if gas_verdict(rest, ranges) is Err {
            let i = choose|i: int|
                0 <= i < rest.len() && i < ranges.len() && has_txs(ranges[i]) && !gas_ascends(
                    #[trigger] rest[i].receipts,
                );
            assert(rest[i] == outputs[i]);
        }
    }
}

/// The first receipt whose cumulative gas is below that of the receipt before it.
fn find_fall(receipts: &[EthereumReceipt]) -> (r: Option<usize>)
    ensures
        match r {
            Some(j) => first_fall(receipt_views(receipts@)) == Some(j as int),
            None => first_fall(receipt_views(receipts@)) is None,
        },
{
    let ghost views = receipt_views(receipts@);
    let mut j: usize = 1;
    proof {
        if views.len() >= 1 {
            assert(views.take(1).len() < 2);
        }
    }
    while j < receipts.len()
        invariant
            1 <= j,
            views == receipt_views(receipts@),
            j <= receipts.len() ==> first_fall(views.take(j as int)) is None,
            receipts.len() >= 1 ==> j <= receipts.len(),
        decreases receipts.len() - j,
    {
        proof {
            let t = views.take(j + 1);
            assert(t.drop_last() =~= views.take(j as int));
            assert(t[t.len() - 2] == receipts@[j - 1]@);
            assert(t.last() == receipts@[j as int]@);
        }
        if receipts[j].cumulative_gas_used < receipts[j - 1].cumulative_gas_used {
            proof {
                lemma_first_fall_prefix(views, j + 1);
            }
            return Some(j);
        }
        j += 1;
    }
    proof {
        if views.len() >= 1 {
            assert(views.take(j as int) =~= views);
        }
    }
    None
}

/// Verifies the gas values of each subblock.
///
/// Each subblock counts its gas from 0; the values are put in sequence by
/// [`combine_subblock_outputs`]. Within a subblock whose range holds transactions, the cumulative
/// gas of the receipts must not fall.
pub fn verify_gas_chaining(
    outputs: &[SubblockOutput<EthereumReceipt>],
    bal_ranges: &[Range<u64>],
) -> (r: Result<(), AggregationValidationError>)
    ensures
        r == gas_verdict(output_views(outputs@), bal_ranges@),
        r is Ok <==> forall|i: int|
            0 <= i < outputs@.len() && i < bal_ranges@.len() && has_txs(bal_ranges@[i])
                ==> gas_ascends(#[trigger] outputs@[i]@.receipts),
{
    let ghost views = output_views(outputs@);
    proof {
        lemma_gas_verdict(views, bal_ranges@);
        assert forall|i: int| 0 <= i < outputs@.len() implies (#[trigger] views[i]).receipts
            == outputs@[i]@.receipts by {}
        if forall|i: int|
            0 <= i < outputs@.len() && i < bal_ranges@.len() && has_txs(bal_ranges@[i])
                ==> gas_ascends(#[trigger] outputs@[i]@.receipts) {
            assert forall|i: int|
                0 <= i < views.len() && i < bal_ranges@.len() && has_txs(
                    bal_ranges@[i],
                ) implies gas_ascends(#[trigger] views[i].receipts) by {
                assert(gas_ascends(outputs@[i]@.receipts));
            }
        }
        if gas_verdict(views, bal_ranges@) is Ok {
            assert forall|i: int|
                0 <= i < outputs@.len() && i < bal_ranges@.len() && has_txs(
                    bal_ranges@[i],
                ) implies gas_ascends(#[trigger] outputs@[i]@.receipts) by {
                assert(gas_ascends(views[i].receipts));
            }
        }
        assert(views.take(0) =~= Seq::empty());
    }
    let mut i: usize = 0;
    while i < outputs.len()
        invariant
            i <= outputs.len(),
            views == output_views(outputs@),
            gas_verdict(views.take(i as int), bal_ranges@) is Ok,
        decreases outputs.len() - i,
    {
        let output = &outputs[i];
        proof {
            let t = views.take(i + 1);
            assert(t.drop_last() =~= views.take(i as int));
            assert(t[i as int] == output@);
        }
        if i < bal_ranges.len() {
            let range = &bal_ranges[i];
            if range.start < range.end && (range.start > 0 || range.end > 1) {
                let fall: Option<usize> = find_fall(output.receipts.as_slice());
                proof {
                    lemma_first_fall(output@.receipts);
                }
                if let Some(j) = fall {
                    proof {
                        lemma_gas_verdict_prefix(views, bal_ranges@, i + 1);
                        assert(output@.receipts[j - 1] == output.receipts@[j - 1]@);
                    }
                    return Err(
                        AggregationValidationError::GasChainingMismatch {
                            index: i,
                            expected: output.receipts[j - 1].cumulative_gas_used,
                            next_index: i,
                        },
                    );
                }
            }
        }
        i += 1;
    }
    proof {
        assert(views.take(i as int) =~= views);
    }
    Ok(())
}

/// The gas that the first `n` subblocks used together: what is added to the cumulative gas of the
/// receipts of subblock `n`.
pub open spec fn gas_offset(outputs: Seq<OutputView>, n: int) -> int
    decreases n,
{
    if n <= 0 {
        0
    } else {
        gas_offset(outputs, n - 1) + outputs[n - 1].cumulative_gas_used
    }
}

/// The receipts with their cumulative gas moved by `by`.
pub open spec fn shift_receipts(receipts: Seq<ReceiptView>, by: int) -> Seq<ReceiptView> {
    receipts.map_values(|r: ReceiptView| r.shifted(by))
}

/// The receipts of the first `n` subblocks in sequence, with the gas counted from the start of the
/// block.
pub open spec fn combined_receipts(outputs: Seq<OutputView>, n: int) -> Seq<ReceiptView>
    decreases n,
{
    if n <= 0 {
        Seq::empty()
    } else {
        combined_receipts(outputs, n - 1) + shift_receipts(
            outputs[n - 1].receipts,
            gas_offset(outputs, n - 1),
        )
    }
}

/// The union of the blooms of the first `n` subblocks.
pub open spec fn combined_bloom(outputs: Seq<OutputView>, n: int) -> Seq<u8>
    decreases n,
{
    if n <= 0 {
        zero_bloom()
    } else {
        bloom_union(combined_bloom(outputs, n - 1), outputs[n - 1].logs_bloom)
    }
}

/// The requests of the last of the first `n` subblocks that has any.
pub open spec fn combined_requests(outputs: Seq<OutputView>, n: int) -> Seq<Seq<u8>>
    decreases n,
{
    if n <= 0 {
        Seq::empty()
    } else if outputs[n - 1].requests.len() > 0 {
        outputs[n - 1].requests
    } else {
        combined_requests(outputs, n - 1)
    }
}

/// Every cumulative gas value of the whole block is a `u64`.
pub open spec fn gas_fits(outputs: Seq<OutputView>) -> bool {
    forall|i: int|
        0 <= i < outputs.len() ==> {
            &&& #[trigger] gas_offset(outputs, i) + outputs[i].cumulative_gas_used <= u64::MAX
            &&& forall|j: int|
                0 <= j < outputs[i].receipts.len() ==> gas_offset(outputs, i) + (
                #[trigger] outputs[i].receipts[j]).cumulative_gas_used <= u64::MAX
        }
}

/// Combines subblock outputs into final aggregated values.
///
/// Adjusts cumulative gas in receipts so they reflect the position in the block rather than the
/// position in the subblock.
pub fn combine_subblock_outputs(outputs: &[SubblockOutput<EthereumReceipt>]) -> (r: (
    Vec<EthereumReceipt>,
    Bloom,
    Requests,
))
    requires
        gas_fits(output_views(outputs@)),
    ensures
        receipt_views(r.0@) == combined_receipts(output_views(outputs@), outputs@.len() as int),
        r.1@ == combined_bloom(output_views(outputs@), outputs@.len() as int),
        r.2@ == combined_requests(output_views(outputs@), outputs@.len() as int),
{
    let ghost views = output_views(outputs@);
    let mut receipts: Vec<EthereumReceipt> = Vec::new();
    let mut bloom: Bloom = FixedBytes::zero();
    let mut requests: Requests = Requests::empty();
    let mut offset: u64 = 0;
    let mut i: usize = 0;
    proof {
        assert(receipt_views(receipts@) =~= Seq::empty());
    }
    while i < outputs.len()
        invariant
            i <= outputs.len(),
            views == output_views(outputs@),
            gas_fits(views),
            offset == gas_offset(views, i as int),
            receipt_views(receipts@) == combined_receipts(views, i as int),
            bloom@ == combined_bloom(views, i as int),
            requests@ == combined_requests(views, i as int),
        decreases outputs.len() - i,
    {
        let output = &outputs[i];
        let ghost before = receipt_views(receipts@);
        let ghost own = output@.receipts;
        proof {
            assert(views[i as int] == output@);
            assert(gas_offset(views, i as int) + views[i as int].cumulative_gas_used <= u64::MAX);
        }
        let mut j: usize = 0;
        proof {
            assert(before + shift_receipts(own, offset as int).take(0) =~= before);
        }
        while j < output.receipts.len()
            invariant
                j <= output.receipts.len(),
                0 <= i < outputs.len(),
                views == output_views(outputs@),
                views[i as int] == output@,
                gas_fits(views),
                offset == gas_offset(views, i as int),
                own == output@.receipts,
                receipt_views(receipts@) == before + shift_receipts(own, offset as int).take(
                    j as int,
                ),
            decreases output.receipts.len() - j,
        {
            let mut adjusted: EthereumReceipt = output.receipts[j].clone();
            proof {
                assert(gas_offset(views, i as int) + views[i as int].cumulative_gas_used
                    <= u64::MAX);
                assert(views[i as int].receipts[j as int] == output.receipts@[j as int]@);
                assert(views[i as int].receipts[j as int].cumulative_gas_used
                    == output.receipts@[j as int].cumulative_gas_used);
                assert(adjusted@.cumulative_gas_used == adjusted.cumulative_gas_used);
            }
            let ghost copied = adjusted@;
            adjusted.cumulative_gas_used = adjusted.cumulative_gas_used + offset;
            proof {
                assert(adjusted@ =~= copied.shifted(offset as int));
                let all = shift_receipts(own, offset as int);
                assert(all.take(j + 1) =~= all.take(j as int).push(all[j as int]));
                assert(receipt_views(receipts@.push(adjusted)) =~= receipt_views(receipts@).push(
                    adjusted@,
                ));
                assert(before + all.take(j + 1) =~= (before + all.take(j as int)).push(
                    all[j as int],
                ));
            }
            receipts.push(adjusted);
            j += 1;
        }
        proof {
            assert(shift_receipts(own, offset as int).take(j as int) =~= shift_receipts(
                own,
                offset as int,
            ));
        }
        offset = offset + output.cumulative_gas_used;
        accrue_bloom(&mut bloom, &output.logs_bloom);
        // Only the last subblock should have requests.
        if !output.requests.is_empty() {
            requests = output.requests.clone();
        }
        i += 1;
    }
    (receipts, bloom, requests)
}

/// Whether every cumulative gas value of the whole block is a `u64`, as
/// [`combine_subblock_outputs`] asks.
pub fn gas_values_fit(outputs: &[SubblockOutput<EthereumReceipt>]) -> (r: bool)
    ensures
        r == gas_fits(output_views(outputs@)),
{
    let ghost views = output_views(outputs@);
    let mut offset: u64 = 0;
    let mut i: usize = 0;
    while i < outputs.len()
        invariant
            i <= outputs.len(),
            views == output_views(outputs@),
            offset == gas_offset(views, i as int),
            forall|k: int|
                0 <= k < i ==> {
                    &&& #[trigger] gas_offset(views, k) + views[k].cumulative_gas_used <= u64::MAX
                    &&& forall|j: int|
                        0 <= j < views[k].receipts.len() ==> gas_offset(views, k) + (
                        #[trigger] views[k].receipts[j]).cumulative_gas_used <= u64::MAX
                },
        decreases outputs.len() - i,
    {
        let output = &outputs[i];
        assert(views[i as int] == output@);
        if output.cumulative_gas_used > u64::MAX - offset {
            assert(gas_offset(views, i as int) + views[i as int].cumulative_gas_used > u64::MAX);
            return false;
        }
        let mut j: usize = 0;
        while j < output.receipts.len()
            invariant
                j <= output.receipts.len(),
                0 <= i < outputs.len(),
                views == output_views(outputs@),
                views[i as int] == output@,
                offset == gas_offset(views, i as int),
                forall|l: int|
                    0 <= l < j ==> gas_offset(views, i as int) + (
                    #[trigger] views[i as int].receipts[l]).cumulative_gas_used <= u64::MAX,
            decreases output.receipts.len() - j,
        {
            assert(views[i as int].receipts[j as int] == output.receipts@[j as int]@);
            if output.receipts[j].cumulative_gas_used > u64::MAX - offset {
                assert(gas_offset(views, i as int)
                    + views[i as int].receipts[j as int].cumulative_gas_used > u64::MAX);
                return false;
            }
            j += 1;
        }
        offset = offset + output.cumulative_gas_used;
        i += 1;
    }
    true
}

/// What the checks on outputs and ranges say, before anything else is looked at.
pub open spec fn opening_verdict(
    outputs: Seq<OutputView>,
    ranges: Seq<Range<u64>>,
    tx_count: usize,
) -> Result<(), AggregationValidationError> {
    if outputs.len() == 0 {
        Err(AggregationValidationError::NoSubblockOutputs)
    } else if outputs.len() != ranges.len() {
        Err(
            AggregationValidationError::MismatchedOutputsAndRanges {
                outputs: outputs.len() as usize,
                ranges: ranges.len() as usize,
            },
        )
    } else {
        match ranges_verdict(ranges, tx_count) {
            Err(e) => Err(e),
            Ok(_) => gas_verdict(outputs, ranges),
        }
    }
}

/// An aggregation whose outputs and ranges fit together.
///
/// The signers of the block are to be recovered next.
#[derive(Debug)]
pub struct CheckedAggregation {
    /// The input.
    pub input: AggregationInput<EthereumReceipt>,
}

/// An aggregation whose outputs are combined.
///
/// The block is to be validated next, as it is after its execution, with these receipts and
/// requests.
#[derive(Debug)]
pub struct CombinedAggregation {
    /// The input.
    pub input: AggregationInput<EthereumReceipt>,
    /// The parent of the block.
    pub parent: SealedHeader,
    /// The receipts of the block.
    pub receipts: Vec<EthereumReceipt>,
    /// The logs bloom of the block. Nothing compares it: the validation that comes next is given
    /// the receipts and the requests only.
    pub logs_bloom: Bloom,
    /// The requests of the block.
    pub requests: Requests,
}

/// An aggregation whose block passed the validation that follows an execution.
///
/// The trie of the witness is to be built next, on the state root of the parent; it gives the
/// pre-state of accounts, and then the state root of the post state.
#[derive(Debug)]
pub struct ValidatedAggregation {
    /// The input.
    pub input: AggregationInput<EthereumReceipt>,
    /// The parent of the block.
    pub parent: SealedHeader,
}

/// Checks that outputs and ranges fit together, that the ranges cover the block, and that the gas
/// of each subblock chains.
pub fn check_aggregation(input: AggregationInput<EthereumReceipt>) -> (r: Result<
    CheckedAggregation,
    AggregationValidationError,
>)
    requires
        input.block.transactions@.len() + 2 <= usize::MAX,
    ensures
        match opening_verdict(
            output_views(input.subblock_outputs@),
            input.bal_ranges@,
            input.block.transactions@.len() as usize,
        ) {
            Ok(_) => r == Ok::<CheckedAggregation, AggregationValidationError>(
                CheckedAggregation { input },
            ),
            Err(e) => r == Err::<CheckedAggregation, AggregationValidationError>(e),
        },
{
    if input.subblock_outputs.len() == 0 {
        return Err(AggregationValidationError::NoSubblockOutputs);
    }
    if input.subblock_outputs.len() != input.bal_ranges.len() {
        return Err(
            AggregationValidationError::MismatchedOutputsAndRanges {
                outputs: input.subblock_outputs.len(),
                ranges: input.bal_ranges.len(),
            },
        );
    }
    let tx_count: usize = input.block.transactions.len();
    match verify_bal_ranges_complete(input.bal_ranges.as_slice(), tx_count) {
        Ok(_) => {},
        Err(e) => {
            return Err(e);
        },
    }
    match verify_gas_chaining(input.subblock_outputs.as_slice(), input.bal_ranges.as_slice()) {
        Ok(_) => {},
        Err(e) => {
            return Err(e);
        },
    }
    Ok(CheckedAggregation { input })
}

impl CheckedAggregation {
    /// Finds the parent of the block in the witness and combines the subblock outputs, once the
    /// signers of the block were recovered; `recovery` tells whether they were.
    pub fn combine(self, recovery: Result<(), StatelessValidationError>) -> (r: Result<
        CombinedAggregation,
        AggregationValidationError,
    >)
        requires
            recovery is Ok && parent_verdict(byte_views(self.input.witness.headers@)) is Ok
                ==> gas_fits(output_views(self.input.subblock_outputs@)),
        ensures
            recovery matches Err(e) ==> r == Err::<CombinedAggregation, AggregationValidationError>(
                AggregationValidationError::StatelessValidation(e),
            ),
            recovery is Ok ==> match parent_verdict(byte_views(self.input.witness.headers@)) {
                Err(e) => r == Err::<CombinedAggregation, AggregationValidationError>(
                    AggregationValidationError::StatelessValidation(e),
                ),
                Ok(parent) => {
                    let outputs = output_views(self.input.subblock_outputs@);
                    let n = outputs.len() as int;
                    &&& r is Ok
                    &&& r->Ok_0.input == self.input
                    &&& r->Ok_0.parent.header@ == parent
                    &&& r->Ok_0.parent.hash@ == parent.hash()
                    &&& receipt_views(r->Ok_0.receipts@) == combined_receipts(outputs, n)
                    &&& r->Ok_0.logs_bloom@ == combined_bloom(outputs, n)
                    &&& r->Ok_0.requests@ == combined_requests(outputs, n)
                },
            },
    {
        match recovery {
            Ok(_) => {},
            Err(e) => {
                return Err(AggregationValidationError::StatelessValidation(e));
            },
        }
        let mut ancestors: Vec<SealedHeader> = match witness_ancestors(
            &self.input.witness.headers,
        ) {
            Ok(ancestors) => ancestors,
            Err(e) => {
                return Err(AggregationValidationError::StatelessValidation(e));
            },
        };
        let ghost all = ancestors@;
        match ancestors.pop() {
            Some(parent) => {
                assert(parent == all[all.len() - 1]);
                let (receipts, logs_bloom, requests) = combine_subblock_outputs(
                    self.input.subblock_outputs.as_slice(),
                );
                Ok(
                    CombinedAggregation {
                        input: self.input,
                        parent,
                        receipts,
                        logs_bloom,
                        requests,
                    },
                )
            },
            None => Err(
                AggregationValidationError::StatelessValidation(
                    StatelessValidationError::MissingAncestorHeader,
                ),
            ),
        }
    }
}

impl CombinedAggregation {
    /// Takes the outcome of the validation that follows an execution.
    pub fn validated(self, validation: Result<(), String>) -> (r: Result<
        ValidatedAggregation,
        AggregationValidationError,
    >)
        ensures
            r == match validation {
                Ok(_) => Ok::<ValidatedAggregation, AggregationValidationError>(
                    ValidatedAggregation { input: self.input, parent: self.parent },
                ),
                Err(e) => Err::<ValidatedAggregation, AggregationValidationError>(
                    AggregationValidationError::ConsensusValidation(e),
                ),
            },
    {
        match validation {
            Ok(_) => Ok(ValidatedAggregation { input: self.input, parent: self.parent }),
            Err(e) => Err(AggregationValidationError::ConsensusValidation(e)),
        }
    }
}

/// The BAL index from which all writes of a block are seen: index `tx_count + 1` holds the last of
/// them.
pub open spec fn final_bal_index(tx_count: int) -> int {
    tx_count + 2
}

/// `state` is the post state of the block, with the pre-state of accounts from `trie`.
pub open spec fn block_post_state<P: PreStateAccountProvider<Error = StatelessValidationError>>(
    input: AggregationInput<EthereumReceipt>,
    trie: P,
    state: PostStateView,
) -> bool {
    exists|changes: Seq<(Address, ChangesView)>| #[trigger]
        bal_lookups(
            input.bal.accounts@,
            final_bal_index(input.block.transactions@.len() as int) as u64,
            changes,
        ) && post_state_on(trie, changes, state)
}

/// `e` is the error of the first lookup that fails while the post state of the block is built.
pub open spec fn block_lookup_failure<
    P: PreStateAccountProvider<Error = StatelessValidationError>,
>(input: AggregationInput<EthereumReceipt>, trie: P, e: StatelessValidationError) -> bool {
    exists|changes: Seq<(Address, ChangesView)>| #[trigger]
        bal_lookups(
            input.bal.accounts@,
            final_bal_index(input.block.transactions@.len() as int) as u64,
            changes,
        ) && first_failure(trie, changes, e)
}

impl ValidatedAggregation {
    /// Converts the block access list to the post state of the block. `trie` is the trie of the
    /// witness, which gives the pre-state of accounts.
    pub fn post_state<P: PreStateAccountProvider<Error = StatelessValidationError>>(
        &self,
        trie: &P,
    ) -> (r: Result<HashedPostState, AggregationValidationError>)
        requires
            self.input.block.transactions@.len() + 2 <= usize::MAX,
        ensures
            match r {
                Ok(state) => block_post_state(self.input, *trie, state@),
                Err(e) => {
                    &&& e is StatelessValidation
                    &&& block_lookup_failure(self.input, *trie, e->StatelessValidation_0)
                },
            },
    {
        let bal_index: u64 = (self.input.block.transactions.len() + 2) as u64;
        let bal: &Bal = &self.input.bal;
        assert(bal_index == final_bal_index(self.input.block.transactions@.len() as int) as u64);
        match bal_to_hashed_post_state_with_pre_state(bal, bal_index, trie) {
            Ok(state) => Ok(state),
            Err(e) => Err(AggregationValidationError::StatelessValidation(e)),
        }
    }

    /// Compares the state root of the post state, and then the hash of the block access list, with
    /// those of the block. Returns the block hash.
    pub fn finish(&self, state_root: Result<B256, StatelessValidationError>) -> (r: Result<
        B256,
        AggregationValidationError,
    >)
        ensures
            exists|bal_hash: B256| #[trigger]
                has_hash(*self.input.bal, bal_hash) && r == final_verdict(
                    self.input.block,
                    state_root,
                    bal_hash,
                ),
            r matches Ok(hash) ==> hash@ == self.input.block.header@.hash(),
    {
        let bal_hash: B256 = self.input.bal.hash();
        assert(has_hash(*self.input.bal, bal_hash));
        let computed: B256 = match state_root {
            Ok(computed) => computed,
            Err(e) => {
                return Err(AggregationValidationError::StatelessValidation(e));
            },
        };
        let expected: B256 = self.input.block.header.state_root();
        proof {
            lemma_fixed_bytes(expected);
        }
        if computed != expected {
            return Err(AggregationValidationError::PostStateRootMismatch { computed, expected });
        }
        match verify_bal_hash(
            bal_hash,
            self.input.block.block_access_list_hash,
            self.input.block.amsterdam_active,
        ) {
            Ok(_) => {},
            Err(e) => {
                return Err(e);
            },
        }
        let hash: B256 = self.input.block.header.hash_slow();
        proof {
            lemma_fixed_bytes(hash);
        }
        Ok(hash)
    }
}

/// What the comparison of the block access list with the hash that the block gives for it says. A
/// block may give none only where Amsterdam is not active.
pub open spec fn bal_hash_verdict(
    computed: B256,
    expected: Option<B256>,
    amsterdam_active: bool,
) -> Result<(), AggregationValidationError> {
    match expected {
        Some(expected) => if computed@ == expected@ {
            Ok(())
        } else {
            Err(AggregationValidationError::BalHashMismatch { computed, expected })
        },
        None => if amsterdam_active {
            Err(AggregationValidationError::MissingBalHash { computed })
        } else {
            Ok(())
        },
    }
}

/// Verifies that the block access list has the hash that the block gives for it, and that a block
/// gives one where Amsterdam is active.
pub fn verify_bal_hash(computed: B256, expected: Option<B256>, amsterdam_active: bool) -> (r:
    Result<(), AggregationValidationError>)
    ensures
        r == bal_hash_verdict(computed, expected, amsterdam_active),
{
    match expected {
        Some(expected) => if computed == expected {
            Ok(())
        } else {
            Err(AggregationValidationError::BalHashMismatch { computed, expected })
        },
        None => if amsterdam_active {
            Err(AggregationValidationError::MissingBalHash { computed })
        } else {
            Ok(())
        },
    }
}

/// What is returned once the state root and the hash of the block access list are known: the block
/// hash, if both are the block's.
pub open spec fn final_verdict(
    block: Block,
    state_root: Result<B256, StatelessValidationError>,
    bal_hash: B256,
) -> Result<B256, AggregationValidationError> {
    match state_root {
        Err(e) => Err(AggregationValidationError::StatelessValidation(e)),
        Ok(computed) => if computed@ != block.header@.state_root {
            Err(
                AggregationValidationError::PostStateRootMismatch {
                    computed,
                    expected: fixed_bytes(block.header@.state_root),
                },
            )
        } else {
            match bal_hash_verdict(
                bal_hash,
                block.block_access_list_hash,
                block.amsterdam_active,
            ) {
                Err(e) => Err(e),
                Ok(_) => Ok(fixed_bytes(block.header@.hash())),
            }
        },
    }
}

/// `r` is what an aggregation returns once the host has answered on the trie.
pub open spec fn outcome_on_trie<H: AggregatorHost>(
    input: AggregationInput<EthereumReceipt>,
    host: H,
    trie: Result<H::Trie, StatelessValidationError>,
    r: Result<B256, AggregationValidationError>,
) -> bool {
    match trie {
        Err(e) => r == Err::<B256, AggregationValidationError>(
            AggregationValidationError::StatelessValidation(e),
        ),
        Ok(trie) => {
            ||| exists|e: StatelessValidationError| #[trigger]
                block_lookup_failure(input, trie, e) && r == Err::<
                    B256,
                    AggregationValidationError,
                >(AggregationValidationError::StatelessValidation(e))
            ||| exists|
                state: HashedPostState,
                root: Result<B256, StatelessValidationError>,
                bal_hash: B256,
            | #[trigger]
                root_calculated(host, trie, state, root) && block_post_state(input, trie, state@)
                    && #[trigger] has_hash(*input.bal, bal_hash) && r == final_verdict(
                    input.block,
                    root,
                    bal_hash,
                )
        },
    }
}

/// `r` is what an aggregation returns once the host has answered on the block after its execution.
pub open spec fn outcome_on_validation<H: AggregatorHost>(
    input: AggregationInput<EthereumReceipt>,
    host: H,
    parent: HeaderView,
    validation: Result<(), String>,
    r: Result<B256, AggregationValidationError>,
) -> bool {
    match validation {
        Err(e) => r == Err::<B256, AggregationValidationError>(
            AggregationValidationError::ConsensusValidation(e),
        ),
        Ok(_) => exists|trie: Result<H::Trie, StatelessValidationError>| #[trigger]
            trie_built(host, input.witness, fixed_bytes(parent.state_root), trie)
                && outcome_on_trie(input, host, trie, r),
    }
}

/// `receipts` and `requests` are what the subblock outputs combine to.
pub open spec fn combined_to(
    outputs: Seq<OutputView>,
    receipts: Vec<EthereumReceipt>,
    requests: Requests,
) -> bool {
    &&& receipt_views(receipts@) == combined_receipts(outputs, outputs.len() as int)
    &&& requests@ == combined_requests(outputs, outputs.len() as int)
}

/// `r` is what an aggregation returns once the host has answered on the signers.
pub open spec fn outcome_on_recovery<H: AggregatorHost>(
    input: AggregationInput<EthereumReceipt>,
    host: H,
    recovery: Result<(), StatelessValidationError>,
    r: Result<B256, AggregationValidationError>,
) -> bool {
    match recovery {
        Err(e) => r == Err::<B256, AggregationValidationError>(
            AggregationValidationError::StatelessValidation(e),
        ),
        Ok(_) => match parent_verdict(byte_views(input.witness.headers@)) {
            Err(e) => r == Err::<B256, AggregationValidationError>(
                AggregationValidationError::StatelessValidation(e),
            ),
            Ok(parent) => exists|
                receipts: Vec<EthereumReceipt>,
                requests: Requests,
                validation: Result<(), String>,
            | #[trigger]
                post_validated(host, input.block, receipts, requests, validation) && combined_to(
                    output_views(input.subblock_outputs@),
                    receipts,
                    requests,
                ) && outcome_on_validation(input, host, parent, validation, r),
        },
    }
}

/// What the checks on the outputs and ranges of an aggregation say.
pub open spec fn input_verdict(input: AggregationInput<EthereumReceipt>) -> Result<
    (),
    AggregationValidationError,
> {
    opening_verdict(
        output_views(input.subblock_outputs@),
        input.bal_ranges@,
        input.block.transactions@.len() as usize,
    )
}

/// `r` is what an aggregation returns. The first failure in the order of the stages is the one
/// reported.
pub open spec fn aggregation_outcome<H: AggregatorHost>(
    input: AggregationInput<EthereumReceipt>,
    host: H,
    r: Result<B256, AggregationValidationError>,
) -> bool {
    match input_verdict(input) {
        Err(e) => r == Err::<B256, AggregationValidationError>(e),
        Ok(_) => exists|recovery: Result<(), StatelessValidationError>| #[trigger]
            recovered(host, input.block, recovery) && outcome_on_recovery(
                input,
                host,
                recovery,
                r,
            ),
    }
}

/// The outputs of the aggregation are reached and combined: their checks pass, the host can recover
/// the signers, and the witness holds the parent.
pub open spec fn reaches_combination<H: AggregatorHost>(
    input: AggregationInput<EthereumReceipt>,
    host: H,
) -> bool {
    &&& input_verdict(input) is Ok
    &&& recovered(host, input.block, Ok(()))
    &&& parent_verdict(byte_views(input.witness.headers@)) is Ok
}

/// Validates aggregated subblock outputs and computes the final state root.
///
/// 1. Verifies BAL ranges are complete and contiguous
/// 2. Verifies the gas of each subblock
/// 3. Combines receipts and logs blooms
/// 4. Runs post-block validation
/// 5. Computes the final state from the block access list and compares its root
/// 6. Compares the hash of the block access list with the one that the block gives for it
///
/// The host does the work between these stages. Returns the block hash if validation succeeds. Where
/// the outputs come to be combined, their gas values must fit; [`checked_aggregation_validation`]
/// finds out whether they do.
pub fn aggregation_validation<H: AggregatorHost>(
    input: AggregationInput<EthereumReceipt>,
    host: &H,
) -> (r: Result<B256, AggregationValidationError>)
    requires
        input.block.transactions@.len() + 2 <= usize::MAX,
        reaches_combination(input, *host) ==> gas_fits(output_views(input.subblock_outputs@)),
    ensures
        aggregation_outcome(input, *host, r),
        r matches Ok(hash) ==> hash@ == input.block.header@.hash(),
{
    let checked: CheckedAggregation = match check_aggregation(input) {
        Ok(checked) => checked,
        Err(e) => {
            return Err(e);
        },
    };
    let recovery: Result<(), StatelessValidationError> = host.recover_signers(
        &checked.input.block,
    );
    assert(recovered(*host, input.block, recovery));
    assert(recovery matches Ok(u) ==> u == () && recovered(*host, input.block, Ok(())));
    let ghost given = recovery;
    let combined: CombinedAggregation = match checked.combine(recovery) {
        Ok(combined) => combined,
        Err(e) => {
            let r = Err(e);
            assert(outcome_on_recovery(input, *host, given, r));
            return r;
        },
    };
    let ghost parent = combined.parent.header@;
    let validation: Result<(), String> = host.validate_post_execution(
        &combined.input.block,
        &combined.receipts,
        &combined.requests,
    );
    let ghost (receipts, requests, verdict) = (combined.receipts, combined.requests, validation);
    assert(post_validated(*host, input.block, receipts, requests, verdict));
    assert(combined_to(output_views(input.subblock_outputs@), receipts, requests));
    let validated: ValidatedAggregation = match combined.validated(validation) {
        Ok(validated) => validated,
        Err(e) => {
            let r = Err(e);
            assert(outcome_on_validation(input, *host, parent, verdict, r));
            assert(outcome_on_recovery(input, *host, given, r));
            return r;
        },
    };
    let state_root: B256 = validated.parent.header.state_root();
    proof {
        lemma_fixed_bytes(state_root);
    }
    let built: Result<H::Trie, StatelessValidationError> = host.build_trie(
        &validated.input.witness,
        state_root,
    );
    assert(trie_built(*host, input.witness, fixed_bytes(parent.state_root), built));
    let ghost answer = built;
    let trie: H::Trie = match built {
        Ok(trie) => trie,
        Err(e) => {
            let r = Err(AggregationValidationError::StatelessValidation(e));
            assert(outcome_on_trie(input, *host, answer, r));
            assert(outcome_on_validation(input, *host, parent, verdict, r));
            assert(outcome_on_recovery(input, *host, given, r));
            return r;
        },
    };
    let state: HashedPostState = match validated.post_state(&trie) {
        Ok(state) => state,
        Err(e) => {
            let r = Err(e);
            assert(block_lookup_failure(input, trie, e->StatelessValidation_0));
            assert(outcome_on_trie(input, *host, answer, r));
            assert(outcome_on_validation(input, *host, parent, verdict, r));
            assert(outcome_on_recovery(input, *host, given, r));
            return r;
        },
    };
    let ghost (used, post) = (trie, state);
    let root: Result<B256, StatelessValidationError> = host.calculate_state_root(trie, state);
    assert(root_calculated(*host, used, post, root));
    let r = validated.finish(root);
    assert(outcome_on_trie(input, *host, answer, r));
    assert(outcome_on_validation(input, *host, parent, verdict, r));
    assert(outcome_on_recovery(input, *host, given, r));
    r
}

/// Validates aggregated subblock outputs as [`aggregation_validation`] does, and returns `None` where
/// outputs that come to be combined have gas values that do not fit.
pub fn checked_aggregation_validation<H: AggregatorHost>(
    input: AggregationInput<EthereumReceipt>,
    host: &H,
) -> (r: Option<Result<B256, AggregationValidationError>>)
    requires
        input.block.transactions@.len() + 2 <= usize::MAX,
    ensures
        match r {
            Some(r) => {
                &&& aggregation_outcome(input, *host, r)
                &&& r matches Ok(hash) ==> hash@ == input.block.header@.hash()
            },
            None => {
                &&& reaches_combination(input, *host)
                &&& !gas_fits(output_views(input.subblock_outputs@))
            },
        },
{
    if gas_values_fit(input.subblock_outputs.as_slice()) {
        return Some(aggregation_validation(input, host));
    }
    let checked: CheckedAggregation = match check_aggregation(input) {
        Ok(checked) => checked,
        Err(e) => {
            return Some(Err(e));
        },
    };
    let recovery: Result<(), StatelessValidationError> = host.recover_signers(
        &checked.input.block,
    );
    assert(recovered(*host, input.block, recovery));
    assert(recovery matches Ok(u) ==> u == () && recovered(*host, input.block, Ok(())));
    let ghost given = recovery;
    match recovery {
        Ok(_) => {},
        Err(e) => {
            let r = Err(AggregationValidationError::StatelessValidation(e));
            assert(outcome_on_recovery(input, *host, given, r));
            return Some(r);
        },
    }
    match witness_ancestors(&checked.input.witness.headers) {
        Ok(_) => None,
        Err(e) => {
            let r = Err(AggregationValidationError::StatelessValidation(e));
            assert(outcome_on_recovery(input, *host, given, r));
            Some(r)
        },
    }
}

/// How ranges are judged, whatever their number. They are accepted exactly if they lead from index 0
/// without a gap to `tx_count + 2`. Else the first thing that is wrong is reported: no range at all,
/// a first range that starts elsewhere, the first gap, or an end elsewhere.
pub proof fn lemma_ranges_judged(ranges: Seq<Range<u64>>, tx_count: usize)
    ensures
        ranges.len() == 0 ==> ranges_verdict(ranges, tx_count) == Err::<
            (),
            AggregationValidationError,
        >(AggregationValidationError::IncompleteRanges { covered: 0, tx_count }),
        ranges.len() > 0 && ranges[0].start != 0 ==> ranges_verdict(ranges, tx_count) == Err::<
            (),
            AggregationValidationError,
        >(AggregationValidationError::RangesNotStartingAtZero { start: ranges[0].start as usize }),
        ranges.len() > 0 && ranges[0].start == 0 ==> {
            &&& forall|i: int|
                0 <= i < ranges.len() - 1 && (#[trigger] ranges[i]).end != ranges[i + 1].start && (
                forall|j: int|
                    0 <= j < i ==> (#[trigger] ranges[j]).end == ranges[j + 1].start)
                    ==> ranges_verdict(ranges, tx_count) == Err::<(), AggregationValidationError>(
                    AggregationValidationError::NonContiguousRanges {
                        index: i as usize,
                        end: ranges[i].end as usize,
                        next_index: (i + 1) as usize,
                        start: ranges[i + 1].start as usize,
                    },
                )
            &&& (forall|j: int|
                0 <= j < ranges.len() - 1 ==> (#[trigger] ranges[j]).end == ranges[j + 1].start)
                ==> {
                let end = ranges[ranges.len() - 1].end;
                &&& end == tx_count + 2 ==> ranges_verdict(ranges, tx_count) is Ok
                &&& end != tx_count + 2 ==> ranges_verdict(ranges, tx_count) is Err
                &&& end != tx_count + 2 && 1 <= end <= tx_count + 1 ==> ranges_verdict(
                    ranges,
                    tx_count,
                ) == Err::<(), AggregationValidationError>(
                    AggregationValidationError::IncompleteRanges {
                        covered: (end - 1) as usize,
                        tx_count,
                    },
                )
                &&& end == 0 ==> ranges_verdict(ranges, tx_count) == Err::<
                    (),
                    AggregationValidationError,
                >(AggregationValidationError::IncompleteRanges { covered: 0, tx_count })
                &&& end > tx_count + 2 && end <= usize::MAX ==> ranges_verdict(ranges, tx_count)
                    == Err::<(), AggregationValidationError>(
                    AggregationValidationError::IncompleteRanges { covered: tx_count, tx_count },
                )
            }
        },
        ranges_verdict(ranges, tx_count) is Ok ==> {
            &&& ranges.len() > 0
            &&& ranges[0].start == 0
            &&& forall|j: int|
                0 <= j < ranges.len() - 1 ==> (#[trigger] ranges[j]).end == ranges[j + 1].start
            &&& ranges[ranges.len() - 1].end == tx_count + 2
        },
{
    lemma_first_gap(ranges);
    if ranges.len() > 0 && ranges[0].start == 0 {
        assert forall|i: int|
            0 <= i < ranges.len() - 1 && (#[trigger] ranges[i]).end != ranges[i + 1].start && (
            forall|j: int|
                0 <= j < i ==> (#[trigger] ranges[j]).end == ranges[j
                    + 1].start) implies first_gap(ranges) == Some(i) by {
            let t = ranges.take(i + 2);
            assert(t.drop_last() =~= ranges.take(i + 1));
            lemma_first_gap(ranges.take(i + 1));
            assert(ranges_contiguous(ranges.take(i + 1))) by {
                let u = ranges.take(i + 1);
                assert forall|j: int| #![trigger u[j]] 0 <= j < u.len() - 1 implies u[j].end
                    == u[j + 1].start by {
                    assert(ranges[j].end == ranges[j + 1].start);
                }
            }
            assert(t[t.len() - 2] == ranges[i] && t.last() == ranges[i + 1]);
            assert(first_gap(t) == Some(i));
            lemma_first_gap_prefix(ranges, i + 2);
        }
        if forall|j: int|
            0 <= j < ranges.len() - 1 ==> (#[trigger] ranges[j]).end == ranges[j + 1].start {
            assert(ranges_contiguous(ranges));
        }
    }
}

/// The gas check accepts exactly if, in every subblock whose range holds more than the pre-execution
/// index, no receipt has less cumulative gas than an earlier one.
pub proof fn lemma_gas_judged(outputs: Seq<OutputView>, ranges: Seq<Range<u64>>)
    ensures
        gas_verdict(outputs, ranges) is Ok <==> forall|i: int, x: int, y: int|
            0 <= i < outputs.len() && i < ranges.len() && ranges[i].start < ranges[i].end && !(
            ranges[i].start == 0 && ranges[i].end == 1) && 0 <= x <= y < outputs[i].receipts.len()
                ==> (#[trigger] outputs[i].receipts[x]).cumulative_gas_used <= (
            #[trigger] outputs[i].receipts[y]).cumulative_gas_used,
{
    lemma_gas_verdict(outputs, ranges);
    if gas_verdict(outputs, ranges) is Ok {
        assert forall|i: int, x: int, y: int|
            0 <= i < outputs.len() && i < ranges.len() && ranges[i].start < ranges[i].end && !(
            ranges[i].start == 0 && ranges[i].end == 1) && 0 <= x <= y
                < outputs[i].receipts.len() implies (
        #[trigger] outputs[i].receipts[x]).cumulative_gas_used <= (
        #[trigger] outputs[i].receipts[y]).cumulative_gas_used by {
            assert(has_txs(ranges[i]));
            assert(gas_ascends(outputs[i].receipts));
        }
    } else {
        let i = choose|i: int|
            0 <= i < outputs.len() && i < ranges.len() && has_txs(ranges[i]) && !gas_ascends(
                #[trigger] outputs[i].receipts,
            );
        let (x, y) = choose|x: int, y: int|
            0 <= x <= y < outputs[i].receipts.len() && !((
            #[trigger] outputs[i].receipts[x]).cumulative_gas_used <= (
            #[trigger] outputs[i].receipts[y]).cumulative_gas_used);
        assert(ranges[i].start < ranges[i].end);
        assert(!(outputs[i].receipts[x].cumulative_gas_used
            <= outputs[i].receipts[y].cumulative_gas_used));
    }
}

/// A refusal for gas names the first subblock whose receipts fall, and the gas of the receipt before
/// the first one that does.
pub proof fn lemma_gas_refused(
    outputs: Seq<OutputView>,
    ranges: Seq<Range<u64>>,
    i: int,
    k: int,
)
    requires
        0 <= i < outputs.len(),
        i < ranges.len(),
        ranges[i].start < ranges[i].end,
        !(ranges[i].start == 0 && ranges[i].end == 1),
        0 < k < outputs[i].receipts.len(),
        outputs[i].receipts[k].cumulative_gas_used < outputs[i].receipts[k - 1].cumulative_gas_used,
        forall|x: int, y: int|
            0 <= x <= y < k ==> (#[trigger] outputs[i].receipts[x]).cumulative_gas_used <= (
            #[trigger] outputs[i].receipts[y]).cumulative_gas_used,
        forall|j: int, x: int, y: int|
            0 <= j < i && 0 <= x <= y < outputs[j].receipts.len() ==> (
            #[trigger] outputs[j].receipts[x]).cumulative_gas_used <= (
            #[trigger] outputs[j].receipts[y]).cumulative_gas_used,
    ensures
        gas_verdict(outputs, ranges) == Err::<(), AggregationValidationError>(
            AggregationValidationError::GasChainingMismatch {
                index: i as usize,
                expected: outputs[i].receipts[k - 1].cumulative_gas_used as u64,
                next_index: i as usize,
            },
        ),
{
    let before = outputs.take(i);
    assert(gas_verdict(before, ranges) is Ok) by {
        lemma_gas_judged(before, ranges);
        assert forall|j: int, x: int, y: int|
            0 <= j < before.len() && j < ranges.len() && ranges[j].start < ranges[j].end && !(
            ranges[j].start == 0 && ranges[j].end == 1) && 0 <= x <= y
                < before[j].receipts.len() implies (
        #[trigger] before[j].receipts[x]).cumulative_gas_used <= (
        #[trigger] before[j].receipts[y]).cumulative_gas_used by {
            assert(outputs[j].receipts[x].cumulative_gas_used
                <= outputs[j].receipts[y].cumulative_gas_used);
        }
    }
    let receipts = outputs[i].receipts;
    let t = receipts.take(k + 1);
    let head = receipts.take(k);
    assert(t.drop_last() =~= head);
    assert(gas_ascends(head)) by {
        assert forall|x: int, y: int| 0 <= x <= y < head.len() implies (
        #[trigger] head[x]).cumulative_gas_used <= (#[trigger] head[y]).cumulative_gas_used by {
            assert(outputs[i].receipts[x].cumulative_gas_used
                <= outputs[i].receipts[y].cumulative_gas_used);
        }
    }
    lemma_first_fall(head);
    assert(t.last() == receipts[k] && t[t.len() - 2] == receipts[k - 1]);
    assert(first_fall(t) == Some(k));
    lemma_first_fall_prefix(receipts, k + 1);
    let u = outputs.take(i + 1);
    assert(u.drop_last() =~= before);
    assert(u[i] == outputs[i]);
    lemma_gas_verdict_prefix(outputs, ranges, i + 1);
}

/// What stands behind the first outputs does not matter to what these combine to.
proof fn lemma_combined_prefix(a: Seq<OutputView>, b: Seq<OutputView>, n: int)
    requires
        0 <= n <= a.len(),
    ensures
        gas_offset(a + b, n) == gas_offset(a, n),
        combined_receipts(a + b, n) == combined_receipts(a, n),
        combined_bloom(a + b, n) == combined_bloom(a, n),
        combined_requests(a + b, n) == combined_requests(a, n),
    decreases n,
{
    if n > 0 {
        lemma_combined_prefix(a, b, n - 1);
        assert((a + b)[n - 1] == a[n - 1]);
    }
}

/// A single output is combined to what it holds.
pub proof fn lemma_combine_single(output: OutputView)
    ensures
        gas_offset(seq![output], 0) == 0,
        gas_offset(seq![output], 1) == output.cumulative_gas_used,
        combined_receipts(seq![output], 1) == output.receipts,
        combined_requests(seq![output], 1) == output.requests,
        combined_receipts(Seq::empty(), 0) == Seq::<ReceiptView>::empty(),
        combined_requests(Seq::empty(), 0) == Seq::<Seq<u8>>::empty(),
{
    let one = seq![output];
    assert(gas_offset(one, 0) == 0);
    assert(combined_receipts(one, 0) =~= Seq::empty());
    assert(combined_requests(one, 0) =~= Seq::empty());
    assert forall|i: int| 0 <= i < output.receipts.len() implies #[trigger] output.receipts[i].shifted(
        0,
    ) == output.receipts[i] by {
        assert(output.receipts[i].shifted(0) =~= output.receipts[i]);
    }
    assert(combined_receipts(one, 1) =~= output.receipts);
    if output.requests.len() == 0 {
        assert(output.requests =~= Seq::empty());
    }
}

/// Outputs can be combined in parts. The receipts of the later part follow those of the earlier one;
/// they are the same receipts, with the gas of the earlier part added to their cumulative gas. The
/// requests of the later part replace those of the earlier one, if it has any.
pub proof fn lemma_combine_parts(a: Seq<OutputView>, b: Seq<OutputView>)
    ensures
        ({
            let (m, n) = (a.len() as int, b.len() as int);
            let all = combined_receipts(a + b, m + n);
            let (first, second) = (combined_receipts(a, m), combined_receipts(b, n));
            &&& gas_offset(a + b, m + n) == gas_offset(a, m) + gas_offset(b, n)
            &&& all.len() == first.len() + second.len()
            &&& forall|i: int| 0 <= i < first.len() ==> #[trigger] all[i] == first[i]
            &&& forall|i: int|
                0 <= i < second.len() ==> {
                    let moved = all[first.len() + i];
                    &&& moved.tx_type == (#[trigger] second[i]).tx_type
                    &&& moved.success == second[i].success
                    &&& moved.logs == second[i].logs
                    &&& moved.cumulative_gas_used == second[i].cumulative_gas_used + gas_offset(
                        a,
                        m,
                    )
                }
            &&& combined_requests(b, n).len() > 0 ==> combined_requests(a + b, m + n)
                == combined_requests(b, n)
            &&& combined_requests(b, n).len() == 0 ==> combined_requests(a + b, m + n)
                == combined_requests(a, m)
        }),
    decreases b.len(),
{
    let (m, n) = (a.len() as int, b.len() as int);
    if n == 0 {
        assert(a + b =~= a);
    } else {
        let c = b.drop_last();
        let last = b.last();
        lemma_combine_parts(a, c);
        assert(b =~= c + seq![last]);
        lemma_combined_prefix(c, seq![last], n - 1);
        assert(a + b =~= (a + c) + seq![last]);
        lemma_combined_prefix(a + c, seq![last], m + n - 1);
        assert((a + b)[m + n - 1] == last);
        let first = combined_receipts(a, m);
        let second = combined_receipts(b, n);
        let before = combined_receipts(c, n - 1);
        let all = combined_receipts(a + b, m + n);
        assert forall|i: int| 0 <= i < second.len() implies {
            let moved = all[first.len() + i];
            &&& moved.tx_type == (#[trigger] second[i]).tx_type
            &&& moved.success == second[i].success
            &&& moved.logs == second[i].logs
            &&& moved.cumulative_gas_used == second[i].cumulative_gas_used + gas_offset(a, m)
        } by {
            if i < before.len() {
                assert(second[i] == before[i]);
                assert(all[first.len() + i] == combined_receipts(a + c, m + n - 1)[first.len() + i]);
            } else {
                let own = last.receipts[i - before.len()];
                assert(second[i] == own.shifted(gas_offset(c, n - 1)));
                assert(all[first.len() + i] == own.shifted(gas_offset(a + c, m + n - 1)));
            }
        }
        assert forall|i: int| 0 <= i < first.len() implies #[trigger] all[i] == first[i] by {
            assert(all[i] == combined_receipts(a + c, m + n - 1)[i]);
        }
    }
}

/// The combined bloom has a bit set exactly if the bloom of one of the outputs has it set. `mask`
/// selects the bits that are looked at.
pub proof fn lemma_combined_bloom_bits(outputs: Seq<OutputView>, n: int, at: int, mask: u8)
    requires
        0 <= n <= outputs.len(),
        0 <= at < 256,
    ensures
        combined_bloom(outputs, n).len() == 256,
        combined_bloom(outputs, n)[at] & mask != 0 <==> exists|i: int|
            0 <= i < n && (#[trigger] outputs[i]).logs_bloom[at] & mask != 0,
    decreases n,
{
    lemma_zero_bits(at, mask);
    if n > 0 {
        lemma_combined_bloom_bits(outputs, n - 1, at, mask);
        lemma_union_bits(
            combined_bloom(outputs, n - 1),
            outputs[n - 1].logs_bloom,
            at,
            mask,
        );
        if outputs[n - 1].logs_bloom[at] & mask != 0 {
            assert(outputs[n - 1].logs_bloom[at] & mask != 0);
        }
    }
}

/// The combined requests are those of the last output that has any.
pub proof fn lemma_requests_of_last(outputs: Seq<OutputView>, n: int, i: int)
    requires
        0 <= i < n <= outputs.len(),
        forall|j: int| i < j < n ==> (#[trigger] outputs[j]).requests.len() == 0,
    ensures
        outputs[i].requests.len() > 0 ==> combined_requests(outputs, n) == outputs[i].requests,
        outputs[i].requests.len() == 0 ==> combined_requests(outputs, n) == combined_requests(
            outputs,
            i,
        ),
    decreases n,
{
    if i < n - 1 {
        assert(outputs[n - 1].requests.len() == 0);
        lemma_requests_of_last(outputs, n - 1, i);
    }
}

/// The gas values of outputs fit exactly if, with the gas of all subblocks before it, the total of
/// each subblock and the gas of each of its receipts is a `u64`.
pub proof fn lemma_gas_fits(outputs: Seq<OutputView>)
    ensures
        gas_fits(outputs) <==> forall|i: int|
            0 <= i < outputs.len() ==> {
                &&& gas_offset(outputs, i) + (#[trigger] outputs[i]).cumulative_gas_used
                    <= u64::MAX
                &&& forall|k: int|
                    0 <= k < outputs[i].receipts.len() ==> gas_offset(outputs, i) + (
                    #[trigger] outputs[i].receipts[k]).cumulative_gas_used <= u64::MAX
            },
{
    if gas_fits(outputs) {
        assert forall|i: int| 0 <= i < outputs.len() implies {
            &&& gas_offset(outputs, i) + (#[trigger] outputs[i]).cumulative_gas_used <= u64::MAX
            &&& forall|k: int|
                0 <= k < outputs[i].receipts.len() ==> gas_offset(outputs, i) + (
                #[trigger] outputs[i].receipts[k]).cumulative_gas_used <= u64::MAX
        } by {
            assert(gas_offset(outputs, i) + outputs[i].cumulative_gas_used <= u64::MAX);
        }
    }
    if forall|i: int|
        0 <= i < outputs.len() ==> {
            &&& gas_offset(outputs, i) + (#[trigger] outputs[i]).cumulative_gas_used <= u64::MAX
            &&& forall|k: int|
                0 <= k < outputs[i].receipts.len() ==> gas_offset(outputs, i) + (
                #[trigger] outputs[i].receipts[k]).cumulative_gas_used <= u64::MAX
        } {
        assert forall|i: int| 0 <= i < outputs.len() implies {
            &&& #[trigger] gas_offset(outputs, i) + outputs[i].cumulative_gas_used <= u64::MAX
            &&& forall|k: int|
                0 <= k < outputs[i].receipts.len() ==> gas_offset(outputs, i) + (
                #[trigger] outputs[i].receipts[k]).cumulative_gas_used <= u64::MAX
        } by {
            assert(outputs[i].cumulative_gas_used == outputs[i].cumulative_gas_used);
        }
    }
}

/// Outputs whose gas values fit combine to receipts whose gas values are each a `u64`.
pub proof fn lemma_combined_gas_fits(outputs: Seq<OutputView>, n: int, j: int)
    requires
        gas_fits(outputs),
        0 <= n <= outputs.len(),
        0 <= j < combined_receipts(outputs, n).len(),
    ensures
        combined_receipts(outputs, n)[j].cumulative_gas_used <= u64::MAX,
    decreases n,
{
    if n > 0 {
        let before = combined_receipts(outputs, n - 1);
        lemma_gas_fits(outputs);
        if j < before.len() {
            lemma_combined_gas_fits(outputs, n - 1, j);
        } else {
            assert(outputs[n - 1].cumulative_gas_used == outputs[n - 1].cumulative_gas_used);
            let own = outputs[n - 1].receipts[j - before.len()];
            assert(combined_receipts(outputs, n)[j] == own.shifted(gas_offset(outputs, n - 1)));
        }
    }
}

/// The checks on outputs and ranges report, in this order, that there is no output, that their
/// numbers differ, what is wrong with the ranges, and what is wrong with the gas.
pub proof fn lemma_opening(outputs: Seq<OutputView>, ranges: Seq<Range<u64>>, tx_count: usize)
    ensures
        outputs.len() == 0 ==> opening_verdict(outputs, ranges, tx_count) == Err::<
            (),
            AggregationValidationError,
        >(AggregationValidationError::NoSubblockOutputs),
        outputs.len() > 0 && outputs.len() != ranges.len() ==> opening_verdict(
            outputs,
            ranges,
            tx_count,
        ) == Err::<(), AggregationValidationError>(
            AggregationValidationError::MismatchedOutputsAndRanges {
                outputs: outputs.len() as usize,
                ranges: ranges.len() as usize,
            },
        ),
        outputs.len() > 0 && outputs.len() == ranges.len() ==> {
            &&& ranges_verdict(ranges, tx_count) is Err ==> opening_verdict(
                outputs,
                ranges,
                tx_count,
            ) == ranges_verdict(ranges, tx_count)
            &&& ranges_verdict(ranges, tx_count) is Ok ==> opening_verdict(
                outputs,
                ranges,
                tx_count,
            ) == gas_verdict(outputs, ranges)
        },
{
}

/// The hash of a block access list is accepted exactly if it is the one that the block gives, or if
/// the block gives none and Amsterdam is not active. A refusal holds what was compared.
pub proof fn lemma_bal_hash_judged(
    computed: B256,
    expected: Option<B256>,
    amsterdam_active: bool,
)
    ensures
        ({
            let verdict = bal_hash_verdict(computed, expected, amsterdam_active);
            &&& expected matches Some(hash) ==> (verdict is Ok <==> computed@ == hash@)
            &&& expected is None ==> (verdict is Ok <==> !amsterdam_active)
            &&& verdict matches Err(e) ==> e == match expected {
                Some(expected) => AggregationValidationError::BalHashMismatch {
                    computed,
                    expected,
                },
                None => AggregationValidationError::MissingBalHash { computed },
            }
        }),
{
}

/// The block hash is returned exactly if the state root is that of the header and the hash of the
/// block access list is accepted. The state root is looked at first.
pub proof fn lemma_final_judged(
    block: Block,
    state_root: Result<B256, StatelessValidationError>,
    bal_hash: B256,
)
    ensures
        ({
            let verdict = final_verdict(block, state_root, bal_hash);
            let hash_verdict = bal_hash_verdict(
                bal_hash,
                block.block_access_list_hash,
                block.amsterdam_active,
            );
            &&& verdict is Ok <==> state_root is Ok && state_root->Ok_0@
                == block.header@.state_root && hash_verdict is Ok
            &&& verdict matches Ok(hash) ==> hash == fixed_bytes::<32>(block.header@.hash())
            &&& state_root matches Err(e) ==> verdict == Err::<B256, AggregationValidationError>(
                AggregationValidationError::StatelessValidation(e),
            )
            &&& state_root is Ok && state_root->Ok_0@ != block.header@.state_root ==> {
                &&& verdict matches Err(AggregationValidationError::PostStateRootMismatch {
                    computed,
                    expected,
                })
                &&& computed == state_root->Ok_0
                &&& expected == fixed_bytes::<32>(block.header@.state_root)
            }
            &&& state_root is Ok && state_root->Ok_0@ == block.header@.state_root
                && hash_verdict is Err ==> verdict == Err::<B256, AggregationValidationError>(
                hash_verdict->Err_0,
            )
        }),
{
}

} // verus!
