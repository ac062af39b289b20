//! What the operations of workers and aggregator do, told by what they are given and what they return.
//!
//! Each law takes the arguments of an operation and a result that its contract allows.

use crate::bal::{
    bal_lookups, has_hash, lemma_looked_up_account, lemma_lookup, AccountChanges, Bal, ChangesView,
};
use crate::error::StatelessValidationError;
use crate::hash::keccak256_digest;
use crate::header::{byte_views, parent_verdict};
use crate::laws::{below, readable};
use crate::map::distinct_keys;
use crate::primitives::{Address, Bloom, B256};
use crate::receipt::{receipt_views, receipts_bloom, EthereumReceipt};
use crate::subblock::aggregator::{
    aggregation_outcome, aggregation_validation, bal_hash_verdict, block_lookup_failure,
    block_post_state, check_aggregation, checked_aggregation_validation, combine_subblock_outputs,
    combined_receipts, combined_requests, final_verdict, gas_fits, gas_offset, gas_values_fit,
    lemma_bal_hash_judged, lemma_combine_parts, lemma_combined_bloom_bits, lemma_final_judged,
    lemma_gas_judged, lemma_ranges_judged, reaches_combination, verify_bal_hash,
    verify_bal_ranges_complete, verify_gas_chaining, CheckedAggregation, CombinedAggregation,
    ValidatedAggregation,
};
use crate::subblock::bal_state::{
    all_found, apply_changes, bal_to_hashed_post_state, bal_to_hashed_post_state_with_pre_state,
    converted, lemma_asked_pre_state, lemma_failed_lookup, lemma_state_of_changes, post_state,
    Account, HashedPostState, PreStateAccountProvider, TrieAccount,
};
use crate::subblock::bal_validation::{
    check_built_bal, lemma_agreeing_absent_account, lemma_agreeing_account,
    lemma_alike_lists_agree, writes_alike, writes_found, writes_outside,
};
use crate::subblock::error::{AggregationValidationError, SubblockValidationError};
use crate::subblock::host::{AggregatorHost, WorkerHost};
use crate::subblock::types::{
    output_views, AggregationInput, Requests, SubblockInput, SubblockOutput,
};
use crate::subblock::worker::{
    build_output, check_subblock, extract_receipts, finished, lemma_local_receipts, lemma_position,
    local_receipts, position_of, subblock_outcome, subblock_output, subblock_position,
    subblock_validation, CheckedSubblock, Execution, PreparedSubblock, ReadySubblock,
    SubblockPosition,
};
use std::ops::Range;
use vstd::prelude::*;

verus! {

/// What was written of an account is what it has, what was not written is what it had, and an account
/// that was not there has nonce 0, balance 0 and no code where these were not written.
pub proof fn lemma_apply_changes(changes: AccountChanges, pre: Option<TrieAccount>, r: Account)
    requires
        call_ensures(apply_changes, (&changes, pre), r),
    ensures
        changes.nonce matches Some(nonce) ==> r.nonce == nonce,
        changes.nonce is None && pre is Some ==> r.nonce == pre->0.nonce,
        changes.nonce is None && pre is None ==> r.nonce == 0,
        changes.balance matches Some(balance) ==> r.balance == balance,
        changes.balance is None && pre is Some ==> r.balance == pre->0.balance,
        changes.balance is None && pre is None ==> forall|i: int|
            0 <= i < 32 ==> #[trigger] r.balance.bytes@[i] == 0,
        changes.code_hash matches Some(hash) ==> r.bytecode_hash == Some(hash),
        changes.code_hash is None && pre is None ==> r.bytecode_hash is None,
        changes.code_hash is None && pre is Some ==> r.bytecode_hash == if pre->0.code_hash@
            == keccak256_digest(Seq::empty()) {
            None
        } else {
            Some(pre->0.code_hash)
        },
{
}

/// What lookups at an index leave of nonce, balance and code of account `i`: the last of the leading
/// writes below the index, and nothing where there is none.
proof fn lemma_read(
    bal: Bal,
    bal_index: u64,
    changes: Seq<(Address, ChangesView)>,
    i: int,
    nonces: int,
    balances: int,
    codes: int,
)
    requires
        bal_lookups(bal.accounts@, bal_index, changes),
        0 <= i < bal.accounts@.len(),
        readable(bal.accounts@[i].1.account_info.nonce.writes@, bal_index),
        readable(bal.accounts@[i].1.account_info.balance.writes@, bal_index),
        readable(bal.accounts@[i].1.account_info.code.writes@, bal_index),
        below(bal.accounts@[i].1.account_info.nonce.writes@, bal_index, nonces),
        below(bal.accounts@[i].1.account_info.balance.writes@, bal_index, balances),
        below(bal.accounts@[i].1.account_info.code.writes@, bal_index, codes),
    ensures
        changes.len() == bal.accounts@.len(),
        changes[i].0 == bal.accounts@[i].0,
        nonces == 0 ==> changes[i].1.nonce is None,
        nonces > 0 ==> changes[i].1.nonce == Some(
            bal.accounts@[i].1.account_info.nonce.writes@[nonces - 1].1,
        ),
        balances == 0 ==> changes[i].1.balance is None,
        balances > 0 ==> changes[i].1.balance == Some(
            bal.accounts@[i].1.account_info.balance.writes@[balances - 1].1,
        ),
        codes == 0 ==> changes[i].1.code_hash is None,
        codes > 0 ==> changes[i].1.code_hash == Some(
            bal.accounts@[i].1.account_info.code.writes@[codes - 1].1.0,
        ),
{
    let info = bal.accounts@[i].1.account_info;
    lemma_looked_up_account(bal.accounts@, bal_index, changes, i);
    lemma_lookup(info.nonce.writes@, bal_index, changes[i].1.nonce, nonces);
    lemma_lookup(info.balance.writes@, bal_index, changes[i].1.balance, balances);
    let writes = info.code.writes@;
    let hashes = writes.map_values(|w: (u64, (B256, Vec<u8>))| (w.0, w.1.0));
    assert forall|p: int| 0 <= p < codes implies (#[trigger] hashes[p]).0 < bal_index by {
        assert(hashes[p].0 == writes[p].0);
    }
    if hashes.len() >= 5 {
        assert forall|p: int, q: int| 0 <= p < q < hashes.len() implies (#[trigger] hashes[p]).0
            <= (#[trigger] hashes[q]).0 && !(hashes[p].0 == bal_index && hashes[q].0
            == bal_index) by {
            assert(writes[p].0 <= writes[q].0);
        }
    }
    lemma_lookup(hashes, bal_index, changes[i].1.code_hash, codes);
}

/// Without a pre-state, the post state of a block access list at an index holds an account exactly if
/// a leading write to its nonce, balance or code lies below the index. It then has the last of these
/// writes, and nonce 0, balance 0 or no code where there is none.
pub proof fn lemma_bal_to_hashed_post_state(
    bal: Bal,
    bal_index: u64,
    r: HashedPostState,
    i: int,
    nonces: int,
    balances: int,
    codes: int,
)
    requires
        call_ensures(bal_to_hashed_post_state, (&bal, bal_index), r),
        0 <= i < bal.accounts@.len(),
        readable(bal.accounts@[i].1.account_info.nonce.writes@, bal_index),
        readable(bal.accounts@[i].1.account_info.balance.writes@, bal_index),
        readable(bal.accounts@[i].1.account_info.code.writes@, bal_index),
        below(bal.accounts@[i].1.account_info.nonce.writes@, bal_index, nonces),
        below(bal.accounts@[i].1.account_info.balance.writes@, bal_index, balances),
        below(bal.accounts@[i].1.account_info.code.writes@, bal_index, codes),
        forall|j: int|
            0 <= j < bal.accounts@.len() && j != i ==> keccak256_digest(
                (#[trigger] bal.accounts@[j]).0@,
            ) != keccak256_digest(bal.accounts@[i].0@),
    ensures
        ({
            let key = keccak256_digest(bal.accounts@[i].0@);
            let info = bal.accounts@[i].1.account_info;
            let account = r@.accounts[key]->0;
            &&& r@.accounts.contains_key(key) <==> nonces > 0 || balances > 0 || codes > 0
            &&& r@.accounts.contains_key(key) ==> {
                &&& r@.accounts[key] is Some
                &&& nonces > 0 ==> account.nonce == info.nonce.writes@[nonces - 1].1
                &&& nonces == 0 ==> account.nonce == 0
                &&& balances > 0 ==> account.balance == info.balance.writes@[balances - 1].1@
                &&& balances == 0 ==> forall|b: int|
                    0 <= b < 32 ==> #[trigger] account.balance[b] == 0
                &&& codes > 0 ==> account.bytecode_hash == Some(info.code.writes@[codes - 1].1.0@)
                &&& codes == 0 ==> account.bytecode_hash is None
            }
        }),
{
    let changes = choose|changes: Seq<(Address, ChangesView)>| #[trigger]
        bal_lookups(bal.accounts@, bal_index, changes) && r@ == post_state(changes, Seq::empty());
    lemma_read(bal, bal_index, changes, i, nonces, balances, codes);
    assert forall|j: int| 0 <= j < changes.len() && j != i implies keccak256_digest(
        (#[trigger] changes[j]).0@,
    ) != keccak256_digest(changes[i].0@) by {
        lemma_looked_up_account(bal.accounts@, bal_index, changes, j);
        assert(keccak256_digest(bal.accounts@[j].0@) != keccak256_digest(bal.accounts@[i].0@));
    }
    lemma_state_of_changes(changes, Seq::empty(), i);
}

/// With a pre-state, the post state of a block access list at an index holds an account exactly if a
/// leading write to its nonce, balance or code lies below the index. It then has the last of these
/// writes, and for the rest what the provider answered for its address.
pub proof fn lemma_bal_to_hashed_post_state_with_pre_state<P: PreStateAccountProvider>(
    bal: Bal,
    bal_index: u64,
    provider: P,
    r: HashedPostState,
    i: int,
    nonces: int,
    balances: int,
    codes: int,
) -> (pre: Option<TrieAccount>)
    requires
        call_ensures(
            bal_to_hashed_post_state_with_pre_state::<P>,
            (&bal, bal_index, &provider),
            Ok::<HashedPostState, P::Error>(r),
        ),
        0 <= i < bal.accounts@.len(),
        readable(bal.accounts@[i].1.account_info.nonce.writes@, bal_index),
        readable(bal.accounts@[i].1.account_info.balance.writes@, bal_index),
        readable(bal.accounts@[i].1.account_info.code.writes@, bal_index),
        below(bal.accounts@[i].1.account_info.nonce.writes@, bal_index, nonces),
        below(bal.accounts@[i].1.account_info.balance.writes@, bal_index, balances),
        below(bal.accounts@[i].1.account_info.code.writes@, bal_index, codes),
        forall|j: int|
            0 <= j < bal.accounts@.len() && j != i ==> keccak256_digest(
                (#[trigger] bal.accounts@[j]).0@,
            ) != keccak256_digest(bal.accounts@[i].0@),
    ensures
        ({
            let key = keccak256_digest(bal.accounts@[i].0@);
            let info = bal.accounts@[i].1.account_info;
            let account = r@.accounts[key]->0;
            let some = nonces > 0 || balances > 0 || codes > 0;
            let all = nonces > 0 && balances > 0 && codes > 0;
            &&& some && !all ==> call_ensures(
                P::account,
                (&provider, bal.accounts@[i].0),
                Ok::<Option<TrieAccount>, P::Error>(pre),
            )
            &&& r@.accounts.contains_key(key) <==> some
            &&& some ==> {
                &&& r@.accounts[key] is Some
                &&& nonces > 0 ==> account.nonce == info.nonce.writes@[nonces - 1].1
                &&& nonces == 0 && pre is Some ==> account.nonce == pre->0.nonce
                &&& nonces == 0 && pre is None ==> account.nonce == 0
                &&& balances > 0 ==> account.balance == info.balance.writes@[balances - 1].1@
                &&& balances == 0 && pre is Some ==> account.balance == pre->0.balance@
                &&& balances == 0 && pre is None ==> forall|b: int|
                    0 <= b < 32 ==> #[trigger] account.balance[b] == 0
                &&& codes > 0 ==> account.bytecode_hash == Some(info.code.writes@[codes - 1].1.0@)
                &&& codes == 0 && pre is None ==> account.bytecode_hash is None
                &&& codes == 0 && pre is Some && pre->0.code_hash@ == keccak256_digest(
                    Seq::empty(),
                ) ==> account.bytecode_hash is None
                &&& codes == 0 && pre is Some && pre->0.code_hash@ != keccak256_digest(
                    Seq::empty(),
                ) ==> account.bytecode_hash == Some(pre->0.code_hash@)
            }
        }),
{
    let outcome = Ok::<HashedPostState, P::Error>(r);
    let changes = choose|changes: Seq<(Address, ChangesView)>| #[trigger]
        bal_lookups(bal.accounts@, bal_index, changes) && converted(provider, changes, outcome);
    let pre = choose|pre: Seq<Option<TrieAccount>>| #[trigger]
        all_found(provider, changes, pre) && r@ == post_state(changes, pre);
    lemma_read(bal, bal_index, changes, i, nonces, balances, codes);
    lemma_asked_pre_state(provider, changes, pre, i);
    assert forall|j: int| 0 <= j < changes.len() && j != i implies keccak256_digest(
        (#[trigger] changes[j]).0@,
    ) != keccak256_digest(changes[i].0@) by {
        lemma_looked_up_account(bal.accounts@, bal_index, changes, j);
        assert(keccak256_digest(bal.accounts@[j].0@) != keccak256_digest(bal.accounts@[i].0@));
    }
    lemma_state_of_changes(changes, pre, i);
    pre[i]
}

/// A conversion fails only with an error that the provider gave for the address of an account of the
/// list.
pub proof fn lemma_failed_conversion<P: PreStateAccountProvider>(
    bal: Bal,
    bal_index: u64,
    provider: P,
    e: P::Error,
) -> (k: int)
    requires
        call_ensures(
            bal_to_hashed_post_state_with_pre_state::<P>,
            (&bal, bal_index, &provider),
            Err::<HashedPostState, P::Error>(e),
        ),
    ensures
        0 <= k < bal.accounts@.len(),
        call_ensures(
            P::account,
            (&provider, bal.accounts@[k].0),
            Err::<Option<TrieAccount>, P::Error>(e),
        ),
{
    let outcome = Err::<HashedPostState, P::Error>(e);
    let changes = choose|changes: Seq<(Address, ChangesView)>| #[trigger]
        bal_lookups(bal.accounts@, bal_index, changes) && converted(provider, changes, outcome);
    let k = lemma_failed_lookup(provider, changes, e);
    lemma_looked_up_account(bal.accounts@, bal_index, changes, k);
    k
}

/// Where an execution is accepted, the list that it built and the provided one hold the same writes
/// at the BAL indices of the range. Of account `i` of either list, every write there to nonce,
/// balance, code and each slot is in account `j` of the other, if that has the same address.
pub proof fn lemma_accepted_execution(
    provided: Bal,
    built: Bal,
    range: Range<u64>,
    r: Result<(), SubblockValidationError>,
    a: Bal,
    b: Bal,
    i: int,
    j: int,
)
    requires
        call_ensures(check_built_bal, (&provided, &built, &range), r),
        r is Ok,
        (a == provided && b == built) || (a == built && b == provided),
        distinct_keys(a.accounts@),
        distinct_keys(b.accounts@),
        0 <= i < a.accounts@.len(),
        0 <= j < b.accounts@.len(),
        a.accounts@[i].0@ == b.accounts@[j].0@,
        distinct_keys(a.accounts@[i].1.storage.storage@),
        distinct_keys(b.accounts@[j].1.storage.storage@),
    ensures
        writes_found(
            a.accounts@[i].1.account_info.nonce.writes@,
            b.accounts@[j].1.account_info.nonce.writes@,
            range,
        ),
        writes_found(
            a.accounts@[i].1.account_info.balance.writes@,
            b.accounts@[j].1.account_info.balance.writes@,
            range,
        ),
        writes_found(
            a.accounts@[i].1.account_info.code.writes@,
            b.accounts@[j].1.account_info.code.writes@,
            range,
        ),
        forall|s: int, t: int|
            0 <= s < a.accounts@[i].1.storage.storage@.len() && 0 <= t
                < b.accounts@[j].1.storage.storage@.len() && (
            #[trigger] a.accounts@[i].1.storage.storage@[s]).0@ == (
            #[trigger] b.accounts@[j].1.storage.storage@[t]).0@ ==> writes_found(
                a.accounts@[i].1.storage.storage@[s].1.writes@,
                b.accounts@[j].1.storage.storage@[t].1.writes@,
                range,
            ),
        forall|s: int|
            0 <= s < a.accounts@[i].1.storage.storage@.len() && (forall|t: int|
                0 <= t < b.accounts@[j].1.storage.storage@.len() ==> (
                #[trigger] b.accounts@[j].1.storage.storage@[t]).0@
                    != a.accounts@[i].1.storage.storage@[s].0@) ==> writes_outside(
                (#[trigger] a.accounts@[i].1.storage.storage@[s]).1.writes@,
                range,
            ),
{
    lemma_agreeing_account(a.accounts@, b.accounts@, range, i, j);
}

/// Where an execution is accepted, an account that only one of the two lists holds was not written at
/// a BAL index of the range.
pub proof fn lemma_accepted_execution_absent(
    provided: Bal,
    built: Bal,
    range: Range<u64>,
    r: Result<(), SubblockValidationError>,
    a: Bal,
    b: Bal,
    i: int,
)
    requires
        call_ensures(check_built_bal, (&provided, &built, &range), r),
        r is Ok,
        (a == provided && b == built) || (a == built && b == provided),
        distinct_keys(a.accounts@),
        0 <= i < a.accounts@.len(),
        forall|j: int|
            0 <= j < b.accounts@.len() ==> (#[trigger] b.accounts@[j]).0@ != a.accounts@[i].0@,
        distinct_keys(a.accounts@[i].1.storage.storage@),
    ensures
        writes_outside(a.accounts@[i].1.account_info.nonce.writes@, range),
        writes_outside(a.accounts@[i].1.account_info.balance.writes@, range),
        writes_outside(a.accounts@[i].1.account_info.code.writes@, range),
        forall|s: int|
            0 <= s < a.accounts@[i].1.storage.storage@.len() ==> writes_outside(
                (#[trigger] a.accounts@[i].1.storage.storage@[s]).1.writes@,
                range,
            ),
{
    lemma_agreeing_absent_account(a.accounts@, b.accounts@, range, i);
}

/// An execution is not refused for what it did outside the range: it is accepted where the list that
/// it built differs from the provided one in writes at other BAL indices only.
pub proof fn lemma_alike_execution(
    provided: Bal,
    built: Bal,
    range: Range<u64>,
    r: Result<(), SubblockValidationError>,
)
    requires
        call_ensures(check_built_bal, (&provided, &built, &range), r),
        distinct_keys(provided.accounts@),
        provided.accounts@.len() == built.accounts@.len(),
        forall|i: int|
            0 <= i < provided.accounts@.len() ==> {
                let (x, y) = ((#[trigger] provided.accounts@[i]).1, built.accounts@[i].1);
                let (u, v) = (x.storage.storage@, y.storage.storage@);
                &&& provided.accounts@[i].0@ == built.accounts@[i].0@
                &&& writes_alike(
                    x.account_info.nonce.writes@,
                    y.account_info.nonce.writes@,
                    range,
                )
                &&& writes_alike(
                    x.account_info.balance.writes@,
                    y.account_info.balance.writes@,
                    range,
                )
                &&& writes_alike(x.account_info.code.writes@, y.account_info.code.writes@, range)
                &&& distinct_keys(u)
                &&& u.len() == v.len()
                &&& forall|s: int|
                    0 <= s < u.len() ==> (#[trigger] u[s]).0@ == v[s].0@ && writes_alike(
                        u[s].1.writes@,
                        v[s].1.writes@,
                        range,
                    )
            },
    ensures
        r is Ok,
{
    lemma_alike_lists_agree(provided.accounts@, built.accounts@, range);
}

/// Ranges are accepted exactly if they lead from index 0 without a gap to `tx_count + 2`.
pub proof fn lemma_verify_ranges(
    ranges: &[Range<u64>],
    tx_count: usize,
    r: Result<(), AggregationValidationError>,
)
    requires
        call_ensures(verify_bal_ranges_complete, (ranges, tx_count), r),
    ensures
        r is Ok <==> {
            &&& ranges@.len() > 0
            &&& ranges@[0].start == 0
            &&& forall|j: int|
                0 <= j < ranges@.len() - 1 ==> (#[trigger] ranges@[j]).end == ranges@[j + 1].start
            &&& ranges@[ranges@.len() - 1].end == tx_count + 2
        },
{
    lemma_ranges_judged(ranges@, tx_count);
}

/// Gas is accepted exactly if, in every subblock whose range holds more than the pre-execution index,
/// no receipt has less cumulative gas than an earlier one.
pub proof fn lemma_verify_gas(
    outputs: &[SubblockOutput<EthereumReceipt>],
    ranges: &[Range<u64>],
    r: Result<(), AggregationValidationError>,
)
    requires
        call_ensures(verify_gas_chaining, (outputs, ranges), r),
    ensures
        r is Ok <==> forall|i: int, x: int, y: int|
            0 <= i < outputs@.len() && i < ranges@.len() && ranges@[i].start < ranges@[i].end && !(
            ranges@[i].start == 0 && ranges@[i].end == 1) && 0 <= x <= y
                < outputs@[i].receipts@.len() ==> (
            #[trigger] outputs@[i].receipts@[x]).cumulative_gas_used <= (
            #[trigger] outputs@[i].receipts@[y]).cumulative_gas_used,
{
    let views = output_views(outputs@);
    lemma_gas_judged(views, ranges@);
    assert forall|i: int, x: int|
        0 <= i < outputs@.len() && 0 <= x < outputs@[i].receipts@.len() implies (
    #[trigger] outputs@[i].receipts@[x]).cumulative_gas_used
        == views[i].receipts[x].cumulative_gas_used by {}
    if r is Ok {
        assert forall|i: int, x: int, y: int|
            0 <= i < outputs@.len() && i < ranges@.len() && ranges@[i].start < ranges@[i].end && !(
            ranges@[i].start == 0 && ranges@[i].end == 1) && 0 <= x <= y
                < outputs@[i].receipts@.len() implies (
        #[trigger] outputs@[i].receipts@[x]).cumulative_gas_used <= (
        #[trigger] outputs@[i].receipts@[y]).cumulative_gas_used by {
            assert(views[i].receipts[x].cumulative_gas_used
                <= views[i].receipts[y].cumulative_gas_used);
        }
    } else {
        let (i, x, y) = choose|i: int, x: int, y: int|
            0 <= i < views.len() && i < ranges@.len() && ranges@[i].start < ranges@[i].end && !(
            ranges@[i].start == 0 && ranges@[i].end == 1) && 0 <= x <= y < views[i].receipts.len()
                && !((#[trigger] views[i].receipts[x]).cumulative_gas_used <= (
            #[trigger] views[i].receipts[y]).cumulative_gas_used);
        assert(!(outputs@[i].receipts@[x].cumulative_gas_used
            <= outputs@[i].receipts@[y].cumulative_gas_used));
    }
}

/// Combining more outputs extends what the first of them combine to. The receipts of the later ones
/// follow, with the gas of all the earlier outputs added to their cumulative gas and nothing else
/// changed.
pub proof fn lemma_combine(
    first: &[SubblockOutput<EthereumReceipt>],
    second: &[SubblockOutput<EthereumReceipt>],
    all: &[SubblockOutput<EthereumReceipt>],
    a: (Vec<EthereumReceipt>, Bloom, Requests),
    b: (Vec<EthereumReceipt>, Bloom, Requests),
    r: (Vec<EthereumReceipt>, Bloom, Requests),
)
    requires
        all@ == first@ + second@,
        call_ensures(combine_subblock_outputs, (first,), a),
        call_ensures(combine_subblock_outputs, (second,), b),
        call_ensures(combine_subblock_outputs, (all,), r),
    ensures
        r.0@.len() == a.0@.len() + b.0@.len(),
        forall|i: int| 0 <= i < a.0@.len() ==> #[trigger] r.0@[i]@ == a.0@[i]@,
        forall|i: int|
            0 <= i < b.0@.len() ==> {
                let moved = r.0@[a.0@.len() + i];
                &&& moved.tx_type == (#[trigger] b.0@[i]).tx_type
                &&& moved.success == b.0@[i].success
                &&& moved@.logs == b.0@[i]@.logs
                &&& moved.cumulative_gas_used == b.0@[i].cumulative_gas_used + gas_offset(
                    output_views(first@),
                    first@.len() as int,
                )
            },
        b.2@.len() > 0 ==> r.2@ == b.2@,
        b.2@.len() == 0 ==> r.2@ == a.2@,
{
    let (x, y) = (output_views(first@), output_views(second@));
    assert(output_views(all@) =~= x + y);
    lemma_combine_parts(x, y);
    let (m, n) = (x.len() as int, y.len() as int);
    let whole = combined_receipts(x + y, m + n);
    assert forall|i: int| 0 <= i < r.0@.len() implies (#[trigger] r.0@[i])@ == whole[i] by {
        assert(receipt_views(r.0@)[i] == whole[i]);
    }
    assert forall|i: int| 0 <= i < a.0@.len() implies (#[trigger] a.0@[i])@ == combined_receipts(
        x,
        m,
    )[i] by {
        assert(receipt_views(a.0@)[i] == combined_receipts(x, m)[i]);
    }
    assert forall|i: int| 0 <= i < b.0@.len() implies (#[trigger] b.0@[i])@ == combined_receipts(
        y,
        n,
    )[i] by {
        assert(receipt_views(b.0@)[i] == combined_receipts(y, n)[i]);
    }
    assert(receipt_views(r.0@).len() == whole.len());
    assert(receipt_views(a.0@).len() == combined_receipts(x, m).len());
    assert(receipt_views(b.0@).len() == combined_receipts(y, n).len());
    assert forall|i: int| 0 <= i < b.0@.len() implies {
        let moved = r.0@[a.0@.len() + i];
        &&& moved.tx_type == (#[trigger] b.0@[i]).tx_type
        &&& moved.success == b.0@[i].success
        &&& moved@.logs == b.0@[i]@.logs
        &&& moved.cumulative_gas_used == b.0@[i].cumulative_gas_used + gas_offset(x, m)
    } by {
        let moved = r.0@[a.0@.len() + i];
        assert(moved@ == whole[combined_receipts(x, m).len() + i]);
        assert(b.0@[i]@ == combined_receipts(y, n)[i]);
    }
}

/// One output is combined to what it holds.
pub proof fn lemma_combine_one(
    outputs: &[SubblockOutput<EthereumReceipt>],
    r: (Vec<EthereumReceipt>, Bloom, Requests),
    at: int,
    mask: u8,
)
    requires
        outputs@.len() == 1,
        call_ensures(combine_subblock_outputs, (outputs,), r),
        0 <= at < 256,
    ensures
        receipt_views(r.0@) == receipt_views(outputs@[0].receipts@),
        r.2@ == outputs@[0].requests@,
        r.1.bytes@[at] & mask != 0 <==> outputs@[0].logs_bloom.bytes@[at] & mask != 0,
        gas_offset(output_views(outputs@), 1) == outputs@[0].cumulative_gas_used,
{
    let views = output_views(outputs@);
    assert(views =~= seq![outputs@[0]@]);
    crate::subblock::aggregator::lemma_combine_single(outputs@[0]@);
    lemma_combined_bloom_bits(views, 1, at, mask);
    if outputs@[0].logs_bloom.bytes@[at] & mask != 0 {
        assert(views[0].logs_bloom[at] & mask != 0);
    }
}

/// The combined bloom has a bit set exactly if that of one of the outputs has it set.
pub proof fn lemma_combine_blooms(
    outputs: &[SubblockOutput<EthereumReceipt>],
    r: (Vec<EthereumReceipt>, Bloom, Requests),
    at: int,
    mask: u8,
)
    requires
        call_ensures(combine_subblock_outputs, (outputs,), r),
        0 <= at < 256,
    ensures
        r.1.bytes@[at] & mask != 0 <==> exists|i: int|
            0 <= i < outputs@.len() && (#[trigger] outputs@[i]).logs_bloom.bytes@[at] & mask != 0,
{
    let views = output_views(outputs@);
    lemma_combined_bloom_bits(views, views.len() as int, at, mask);
    if exists|i: int|
        0 <= i < outputs@.len() && (#[trigger] outputs@[i]).logs_bloom.bytes@[at] & mask != 0 {
        let i = choose|i: int|
            0 <= i < outputs@.len() && (#[trigger] outputs@[i]).logs_bloom.bytes@[at] & mask != 0;
        assert(views[i].logs_bloom[at] & mask != 0);
    }
    if r.1.bytes@[at] & mask != 0 {
        let i = choose|i: int|
            0 <= i < views.len() && (#[trigger] views[i]).logs_bloom[at] & mask != 0;
        assert(outputs@[i].logs_bloom.bytes@[at] & mask != 0);
    }
}

/// Gas values fit exactly if the gas of each receipt and of each subblock, with that of all subblocks
/// before it, is a `u64`.
pub proof fn lemma_gas_values_fit(outputs: &[SubblockOutput<EthereumReceipt>], r: bool)
    requires
        call_ensures(gas_values_fit, (outputs,), r),
    ensures
        r <==> forall|i: int|
            0 <= i < outputs@.len() ==> {
                let before = gas_offset(output_views(outputs@), i);
                &&& before + (#[trigger] outputs@[i]).cumulative_gas_used <= u64::MAX
                &&& forall|k: int|
                    0 <= k < outputs@[i].receipts@.len() ==> before + (
                    #[trigger] outputs@[i].receipts@[k]).cumulative_gas_used <= u64::MAX
            },
{
    let views = output_views(outputs@);
    crate::subblock::aggregator::lemma_gas_fits(views);
    if r {
        assert forall|i: int| 0 <= i < outputs@.len() implies {
            let before = gas_offset(views, i);
            &&& before + (#[trigger] outputs@[i]).cumulative_gas_used <= u64::MAX
            &&& forall|k: int|
                0 <= k < outputs@[i].receipts@.len() ==> before + (
                #[trigger] outputs@[i].receipts@[k]).cumulative_gas_used <= u64::MAX
        } by {
            assert(views[i] == outputs@[i]@);
            assert forall|k: int| 0 <= k < outputs@[i].receipts@.len() implies gas_offset(views, i)
                + (#[trigger] outputs@[i].receipts@[k]).cumulative_gas_used <= u64::MAX by {
                assert(views[i].receipts[k].cumulative_gas_used
                    == outputs@[i].receipts@[k].cumulative_gas_used);
            }
        }
    }
    if forall|i: int|
        0 <= i < outputs@.len() ==> {
            let before = gas_offset(views, i);
            &&& before + (#[trigger] outputs@[i]).cumulative_gas_used <= u64::MAX
            &&& forall|k: int|
                0 <= k < outputs@[i].receipts@.len() ==> before + (
                #[trigger] outputs@[i].receipts@[k]).cumulative_gas_used <= u64::MAX
        } {
        assert forall|i: int| 0 <= i < views.len() implies {
            &&& gas_offset(views, i) + (#[trigger] views[i]).cumulative_gas_used <= u64::MAX
            &&& forall|k: int|
                0 <= k < views[i].receipts.len() ==> gas_offset(views, i) + (
                #[trigger] views[i].receipts[k]).cumulative_gas_used <= u64::MAX
        } by {
            assert(views[i] == outputs@[i]@);
            assert forall|k: int| 0 <= k < views[i].receipts.len() implies gas_offset(views, i) + (
            #[trigger] views[i].receipts[k]).cumulative_gas_used <= u64::MAX by {
                assert(views[i].receipts[k].cumulative_gas_used
                    == outputs@[i].receipts@[k].cumulative_gas_used);
            }
        }
    }
}

/// The hash of a block access list is accepted exactly if it is the one that the block gives, or if
/// the block gives none and Amsterdam is not active.
pub proof fn lemma_verify_bal_hash(
    computed: B256,
    expected: Option<B256>,
    amsterdam_active: bool,
    r: Result<(), AggregationValidationError>,
)
    requires
        call_ensures(verify_bal_hash, (computed, expected, amsterdam_active), r),
    ensures
        expected matches Some(hash) ==> (r is Ok <==> computed@ == hash@),
        expected is None ==> (r is Ok <==> !amsterdam_active),
        r matches Err(e) ==> e == match expected {
            Some(expected) => AggregationValidationError::BalHashMismatch { computed, expected },
            None => AggregationValidationError::MissingBalHash { computed },
        },
{
    lemma_bal_hash_judged(computed, expected, amsterdam_active);
}

/// The last stage returns the hash of the header exactly if the state root is that of the header, and
/// the hash of the block access list is the one that the block gives, or the block gives none and
/// Amsterdam is not active.
pub proof fn lemma_finish(
    stage: ValidatedAggregation,
    state_root: Result<B256, StatelessValidationError>,
    r: Result<B256, AggregationValidationError>,
)
    requires
        call_ensures(ValidatedAggregation::finish, (&stage, state_root), r),
    ensures
        ({
            let block = stage.input.block;
            &&& r is Ok <==> {
                &&& state_root is Ok
                &&& state_root->Ok_0@ == block.header@.state_root
                &&& match block.block_access_list_hash {
                    Some(hash) => has_hash(*stage.input.bal, hash),
                    None => !block.amsterdam_active,
                }
            }
            &&& r matches Ok(hash) ==> hash@ == keccak256_digest(block.header@.encoded)
        }),
{
    let hash = choose|hash: B256| #[trigger]
        has_hash(*stage.input.bal, hash) && r == final_verdict(
            stage.input.block,
            state_root,
            hash,
        );
    lemma_final_judged(stage.input.block, state_root, hash);
    lemma_bal_hash_judged(
        hash,
        stage.input.block.block_access_list_hash,
        stage.input.block.amsterdam_active,
    );
}

/// The post state of the aggregator is that of the block, and a failure is one of a lookup for it.
pub proof fn lemma_post_state<P: PreStateAccountProvider<Error = StatelessValidationError>>(
    stage: ValidatedAggregation,
    trie: P,
    r: Result<HashedPostState, AggregationValidationError>,
)
    requires
        call_ensures(ValidatedAggregation::post_state::<P>, (&stage, &trie), r),
    ensures
        r matches Ok(state) ==> block_post_state(stage.input, trie, state@),
        r matches Err(e) ==> e is StatelessValidation && block_lookup_failure(
            stage.input,
            trie,
            e->StatelessValidation_0,
        ),
{
}

/// The stages of the aggregator hand on the input that they were given.
pub proof fn lemma_aggregator_stages(
    input: AggregationInput<EthereumReceipt>,
    checked: CheckedAggregation,
    recovery: Result<(), StatelessValidationError>,
    combined: CombinedAggregation,
    validation: Result<(), String>,
    validated: ValidatedAggregation,
)
    requires
        call_ensures(
            check_aggregation,
            (input,),
            Ok::<CheckedAggregation, AggregationValidationError>(checked),
        ),
        call_ensures(
            CheckedAggregation::combine,
            (checked, recovery),
            Ok::<CombinedAggregation, AggregationValidationError>(combined),
        ),
        call_ensures(
            CombinedAggregation::validated,
            (combined, validation),
            Ok::<ValidatedAggregation, AggregationValidationError>(validated),
        ),
    ensures
        checked.input == input,
        recovery is Ok,
        combined.input == input,
        parent_verdict(byte_views(input.witness.headers@)) is Ok,
        combined.parent.header@ == parent_verdict(byte_views(input.witness.headers@))->Ok_0,
        receipt_views(combined.receipts@) == combined_receipts(
            output_views(input.subblock_outputs@),
            input.subblock_outputs@.len() as int,
        ),
        combined.requests@ == combined_requests(
            output_views(input.subblock_outputs@),
            input.subblock_outputs@.len() as int,
        ),
        validation is Ok,
        validated.input == input,
        validated.parent == combined.parent,
{
}

/// An aggregation has an outcome that the host and the input allow, and what it returns is the hash of
/// the header.
pub proof fn lemma_aggregation<H: AggregatorHost>(
    input: AggregationInput<EthereumReceipt>,
    host: H,
    r: Result<B256, AggregationValidationError>,
    checked: Option<Result<B256, AggregationValidationError>>,
)
    requires
        call_ensures(aggregation_validation::<H>, (input, &host), r),
        call_ensures(checked_aggregation_validation::<H>, (input, &host), checked),
    ensures
        aggregation_outcome(input, host, r),
        r matches Ok(hash) ==> hash@ == keccak256_digest(input.block.header@.encoded),
        checked matches Some(r) ==> aggregation_outcome(input, host, r),
        checked is None ==> reaches_combination(input, host) && !gas_fits(
            output_views(input.subblock_outputs@),
        ),
{
}

/// The place of a subblock: BAL index `i` is transaction `i - 1`, transactions beyond the last one are
/// not counted, the subblock that starts at index 0 is the first, and one that ends behind the last
/// transaction is the last.
pub proof fn lemma_subblock_position(range: Range<u64>, tx_count: usize, r: SubblockPosition)
    requires
        call_ensures(subblock_position, (&range, tx_count), r),
    ensures
        r.is_first <==> range.start == 0,
        r.is_last <==> range.end > tx_count,
        range.start == 0 ==> r.tx_start == 0,
        0 < range.start <= usize::MAX ==> r.tx_start == range.start - 1,
        range.end == 0 ==> r.tx_end == 0,
        0 < range.end <= tx_count ==> r.tx_end == range.end - 1,
        tx_count < range.end <= usize::MAX ==> r.tx_end == tx_count,
{
    lemma_position(range, tx_count);
}

/// The receipts of the transactions from `start` up to `end` are taken, in order, with the gas that
/// was used before `start` taken off and nothing else changed.
pub proof fn lemma_extract_receipts(
    receipts: &[EthereumReceipt],
    start: usize,
    end: usize,
    r: Vec<EthereumReceipt>,
)
    requires
        call_ensures(extract_receipts, (receipts, start, end), r),
    ensures
        ({
            let stop = if end < receipts@.len() {
                end as int
            } else {
                receipts@.len() as int
            };
            &&& r@.len() == if start < stop {
                stop - start
            } else {
                0
            }
            &&& forall|i: int|
                0 <= i < r@.len() ==> {
                    let whole = receipts@[start + i];
                    let base: int = if start == 0 {
                        0
                    } else {
                        receipts@[start - 1].cumulative_gas_used as int
                    };
                    &&& (#[trigger] r@[i]).tx_type == whole.tx_type
                    &&& r@[i].success == whole.success
                    &&& r@[i]@.logs == whole@.logs
                    &&& whole.cumulative_gas_used >= base ==> r@[i].cumulative_gas_used
                        == whole.cumulative_gas_used - base
                    &&& whole.cumulative_gas_used < base ==> r@[i].cumulative_gas_used == 0
                }
        }),
{
    let views = receipt_views(receipts@);
    let local = local_receipts(views, start as int, end as int);
    lemma_local_receipts(views, start as int, end as int);
    assert(receipt_views(r@).len() == local.len());
    assert forall|i: int| 0 <= i < r@.len() implies (#[trigger] r@[i])@ == local[i] by {
        assert(receipt_views(r@)[i] == local[i]);
    }
    assert forall|i: int| 0 <= i < receipts@.len() implies (#[trigger] views[i])
        == receipts@[i]@ by {}
}

/// An output holds the receipts and the requests that it is made of, the bloom of the receipts, and
/// the gas of the last of them, or none.
pub proof fn lemma_build_output(
    receipts: Vec<EthereumReceipt>,
    requests: Requests,
    r: SubblockOutput<EthereumReceipt>,
)
    requires
        call_ensures(build_output, (receipts, requests), r),
    ensures
        receipt_views(r.receipts@) == receipt_views(receipts@),
        r.requests@ == requests@,
        r.logs_bloom@ == receipts_bloom(receipt_views(receipts@)),
        receipts@.len() == 0 ==> r.cumulative_gas_used == 0,
        receipts@.len() > 0 ==> r.cumulative_gas_used == receipts@[receipts@.len()
            - 1].cumulative_gas_used,
{
    let views = receipt_views(receipts@);
    assert(r@.receipts == views);
    if receipts@.len() > 0 {
        assert(views[receipts@.len() - 1] == receipts@[receipts@.len() - 1]@);
    }
}

/// A failed execution gives its message. Any other gives the receipts of the subblock, and the
/// requests exactly if the subblock is the last.
pub proof fn lemma_subblock_output(
    position: SubblockPosition,
    execution: Execution,
    r: Result<SubblockOutput<EthereumReceipt>, SubblockValidationError>,
)
    requires
        call_ensures(subblock_output, (position, execution), r),
    ensures
        execution matches Execution::Failed { message } ==> r == Err::<
            SubblockOutput<EthereumReceipt>,
            SubblockValidationError,
        >(SubblockValidationError::ExecutionFailed(message)),
        execution matches Execution::Subblock { receipts, requests, .. } ==> {
            &&& r is Ok
            &&& receipt_views(r->Ok_0.receipts@) == receipt_views(receipts@)
            &&& position.is_last ==> r->Ok_0.requests@ == requests@
            &&& !position.is_last ==> r->Ok_0.requests@.len() == 0
        },
        execution matches Execution::Block { receipts, requests, .. } ==> {
            &&& r is Ok
            &&& receipt_views(r->Ok_0.receipts@) == local_receipts(
                receipt_views(receipts@),
                position.tx_start as int,
                position.tx_end as int,
            )
            &&& position.is_last ==> r->Ok_0.requests@ == requests@
            &&& !position.is_last ==> r->Ok_0.requests@.len() == 0
        },
{
    if r is Ok {
        assert(r->Ok_0@.receipts == receipt_views(r->Ok_0.receipts@));
        assert(r->Ok_0@.requests == r->Ok_0.requests@);
    }
}

/// A subblock is taken on exactly if its range ends at `transactions + 2` or before.
pub proof fn lemma_check_subblock(
    input: SubblockInput,
    r: Result<CheckedSubblock, SubblockValidationError>,
)
    requires
        call_ensures(check_subblock, (input,), r),
    ensures
        r is Ok <==> input.bal_range.end <= input.block.transactions@.len() + 2,
        r matches Ok(checked) ==> checked.input == input,
        r matches Err(e) ==> e == (SubblockValidationError::BalRangeOutOfBounds {
            start: input.bal_range.start,
            end: input.bal_range.end,
            max_bal_index: (input.block.transactions@.len() + 2) as u64,
        }),
{
}

/// The stages of a worker hand on the input that they were given, find the parent, and say what to
/// execute.
pub proof fn lemma_worker_stages(
    checked: CheckedSubblock,
    recovery: Result<(), StatelessValidationError>,
    prepared: PreparedSubblock,
    trie: Result<(), StatelessValidationError>,
    ready: ReadySubblock,
)
    requires
        call_ensures(
            CheckedSubblock::prepare,
            (checked, recovery),
            Ok::<PreparedSubblock, SubblockValidationError>(prepared),
        ),
        call_ensures(
            PreparedSubblock::ready,
            (prepared, trie),
            Ok::<ReadySubblock, SubblockValidationError>(ready),
        ),
    ensures
        recovery is Ok,
        prepared.input == checked.input,
        parent_verdict(byte_views(checked.input.witness.headers@)) is Ok,
        prepared.parent.header@ == parent_verdict(
            byte_views(checked.input.witness.headers@),
        )->Ok_0,
        trie is Ok,
        ready.input == checked.input,
        ready.position == position_of(
            checked.input.bal_range,
            checked.input.block.transactions@.len() as usize,
        ),
        ready.start_bal_index == checked.input.bal_range.start,
{
}

/// The withdrawals of the block are processed by a last subblock, and by no other.
pub proof fn lemma_withdrawals(ready: ReadySubblock, r: Option<&Vec<Vec<u8>>>)
    requires
        call_ensures(ReadySubblock::withdrawals, (&ready,), r),
    ensures
        r is Some <==> ready.position.is_last && ready.input.block.withdrawals is Some,
        r is Some ==> *r->0 == ready.input.block.withdrawals->0,
{
}

/// A subblock has an outcome that the host and the input allow.
pub proof fn lemma_subblock<H: WorkerHost>(
    input: SubblockInput,
    host: H,
    r: Result<SubblockOutput<EthereumReceipt>, SubblockValidationError>,
    ready: ReadySubblock,
    execution: Execution,
    end: Result<SubblockOutput<EthereumReceipt>, SubblockValidationError>,
)
    requires
        call_ensures(subblock_validation::<H>, (input, &host), r),
        call_ensures(ReadySubblock::finish, (&ready, execution), end),
    ensures
        subblock_outcome(input, host, r),
        finished(ready.input, execution, end),
{
}

} // verus!
