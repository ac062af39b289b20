//! Comparison of the block access list that an execution built with the one that was provided.

use crate::bal::{AccountBal, AccountInfoBal, Bal, BalWrites, StorageBal};
use crate::map::{
    distinct_keys, entry_of, find_entry, index_entries, is_index, lemma_entries_map_dom,
    lemma_entry_of, OrderedMap,
};
use crate::primitives::{Address, FixedBytes, B256, U256};
use crate::subblock::error::SubblockValidationError;
use std::ops::Range;
use vstd::prelude::*;

verus! {

/// Values that can be compared by what they hold.
trait SameContent: View + Sized {
    /// Whether two values hold the same.
    fn same(&self, other: &Self) -> (r: bool)
        ensures
            r == (self@ == other@),
    ;
}

impl SameContent for u64 {
    fn same(&self, other: &Self) -> (r: bool) {
        *self == *other
    }
}

impl<const N: usize> SameContent for FixedBytes<N> {
    fn same(&self, other: &Self) -> (r: bool) {
        *self == *other
    }
}

/// Whether two byte strings are equal.
fn same_bytes(a: &Vec<u8>, b: &Vec<u8>) -> (r: bool)
    ensures
        r == (a@ == b@),
{
    if a.len() != b.len() {
        return false;
    }
    let mut i: usize = 0;
    while i < a.len()
        invariant
            i <= a.len(),
            a.len() == b.len(),
            forall|j: int| 0 <= j < i ==> a@[j] == b@[j],
        decreases a.len() - i,
    {
        if a[i] != b[i] {
            return false;
        }
        i += 1;
    }
    assert(a@ =~= b@);
    true
}

impl SameContent for (B256, Vec<u8>) {
    fn same(&self, other: &Self) -> (r: bool) {
        self.0 == other.0 && same_bytes(&self.1, &other.1)
    }
}

/// What the writes at the BAL indices of `range` hold, in order.
pub open spec fn writes_in<T: View>(writes: Seq<(u64, T)>, range: Range<u64>) -> Seq<(u64, T::V)>
    decreases writes.len(),
{
    if writes.len() == 0 {
        Seq::empty()
    } else {
        let rest = writes_in(writes.drop_last(), range);
        let last = writes.last();
        if range.start <= last.0 && last.0 < range.end {
            rest.push((last.0, last.1@))
        } else {
            rest
        }
    }
}

/// Two lists of writes agree on the BAL indices of `range`.
pub open spec fn writes_agree<T: View>(
    a: Seq<(u64, T)>,
    b: Seq<(u64, T)>,
    range: Range<u64>,
) -> bool {
    writes_in(a, range) == writes_in(b, range)
}

/// The writes to the nonce of an account; none, if it is not in the list.
pub open spec fn nonce_writes(account: Option<AccountBal>) -> Seq<(u64, u64)> {
    match account {
        Some(account) => account.account_info.nonce.writes@,
        None => Seq::empty(),
    }
}

/// The writes to the balance of an account; none, if it is not in the list.
pub open spec fn balance_writes(account: Option<AccountBal>) -> Seq<(u64, U256)> {
    match account {
        Some(account) => account.account_info.balance.writes@,
        None => Seq::empty(),
    }
}

/// The writes to the code of an account; none, if it is not in the list.
pub open spec fn code_writes(account: Option<AccountBal>) -> Seq<(u64, (B256, Vec<u8>))> {
    match account {
        Some(account) => account.account_info.code.writes@,
        None => Seq::empty(),
    }
}

/// The slots of an account; none, if it is not in the list.
pub open spec fn slots_of(account: Option<AccountBal>) -> Seq<(U256, BalWrites<U256>)> {
    match account {
        Some(account) => account.storage.storage@,
        None => Seq::empty(),
    }
}

/// The writes to a slot; none, if it is not in the list.
pub open spec fn slot_writes(slots: Seq<(U256, BalWrites<U256>)>, slot: Seq<u8>) -> Seq<(u64, U256)> {
    match entry_of(slots, slot) {
        Some(writes) => writes.writes@,
        None => Seq::empty(),
    }
}

/// Two records of an account agree on the BAL indices of `range`, in every field and slot.
pub open spec fn account_agrees(
    a: Option<AccountBal>,
    b: Option<AccountBal>,
    range: Range<u64>,
) -> bool {
    &&& writes_agree(nonce_writes(a), nonce_writes(b), range)
    &&& writes_agree(balance_writes(a), balance_writes(b), range)
    &&& writes_agree(code_writes(a), code_writes(b), range)
    &&& forall|slot: Seq<u8>|
        writes_agree(
            #[trigger] slot_writes(slots_of(a), slot),
            slot_writes(slots_of(b), slot),
            range,
        )
}

/// Two block access lists agree on the BAL indices of `range`, for every account.
pub open spec fn bal_agrees(
    a: Seq<(Address, AccountBal)>,
    b: Seq<(Address, AccountBal)>,
    range: Range<u64>,
) -> bool {
    forall|address: Seq<u8>|
        account_agrees(#[trigger] entry_of(a, address), entry_of(b, address), range)
}

/// The writes of one list before `n` that lie in the range, told by their positions.
spec fn positions_hold<T: View>(
    writes: Seq<(u64, T)>,
    range: Range<u64>,
    n: int,
    positions: Seq<usize>,
) -> bool {
    &&& positions.len() == writes_in(writes.take(n), range).len()
    &&& forall|i: int|
        0 <= i < positions.len() ==> (#[trigger] positions[i]) < n && writes_in(
            writes.take(n),
            range,
        )[i] == (writes[positions[i] as int].0, writes[positions[i] as int].1@)
}

/// The positions of the writes that lie in the range.
fn positions_in<T: View>(writes: &Vec<(u64, T)>, range: &Range<u64>) -> (r: Vec<usize>)
    ensures
        positions_hold(writes@, *range, writes@.len() as int, r@),
{
    let mut positions: Vec<usize> = Vec::new();
    let mut i: usize = 0;
    proof {
        assert(writes@.take(0) =~= Seq::empty());
    }
    while i < writes.len()
        invariant
            i <= writes.len(),
            positions_hold(writes@, *range, i as int, positions@),
        decreases writes.len() - i,
    {
        proof {
            assert(writes@.take(i + 1).drop_last() =~= writes@.take(i as int));
            assert(writes@.take(i + 1).last() == writes@[i as int]);
        }
        if range.start <= writes[i].0 && writes[i].0 < range.end {
            positions.push(i);
        }
        i += 1;
    }
    positions
}

/// Whether two lists of writes agree on the BAL indices of `range`.
fn compare_writes<T: SameContent>(
    a: &Vec<(u64, T)>,
    b: &Vec<(u64, T)>,
    range: &Range<u64>,
) -> (r: bool)
    ensures
        r == writes_agree(a@, b@, *range),
{
    let in_a: Vec<usize> = positions_in(a, range);
    let in_b: Vec<usize> = positions_in(b, range);
    proof {
        assert(a@.take(a@.len() as int) =~= a@);
        assert(b@.take(b@.len() as int) =~= b@);
    }
    let ghost left = writes_in(a@, *range);
    let ghost right = writes_in(b@, *range);
    if in_a.len() != in_b.len() {
        return false;
    }
    let mut i: usize = 0;
    while i < in_a.len()
        invariant
            i <= in_a.len(),
            in_a.len() == in_b.len(),
            left.len() == in_a.len(),
            right.len() == in_b.len(),
            positions_hold(a@, *range, a@.len() as int, in_a@),
            positions_hold(b@, *range, b@.len() as int, in_b@),
            a@.take(a@.len() as int) == a@,
            b@.take(b@.len() as int) == b@,
            left == writes_in(a@, *range),
            right == writes_in(b@, *range),
            forall|j: int| 0 <= j < i ==> left[j] == right[j],
        decreases in_a.len() - i,
    {
        let p: usize = in_a[i];
        let q: usize = in_b[i];
        assert(left[i as int] == (a@[p as int].0, a@[p as int].1@));
        assert(right[i as int] == (b@[q as int].0, b@[q as int].1@));
        if a[p].0 != b[q].0 || !a[p].1.same(&b[q].1) {
            return false;
        }
        i += 1;
    }
    assert(left =~= right);
    true
}

/// Whether the slots `over` have writes in `a` and `b` that agree.
fn compare_slots_of(
    over: &Vec<(U256, BalWrites<U256>)>,
    a: &Vec<(U256, BalWrites<U256>)>,
    b: &Vec<(U256, BalWrites<U256>)>,
    range: &Range<u64>,
) -> (r: bool)
    ensures
        r == forall|i: int|
            0 <= i < over@.len() ==> writes_agree(
                slot_writes(a@, (#[trigger] over@[i]).0@),
                slot_writes(b@, over@[i].0@),
                *range,
            ),
{
    let index_a: OrderedMap<32, usize> = index_entries(a);
    let index_b: OrderedMap<32, usize> = index_entries(b);
    let none: BalWrites<U256> = BalWrites { writes: Vec::new() };
    assert(none.writes@ =~= Seq::empty());
    let mut i: usize = 0;
    while i < over.len()
        invariant
            i <= over.len(),
            is_index(a@, index_a@),
            is_index(b@, index_b@),
            none.writes@ == Seq::<(u64, U256)>::empty(),
            forall|j: int|
                0 <= j < i ==> writes_agree(
                    slot_writes(a@, (#[trigger] over@[j]).0@),
                    slot_writes(b@, over@[j].0@),
                    *range,
                ),
        decreases over.len() - i,
    {
        let slot = &over[i].0;
        let in_a: &BalWrites<U256> = match find_entry(a, &index_a, slot) {
            Some(writes) => writes,
            None => &none,
        };
        let in_b: &BalWrites<U256> = match find_entry(b, &index_b, slot) {
            Some(writes) => writes,
            None => &none,
        };
        assert(in_a.writes@ == slot_writes(a@, over@[i as int].0@));
        assert(in_b.writes@ == slot_writes(b@, over@[i as int].0@));
        if !compare_writes(&in_a.writes, &in_b.writes, range) {
            return false;
        }
        i += 1;
    }
    true
}

/// Whether the slots of an account agree.
fn compare_slots(
    a: &Vec<(U256, BalWrites<U256>)>,
    b: &Vec<(U256, BalWrites<U256>)>,
    range: &Range<u64>,
) -> (r: bool)
    ensures
        r == forall|slot: Seq<u8>|
            writes_agree(#[trigger] slot_writes(a@, slot), slot_writes(b@, slot), *range),
{
    let r: bool = compare_slots_of(a, a, b, range) && compare_slots_of(b, a, b, range);
    proof {
        if r {
            assert forall|slot: Seq<u8>|
                writes_agree(#[trigger] slot_writes(a@, slot), slot_writes(b@, slot), *range) by {
                lemma_entries_map_dom(a@, slot);
                lemma_entries_map_dom(b@, slot);
                if entry_of(a@, slot) is Some {
                    let i = choose|i: int| 0 <= i < a@.len() && #[trigger] a@[i].0@ == slot;
                    assert(slot_writes(a@, a@[i].0@) == slot_writes(a@, slot));
                } else if entry_of(b@, slot) is Some {
                    let i = choose|i: int| 0 <= i < b@.len() && #[trigger] b@[i].0@ == slot;
                    assert(slot_writes(b@, b@[i].0@) == slot_writes(b@, slot));
                }
            }
        }
    }
    r
}

/// Whether two records of an account agree.
fn compare_accounts(a: &AccountBal, b: &AccountBal, range: &Range<u64>) -> (r: bool)
    ensures
        r == account_agrees(Some(*a), Some(*b), *range),
{
    assert(slots_of(Some(*a)) == a.storage.storage@);
    assert(slots_of(Some(*b)) == b.storage.storage@);
    compare_writes(&a.account_info.nonce.writes, &b.account_info.nonce.writes, range)
        && compare_writes(&a.account_info.balance.writes, &b.account_info.balance.writes, range)
        && compare_writes(&a.account_info.code.writes, &b.account_info.code.writes, range)
        && compare_slots(&a.storage.storage, &b.storage.storage, range)
}

/// The record of an account that was not touched.
fn untouched() -> (r: AccountBal)
    ensures
        nonce_writes(Some(r)) == nonce_writes(None),
        balance_writes(Some(r)) == balance_writes(None),
        code_writes(Some(r)) == code_writes(None),
        slots_of(Some(r)) == slots_of(None),
{
    AccountBal {
        account_info: AccountInfoBal {
            nonce: BalWrites { writes: Vec::new() },
            balance: BalWrites { writes: Vec::new() },
            code: BalWrites { writes: Vec::new() },
        },
        storage: StorageBal { storage: Vec::new() },
    }
}

/// Whether the accounts `over` have records in `a` and `b` that agree.
fn compare_accounts_of(
    over: &Vec<(Address, AccountBal)>,
    a: &Vec<(Address, AccountBal)>,
    b: &Vec<(Address, AccountBal)>,
    range: &Range<u64>,
) -> (r: bool)
    ensures
        r == forall|i: int|
            0 <= i < over@.len() ==> account_agrees(
                entry_of(a@, (#[trigger] over@[i]).0@),
                entry_of(b@, over@[i].0@),
                *range,
            ),
{
    let index_a: OrderedMap<20, usize> = index_entries(a);
    let index_b: OrderedMap<20, usize> = index_entries(b);
    let none: AccountBal = untouched();
    let mut i: usize = 0;
    while i < over.len()
        invariant
            i <= over.len(),
            is_index(a@, index_a@),
            is_index(b@, index_b@),
            nonce_writes(Some(none)) == nonce_writes(None),
            balance_writes(Some(none)) == balance_writes(None),
            code_writes(Some(none)) == code_writes(None),
            slots_of(Some(none)) == slots_of(None),
            forall|j: int|
                0 <= j < i ==> account_agrees(
                    entry_of(a@, (#[trigger] over@[j]).0@),
                    entry_of(b@, over@[j].0@),
                    *range,
                ),
        decreases over.len() - i,
    {
        let address = &over[i].0;
        let in_a: &AccountBal = match find_entry(a, &index_a, address) {
            Some(account) => account,
            None => &none,
        };
        let in_b: &AccountBal = match find_entry(b, &index_b, address) {
            Some(account) => account,
            None => &none,
        };
        let same: bool = compare_accounts(in_a, in_b, range);
        proof {
            let key = over@[i as int].0@;
            lemma_same_records(
                entry_of(a@, key),
                Some(*in_a),
                entry_of(b@, key),
                Some(*in_b),
                *range,
            );
        }
        if !same {
            return false;
        }
        i += 1;
    }
    true
}

/// Whether records agree depends on their writes alone.
proof fn lemma_same_records(
    a: Option<AccountBal>,
    a2: Option<AccountBal>,
    b: Option<AccountBal>,
    b2: Option<AccountBal>,
    range: Range<u64>,
)
    requires
        nonce_writes(a) == nonce_writes(a2),
        balance_writes(a) == balance_writes(a2),
        code_writes(a) == code_writes(a2),
        slots_of(a) == slots_of(a2),
        nonce_writes(b) == nonce_writes(b2),
        balance_writes(b) == balance_writes(b2),
        code_writes(b) == code_writes(b2),
        slots_of(b) == slots_of(b2),
    ensures
        account_agrees(a, b, range) == account_agrees(a2, b2, range),
{
}

/// What is said of an execution that did not do what the block access list records.
pub open spec fn mismatch_message() -> Seq<char> {
    "execution does not match the block access list"@
}

/// Checks that the block access list that an execution built agrees with the provided one on the
/// BAL indices of `range`: the writes to every nonce, balance, code and slot at these indices are the
/// same in both. Writes at other indices and reads are not compared.
pub fn check_built_bal(provided: &Bal, built: &Bal, range: &Range<u64>) -> (r: Result<
    (),
    SubblockValidationError,
>)
    ensures
        r is Ok <==> bal_agrees(provided.accounts@, built.accounts@, *range),
        r matches Err(e) ==> e is BalError && e->BalError_0@ == mismatch_message(),
{
    let a = &provided.accounts;
    let b = &built.accounts;
    let r: bool = compare_accounts_of(a, a, b, range) && compare_accounts_of(b, a, b, range);
    proof {
        if r {
            assert forall|address: Seq<u8>|
                account_agrees(
                    #[trigger] entry_of(a@, address),
                    entry_of(b@, address),
                    *range,
                ) by {
                lemma_entries_map_dom(a@, address);
                lemma_entries_map_dom(b@, address);
                if entry_of(a@, address) is Some {
                    let i = choose|i: int| 0 <= i < a@.len() && #[trigger] a@[i].0@ == address;
                    assert(entry_of(a@, a@[i].0@) == entry_of(a@, address));
                } else if entry_of(b@, address) is Some {
                    let i = choose|i: int| 0 <= i < b@.len() && #[trigger] b@[i].0@ == address;
                    assert(entry_of(b@, b@[i].0@) == entry_of(b@, address));
                }
            }
        }
    }
    if r {
        Ok(())
    } else {
        Err(
            SubblockValidationError::BalError(
                "execution does not match the block access list".to_owned(),
            ),
        )
    }
}

/// Agreement on a range is an equivalence.
pub proof fn lemma_bal_agrees(
    a: Seq<(Address, AccountBal)>,
    b: Seq<(Address, AccountBal)>,
    c: Seq<(Address, AccountBal)>,
    range: Range<u64>,
)
    ensures
        bal_agrees(a, a, range),
        bal_agrees(a, b, range) ==> bal_agrees(b, a, range),
        bal_agrees(a, b, range) && bal_agrees(b, c, range) ==> bal_agrees(a, c, range),
{
    if bal_agrees(a, b, range) {
        assert forall|address: Seq<u8>|
            account_agrees(#[trigger] entry_of(b, address), entry_of(a, address), range) by {
            let (x, y) = (entry_of(a, address), entry_of(b, address));
            assert(account_agrees(x, y, range));
            assert forall|slot: Seq<u8>|
                writes_agree(
                    #[trigger] slot_writes(slots_of(y), slot),
                    slot_writes(slots_of(x), slot),
                    range,
                ) by {
                assert(writes_agree(
                    slot_writes(slots_of(x), slot),
                    slot_writes(slots_of(y), slot),
                    range,
                ));
            }
        }
    }
    if bal_agrees(a, b, range) && bal_agrees(b, c, range) {
        assert forall|address: Seq<u8>|
            account_agrees(#[trigger] entry_of(a, address), entry_of(c, address), range) by {
            let (x, y, z) = (entry_of(a, address), entry_of(b, address), entry_of(c, address));
            assert(account_agrees(x, y, range));
            assert(account_agrees(y, z, range));
            assert forall|slot: Seq<u8>|
                writes_agree(
                    #[trigger] slot_writes(slots_of(x), slot),
                    slot_writes(slots_of(z), slot),
                    range,
                ) by {
                assert(writes_agree(
                    slot_writes(slots_of(y), slot),
                    slot_writes(slots_of(z), slot),
                    range,
                ));
            }
        }
    }
}

/// Lists that agree on a range agree on every range within it.
pub proof fn lemma_agrees_within(
    a: Seq<(Address, AccountBal)>,
    b: Seq<(Address, AccountBal)>,
    range: Range<u64>,
    inner: Range<u64>,
)
    requires
        bal_agrees(a, b, range),
        range.start <= inner.start,
        inner.end <= range.end,
    ensures
        bal_agrees(a, b, inner),
{
    assert forall|address: Seq<u8>|
        account_agrees(#[trigger] entry_of(a, address), entry_of(b, address), inner) by {
        let (x, y) = (entry_of(a, address), entry_of(b, address));
        assert(account_agrees(x, y, range));
        lemma_writes_within(nonce_writes(x), nonce_writes(y), range, inner);
        lemma_writes_within(balance_writes(x), balance_writes(y), range, inner);
        lemma_writes_within(code_writes(x), code_writes(y), range, inner);
        assert forall|slot: Seq<u8>|
            writes_agree(
                #[trigger] slot_writes(slots_of(x), slot),
                slot_writes(slots_of(y), slot),
                inner,
            ) by {
            lemma_writes_within(
                slot_writes(slots_of(x), slot),
                slot_writes(slots_of(y), slot),
                range,
                inner,
            );
        }
    }
}

/// The contents of writes at the BAL indices of `range`.
spec fn contents_in<C>(contents: Seq<(u64, C)>, range: Range<u64>) -> Seq<(u64, C)>
    decreases contents.len(),
{
    if contents.len() == 0 {
        Seq::empty()
    } else {
        let rest = contents_in(contents.drop_last(), range);
        let last = contents.last();
        if range.start <= last.0 && last.0 < range.end {
            rest.push(last)
        } else {
            rest
        }
    }
}

/// The writes of an inner range are found among those of the outer one.
proof fn lemma_contents_within<T: View>(
    writes: Seq<(u64, T)>,
    range: Range<u64>,
    inner: Range<u64>,
)
    requires
        range.start <= inner.start,
        inner.end <= range.end,
    ensures
        writes_in(writes, inner) == contents_in(writes_in(writes, range), inner),
    decreases writes.len(),
{
    if writes.len() > 0 {
        let rest = writes.drop_last();
        let last = writes.last();
        lemma_contents_within(rest, range, inner);
        if range.start <= last.0 && last.0 < range.end {
            let outer = writes_in(rest, range);
            assert(outer.push((last.0, last.1@)).drop_last() =~= outer);
        }
    }
}

proof fn lemma_writes_within<T: View>(
    a: Seq<(u64, T)>,
    b: Seq<(u64, T)>,
    range: Range<u64>,
    inner: Range<u64>,
)
    requires
        writes_agree(a, b, range),
        range.start <= inner.start,
        inner.end <= range.end,
    ensures
        writes_agree(a, b, inner),
{
    lemma_contents_within(a, range, inner);
    lemma_contents_within(b, range, inner);
}

/// A write is compared exactly if its BAL index lies in the range, whatever that index is.
pub proof fn lemma_single_write_in<T: View>(write: (u64, T), range: Range<u64>)
    ensures
        range.start <= write.0 < range.end ==> writes_in(seq![write], range) == seq![
            (write.0, write.1@),
        ],
        !(range.start <= write.0 < range.end) ==> writes_in(seq![write], range) == Seq::<
            (u64, T::V),
        >::empty(),
{
    assert(seq![write].drop_last() =~= Seq::empty());
    assert(writes_in(seq![write].drop_last(), range) =~= Seq::empty());
    if range.start <= write.0 < range.end {
        assert(writes_in(seq![write], range) =~= seq![(write.0, write.1@)]);
    }
}

/// What is compared of writes is what is compared of their parts, one after the other.
pub proof fn lemma_writes_in_split<T: View>(
    a: Seq<(u64, T)>,
    b: Seq<(u64, T)>,
    range: Range<u64>,
)
    ensures
        writes_in(a + b, range) == writes_in(a, range) + writes_in(b, range),
    decreases b.len(),
{
    if b.len() == 0 {
        assert(a + b =~= a);
        assert(writes_in(a, range) + writes_in(b, range) =~= writes_in(a, range));
    } else {
        lemma_writes_in_split(a, b.drop_last(), range);
        assert((a + b).drop_last() =~= a + b.drop_last());
        assert((a + b).last() == b.last());
        assert(writes_in(a + b, range) =~= writes_in(a, range) + writes_in(b, range));
    }
}

/// Every write at a BAL index of the range is compared, and nothing else is.
pub proof fn lemma_writes_in<T: View>(writes: Seq<(u64, T)>, range: Range<u64>)
    ensures
        forall|p: int|
            0 <= p < writes.len() && range.start <= (#[trigger] writes[p]).0 < range.end
                ==> writes_in(writes, range).contains((writes[p].0, writes[p].1@)),
        forall|w: (u64, T::V)| #[trigger]
            writes_in(writes, range).contains(w) ==> range.start <= w.0 < range.end && exists|p: int|
                0 <= p < writes.len() && (#[trigger] writes[p]).0 == w.0 && writes[p].1@ == w.1,
    decreases writes.len(),
{
    let compared = writes_in(writes, range);
    if writes.len() > 0 {
        let n = writes.len() - 1;
        let rest = writes.drop_last();
        lemma_writes_in(rest, range);
        let before = writes_in(rest, range);
        assert(range.start <= writes[n].0 < range.end ==> compared[compared.len() - 1] == (
            writes[n].0,
            writes[n].1@,
        ));
        assert forall|p: int|
            0 <= p < writes.len() && range.start <= (#[trigger] writes[p]).0
                < range.end implies compared.contains((writes[p].0, writes[p].1@)) by {
            if p < n {
                assert(rest[p] == writes[p]);
                let i = choose|i: int|
                    0 <= i < before.len() && before[i] == (writes[p].0, writes[p].1@);
                assert(compared[i] == before[i]);
            }
        }
        assert forall|w: (u64, T::V)| #[trigger] compared.contains(w) implies range.start <= w.0
            < range.end && exists|p: int|
            0 <= p < writes.len() && (#[trigger] writes[p]).0 == w.0 && writes[p].1@ == w.1 by {
            let i = choose|i: int| 0 <= i < compared.len() && compared[i] == w;
            if i < before.len() {
                assert(before[i] == w);
                assert(before.contains(w));
                let p = choose|p: int|
                    0 <= p < rest.len() && (#[trigger] rest[p]).0 == w.0 && rest[p].1@ == w.1;
                assert(writes[p] == rest[p]);
            } else {
                assert(writes[n].0 == w.0);
            }
        }
    }
}

/// Where lists of writes agree on a range, a write at an index of the range is in one exactly if it
/// is in the other.
pub proof fn lemma_agreeing_write<T: View>(
    a: Seq<(u64, T)>,
    b: Seq<(u64, T)>,
    range: Range<u64>,
    p: int,
)
    requires
        writes_agree(a, b, range),
        0 <= p < a.len(),
        range.start <= a[p].0 < range.end,
    ensures
        exists|q: int| 0 <= q < b.len() && (#[trigger] b[q]).0 == a[p].0 && b[q].1@ == a[p].1@,
{
    lemma_writes_in(a, range);
    lemma_writes_in(b, range);
    assert(writes_in(b, range).contains((a[p].0, a[p].1@)));
}

/// `b` holds every write of `a` whose BAL index lies in the range, with the same value.
pub open spec fn writes_found<T: View>(
    a: Seq<(u64, T)>,
    b: Seq<(u64, T)>,
    range: Range<u64>,
) -> bool {
    forall|p: int|
        0 <= p < a.len() && range.start <= (#[trigger] a[p]).0 < range.end ==> exists|q: int|
            0 <= q < b.len() && (#[trigger] b[q]).0 == a[p].0 && b[q].1@ == a[p].1@
}

/// No BAL index of the writes lies in the range.
pub open spec fn writes_outside<T>(a: Seq<(u64, T)>, range: Range<u64>) -> bool {
    forall|p: int| 0 <= p < a.len() ==> !(range.start <= (#[trigger] a[p]).0 < range.end)
}

proof fn lemma_writes_found<T: View>(a: Seq<(u64, T)>, b: Seq<(u64, T)>, range: Range<u64>)
    requires
        writes_agree(a, b, range),
    ensures
        writes_found(a, b, range),
        b.len() == 0 ==> writes_outside(a, range),
{
    assert forall|p: int|
        0 <= p < a.len() && range.start <= (#[trigger] a[p]).0 < range.end implies exists|q: int|
        0 <= q < b.len() && (#[trigger] b[q]).0 == a[p].0 && b[q].1@ == a[p].1@ by {
        lemma_agreeing_write(a, b, range, p);
    }
}

/// Where two block access lists without repeated addresses and slots agree on a range, then of an
/// account that both hold, every write to its nonce, its balance, its code and each of its slots
/// that one list has at a BAL index of the range is in the other list too, with the same value. A
/// slot that the other list does not hold has no write there.
pub proof fn lemma_agreeing_account(
    a: Seq<(Address, AccountBal)>,
    b: Seq<(Address, AccountBal)>,
    range: Range<u64>,
    i: int,
    j: int,
)
    requires
        bal_agrees(a, b, range) || bal_agrees(b, a, range),
        distinct_keys(a),
        distinct_keys(b),
        0 <= i < a.len(),
        0 <= j < b.len(),
        a[i].0@ == b[j].0@,
        distinct_keys(a[i].1.storage.storage@),
        distinct_keys(b[j].1.storage.storage@),
    ensures
        writes_found(
            a[i].1.account_info.nonce.writes@,
            b[j].1.account_info.nonce.writes@,
            range,
        ),
        writes_found(
            a[i].1.account_info.balance.writes@,
            b[j].1.account_info.balance.writes@,
            range,
        ),
        writes_found(
            a[i].1.account_info.code.writes@,
            b[j].1.account_info.code.writes@,
            range,
        ),
        forall|s: int, t: int|
            0 <= s < a[i].1.storage.storage@.len() && 0 <= t < b[j].1.storage.storage@.len() && (
            #[trigger] a[i].1.storage.storage@[s]).0@ == (#[trigger] b[j].1.storage.storage@[t]).0@
                ==> writes_found(
                a[i].1.storage.storage@[s].1.writes@,
                b[j].1.storage.storage@[t].1.writes@,
                range,
            ),
        forall|s: int|
            0 <= s < a[i].1.storage.storage@.len() && (forall|t: int|
                0 <= t < b[j].1.storage.storage@.len() ==> (
                #[trigger] b[j].1.storage.storage@[t]).0@ != a[i].1.storage.storage@[s].0@)
                ==> writes_outside((#[trigger] a[i].1.storage.storage@[s]).1.writes@, range),
{
    lemma_bal_agrees(b, a, a, range);
    lemma_distinct_entry(a, i);
    lemma_distinct_entry(b, j);
    let (x, y) = (a[i].1, b[j].1);
    assert(account_agrees(entry_of(a, a[i].0@), entry_of(b, a[i].0@), range));
    assert(account_agrees(Some(x), Some(y), range));
    lemma_writes_found(x.account_info.nonce.writes@, y.account_info.nonce.writes@, range);
    lemma_writes_found(x.account_info.balance.writes@, y.account_info.balance.writes@, range);
    lemma_writes_found(x.account_info.code.writes@, y.account_info.code.writes@, range);
    let (u, v) = (x.storage.storage@, y.storage.storage@);
    assert forall|s: int, t: int|
        0 <= s < u.len() && 0 <= t < v.len() && (#[trigger] u[s]).0@ == (
        #[trigger] v[t]).0@ implies writes_found(u[s].1.writes@, v[t].1.writes@, range) by {
        lemma_distinct_entry(u, s);
        lemma_distinct_entry(v, t);
        assert(slots_of(Some(x)) == u && slots_of(Some(y)) == v);
        assert(writes_agree(slot_writes(u, u[s].0@), slot_writes(v, u[s].0@), range));
        lemma_writes_found(u[s].1.writes@, v[t].1.writes@, range);
    }
    assert forall|s: int|
        0 <= s < u.len() && (forall|t: int|
            0 <= t < v.len() ==> (#[trigger] v[t]).0@ != u[s].0@) implies writes_outside(
        (#[trigger] u[s]).1.writes@,
        range,
    ) by {
        lemma_distinct_entry(u, s);
        lemma_entry_of(v, u[s].0@);
        assert(slots_of(Some(x)) == u && slots_of(Some(y)) == v);
        assert(writes_agree(slot_writes(u, u[s].0@), slot_writes(v, u[s].0@), range));
        lemma_writes_found(u[s].1.writes@, slot_writes(v, u[s].0@), range);
    }
}

/// Where two block access lists without repeated addresses and slots agree on a range, an account
/// that only one of them holds has no write at a BAL index of the range.
pub proof fn lemma_agreeing_absent_account(
    a: Seq<(Address, AccountBal)>,
    b: Seq<(Address, AccountBal)>,
    range: Range<u64>,
    i: int,
)
    requires
        bal_agrees(a, b, range) || bal_agrees(b, a, range),
        distinct_keys(a),
        0 <= i < a.len(),
        forall|j: int| 0 <= j < b.len() ==> (#[trigger] b[j]).0@ != a[i].0@,
        distinct_keys(a[i].1.storage.storage@),
    ensures
        writes_outside(a[i].1.account_info.nonce.writes@, range),
        writes_outside(a[i].1.account_info.balance.writes@, range),
        writes_outside(a[i].1.account_info.code.writes@, range),
        forall|s: int|
            0 <= s < a[i].1.storage.storage@.len() ==> writes_outside(
                (#[trigger] a[i].1.storage.storage@[s]).1.writes@,
                range,
            ),
{
    lemma_bal_agrees(b, a, a, range);
    lemma_distinct_entry(a, i);
    lemma_entry_of(b, a[i].0@);
    let x = a[i].1;
    assert(account_agrees(entry_of(a, a[i].0@), entry_of(b, a[i].0@), range));
    lemma_writes_found(x.account_info.nonce.writes@, nonce_writes(None), range);
    lemma_writes_found(x.account_info.balance.writes@, balance_writes(None), range);
    lemma_writes_found(x.account_info.code.writes@, code_writes(None), range);
    let u = x.storage.storage@;
    assert forall|s: int| 0 <= s < u.len() implies writes_outside(
        (#[trigger] u[s]).1.writes@,
        range,
    ) by {
        lemma_distinct_entry(u, s);
        assert(slots_of(Some(x)) == u);
        lemma_entry_of(slots_of(None), u[s].0@);
        assert(writes_agree(slot_writes(u, u[s].0@), slot_writes(slots_of(None), u[s].0@), range));
        lemma_writes_found(u[s].1.writes@, slot_writes(slots_of(None), u[s].0@), range);
    }
}

proof fn lemma_distinct_entry<const N: usize, V>(s: Seq<(FixedBytes<N>, V)>, i: int)
    requires
        distinct_keys(s),
        0 <= i < s.len(),
    ensures
        entry_of(s, s[i].0@) == Some(s[i].1),
{
    assert forall|j: int| i < j < s.len() implies (#[trigger] s[j]).0@ != s[i].0@ by {
        assert(s[i].0@ != s[j].0@);
    }
    lemma_entry_of(s, s[i].0@);
}

/// Two lists of writes are alike at the BAL indices of the range: they have the same length, and at
/// each place the same write, unless both have there a write at another index.
pub open spec fn writes_alike<T: View>(
    a: Seq<(u64, T)>,
    b: Seq<(u64, T)>,
    range: Range<u64>,
) -> bool {
    &&& a.len() == b.len()
    &&& forall|p: int|
        0 <= p < a.len() ==> {
            ||| (#[trigger] a[p]).0 == b[p].0 && a[p].1@ == b[p].1@
            ||| !(range.start <= a[p].0 < range.end) && !(range.start <= b[p].0 < range.end)
        }
}

/// Lists that are alike at the indices of a range agree on it.
pub proof fn lemma_alike_writes_agree<T: View>(
    a: Seq<(u64, T)>,
    b: Seq<(u64, T)>,
    range: Range<u64>,
)
    requires
        writes_alike(a, b, range),
    ensures
        writes_agree(a, b, range),
    decreases a.len(),
{
    if a.len() > 0 {
        let n = a.len() - 1;
        assert forall|p: int| 0 <= p < n implies {
            ||| (#[trigger] a.drop_last()[p]).0 == b.drop_last()[p].0 && a.drop_last()[p].1@
                == b.drop_last()[p].1@
            ||| !(range.start <= a.drop_last()[p].0 < range.end) && !(range.start
                <= b.drop_last()[p].0 < range.end)
        } by {
            assert(a[p] == a.drop_last()[p] && b[p] == b.drop_last()[p]);
        }
        lemma_alike_writes_agree(a.drop_last(), b.drop_last(), range);
        assert(a[n] == a.last() && b[n] == b.last());
    }
}

/// Block access lists whose writes differ at BAL indices outside a range only agree on it: such
/// writes are not held against an execution.
pub proof fn lemma_alike_lists_agree(
    a: Seq<(Address, AccountBal)>,
    b: Seq<(Address, AccountBal)>,
    range: Range<u64>,
)
    requires
        distinct_keys(a),
        a.len() == b.len(),
        forall|i: int|
            0 <= i < a.len() ==> {
                let (x, y) = ((#[trigger] a[i]).1, b[i].1);
                let (u, v) = (x.storage.storage@, y.storage.storage@);
                &&& a[i].0@ == b[i].0@
                &&& writes_alike(
                    x.account_info.nonce.writes@,
                    y.account_info.nonce.writes@,
                    range,
                )
                &&& writes_alike(
                    x.account_info.balance.writes@,
                    y.account_info.balance.writes@,
                    range,
                )
                &&& writes_alike(x.account_info.code.writes@, y.account_info.code.writes@, range)
                &&& distinct_keys(u)
                &&& u.len() == v.len()
                &&& forall|s: int|
                    0 <= s < u.len() ==> (#[trigger] u[s]).0@ == v[s].0@ && writes_alike(
                        u[s].1.writes@,
                        v[s].1.writes@,
                        range,
                    )
            },
    ensures
        bal_agrees(a, b, range),
{
    assert forall|j: int, k: int| 0 <= j < k < b.len() implies (#[trigger] b[j].0@) != (
    #[trigger] b[k].0@) by {
        assert(a[j].0@ == b[j].0@ && a[k].0@ == b[k].0@);
    }
    assert forall|address: Seq<u8>|
        account_agrees(#[trigger] entry_of(a, address), entry_of(b, address), range) by {
        lemma_entry_of(a, address);
        lemma_entry_of(b, address);
        if exists|i: int| 0 <= i < a.len() && (#[trigger] a[i]).0@ == address {
            let i = choose|i: int| 0 <= i < a.len() && (#[trigger] a[i]).0@ == address;
            lemma_distinct_entry(a, i);
            lemma_distinct_entry(b, i);
            let (x, y) = (a[i].1, b[i].1);
            let (u, v) = (x.storage.storage@, y.storage.storage@);
            lemma_alike_writes_agree(
                x.account_info.nonce.writes@,
                y.account_info.nonce.writes@,
                range,
            );
            lemma_alike_writes_agree(
                x.account_info.balance.writes@,
                y.account_info.balance.writes@,
                range,
            );
            lemma_alike_writes_agree(
                x.account_info.code.writes@,
                y.account_info.code.writes@,
                range,
            );
            assert forall|j: int, k: int| 0 <= j < k < v.len() implies (#[trigger] v[j].0@) != (
            #[trigger] v[k].0@) by {
                assert(u[j].0@ == v[j].0@ && u[k].0@ == v[k].0@);
            }
            assert forall|slot: Seq<u8>|
                writes_agree(#[trigger] slot_writes(u, slot), slot_writes(v, slot), range) by {
                lemma_entry_of(u, slot);
                lemma_entry_of(v, slot);
                if exists|s: int| 0 <= s < u.len() && (#[trigger] u[s]).0@ == slot {
                    let s = choose|s: int| 0 <= s < u.len() && (#[trigger] u[s]).0@ == slot;
                    lemma_distinct_entry(u, s);
                    lemma_distinct_entry(v, s);
                    lemma_alike_writes_agree(u[s].1.writes@, v[s].1.writes@, range);
                } else {
                    assert forall|s: int| 0 <= s < v.len() implies (#[trigger] v[s]).0@ != slot by {
                        assert(u[s].0@ == v[s].0@);
                    }
                }
            }
            assert(slots_of(Some(x)) == u && slots_of(Some(y)) == v);
            assert(account_agrees(Some(x), Some(y), range));
        } else {
            assert forall|i: int| 0 <= i < b.len() implies (#[trigger] b[i]).0@ != address by {
                assert(a[i].0@ == b[i].0@);
            }
        }
    }
}

/// An account without a write at a BAL index of the range makes no difference.
pub proof fn lemma_untouched_account_agrees(
    a: Seq<(Address, AccountBal)>,
    account: (Address, AccountBal),
    range: Range<u64>,
)
    requires
        forall|i: int| 0 <= i < a.len() ==> (#[trigger] a[i]).0@ != account.0@,
        writes_outside(account.1.account_info.nonce.writes@, range),
        writes_outside(account.1.account_info.balance.writes@, range),
        writes_outside(account.1.account_info.code.writes@, range),
        forall|s: int|
            0 <= s < account.1.storage.storage@.len() ==> writes_outside(
                (#[trigger] account.1.storage.storage@[s]).1.writes@,
                range,
            ),
    ensures
        bal_agrees(a, a.push(account), range),
{
    let b = a.push(account);
    assert(b.drop_last() =~= a);
    lemma_entry_of(a, account.0@);
    let x = account.1;
    assert forall|address: Seq<u8>|
        account_agrees(#[trigger] entry_of(a, address), entry_of(b, address), range) by {
        if address == account.0@ {
            assert(entry_of(b, address) == Some(x));
            lemma_nothing_in(x.account_info.nonce.writes@, range);
            lemma_nothing_in(x.account_info.balance.writes@, range);
            lemma_nothing_in(x.account_info.code.writes@, range);
            let u = x.storage.storage@;
            assert forall|slot: Seq<u8>|
                writes_agree(
                    #[trigger] slot_writes(slots_of(None), slot),
                    slot_writes(slots_of(Some(x)), slot),
                    range,
                ) by {
                lemma_entry_of(slots_of(None), slot);
                lemma_entries_map_dom(u, slot);
                if entry_of(u, slot) is Some {
                    let s = lemma_last_entry(u, slot);
                    lemma_nothing_in(u[s].1.writes@, range);
                }
            }
        } else {
            assert(entry_of(b, address) == entry_of(a, address));
            lemma_bal_agrees(a, a, a, range);
            assert(account_agrees(entry_of(a, address), entry_of(a, address), range));
        }
    }
}

/// The entry that counts for a key.
proof fn lemma_last_entry<const N: usize, V>(s: Seq<(FixedBytes<N>, V)>, key: Seq<u8>) -> (i: int)
    requires
        entry_of(s, key) is Some,
    ensures
        0 <= i < s.len(),
        entry_of(s, key) == Some(s[i].1),
    decreases s.len(),
{
    if s.last().0@ == key {
        s.len() - 1
    } else {
        let i = lemma_last_entry(s.drop_last(), key);
        assert(s.drop_last()[i] == s[i]);
        i
    }
}

proof fn lemma_nothing_in<T: View>(writes: Seq<(u64, T)>, range: Range<u64>)
    requires
        writes_outside(writes, range),
    ensures
        writes_in(writes, range) == Seq::<(u64, T::V)>::empty(),
{
    lemma_writes_in(writes, range);
    if writes_in(writes, range).len() > 0 {
        assert(writes_in(writes, range).contains(writes_in(writes, range)[0]));
    }
    assert(writes_in(writes, range) =~= Seq::empty());
}

} // verus!
