//! Block access lists (EIP-7928).

use crate::map::distinct_keys;
use crate::primitives::{Address, FixedBytes, B256, U256};
use alloy_eip7928::compute_block_access_list_hash;
use alloy_primitives::{B256 as Digest, U256 as Word};
use revm::state::Bytecode as Code;
use revm_state::bal::{AccountBal as ListAccount, Bal as ListBal, BalWrites as ListWrites};
use vstd::prelude::*;

verus! {

/// The writes to one state item, each with the BAL index at which it happened.
#[derive(Clone, Debug)]
pub struct BalWrites<T> {
    /// The writes, in the order of their BAL indices.
    pub writes: Vec<(u64, T)>,
}

/// Writes to the account info of one account.
#[derive(Clone, Debug)]
pub struct AccountInfoBal {
    /// Writes to the nonce.
    pub nonce: BalWrites<u64>,
    /// Writes to the balance.
    pub balance: BalWrites<U256>,
    /// Writes to the code: its hash and its bytes.
    pub code: BalWrites<(B256, Vec<u8>)>,
}

/// Reads and writes of storage slots of one account. A slot without writes was read only.
#[derive(Clone, Debug)]
pub struct StorageBal {
    /// The slots, each with its writes.
    pub storage: Vec<(U256, BalWrites<U256>)>,
}

/// What a block did to one account.
#[derive(Clone, Debug)]
pub struct AccountBal {
    /// Account info.
    pub account_info: AccountInfoBal,
    /// Storage.
    pub storage: StorageBal,
}

/// The accesses of a whole block.
#[derive(Clone, Debug)]
pub struct Bal {
    /// The accounts that the block touched.
    pub accounts: Vec<(Address, AccountBal)>,
}

/// The BAL indices of writes.
pub open spec fn write_indices<T>(writes: Seq<(u64, T)>) -> Seq<u64> {
    writes.map_values(|w: (u64, T)| w.0)
}

/// How many of the leading indices are below `bal_index`.
pub open spec fn leading_below(indices: Seq<u64>, bal_index: u64) -> int
    decreases indices.len(),
{
    if indices.len() == 0 || indices[0] >= bal_index {
        0
    } else {
        1 + leading_below(indices.drop_first(), bal_index)
    }
}

/// The indices never fall.
pub open spec fn indices_ascend(indices: Seq<u64>) -> bool {
    forall|i: int, j: int|
        0 <= i <= j < indices.len() ==> (#[trigger] indices[i]) <= (#[trigger] indices[j])
}

/// A lookup at `bal_index` among writes at `indices` can have one outcome only: the indices never
/// fall and at most one of them is `bal_index`, or there are so few that they are walked in order.
pub open spec fn determinate(indices: Seq<u64>, bal_index: u64) -> bool {
    ||| indices.len() < 5
    ||| {
        &&& indices_ascend(indices)
        &&& forall|i: int, j: int|
            0 <= i < j < indices.len() ==> !((#[trigger] indices[i]) == bal_index && (
            #[trigger] indices[j]) == bal_index)
    }
}

/// The position of the last of the leading writes whose index is below `bal_index`.
pub open spec fn position_before(indices: Seq<u64>, bal_index: u64) -> Option<int> {
    let n = leading_below(indices, bal_index);
    if n == 0 {
        None
    } else {
        Some(n - 1)
    }
}

/// The value that the writes leave for a read at `bal_index`: a read sees the writes of earlier
/// indices only.
pub open spec fn value_before<T>(writes: Seq<(u64, T)>, bal_index: u64) -> Option<T> {
    match position_before(write_indices(writes), bal_index) {
        Some(p) => Some(writes[p].1),
        None => None,
    }
}

/// `value` is what a lookup of `writes` at `bal_index` can give: the value before `bal_index` where
/// the lookup is determinate, else the value of some write or nothing.
pub open spec fn lookup_result<T>(
    writes: Seq<(u64, T)>,
    bal_index: u64,
    value: Option<T>,
) -> bool {
    &&& determinate(write_indices(writes), bal_index) ==> value == value_before(writes, bal_index)
    &&& value matches Some(v) ==> exists|p: int| 0 <= p < writes.len() && #[trigger] writes[p].1
        == v
}

/// Calls `revm_state::bal::BalWrites::get` on writes of which each holds its own position.
///
/// `get` walks fewer than five writes in order and stops at the first whose index is not below
/// `bal_index`; it looks into more by binary search, and takes the write before the place that the
/// search gives. Where the indices fall somewhere, or several are `bal_index`, the search promises
/// no more than a place, so that nothing is said of which write is taken.
#[verifier::external_body]
fn bal_writes_get(indices: &Vec<u64>, bal_index: u64) -> (r: Option<usize>)
    ensures
        r matches Some(p) ==> p < indices@.len(),
        determinate(indices@, bal_index) ==> match position_before(indices@, bal_index) {
            Some(p) => r == Some(p as usize),
            None => r is None,
        },
{
    let writes: Vec<(u64, usize)> = indices.iter().copied().zip(0..indices.len()).collect();
    revm_state::bal::BalWrites { writes }.get(bal_index)
}

proof fn lemma_leading_below(indices: Seq<u64>, bal_index: u64)
    ensures
        0 <= leading_below(indices, bal_index) <= indices.len(),
        forall|i: int|
            0 <= i < leading_below(indices, bal_index) ==> (#[trigger] indices[i]) < bal_index,
        leading_below(indices, bal_index) < indices.len() ==> indices[leading_below(
            indices,
            bal_index,
        )] >= bal_index,
    decreases indices.len(),
{
    if indices.len() > 0 && indices[0] < bal_index {
        let rest = indices.drop_first();
        lemma_leading_below(rest, bal_index);
        assert forall|i: int| 0 <= i < leading_below(indices, bal_index) implies (
        #[trigger] indices[i]) < bal_index by {
            if i > 0 {
                assert(rest[i - 1] < bal_index);
            }
        }
    }
}

impl<T> BalWrites<T> {
    /// The value that a read at `bal_index` sees, where an earlier index wrote one.
    pub fn get(&self, bal_index: u64) -> (r: Option<&T>)
        ensures
            lookup_result(
                self.writes@,
                bal_index,
                match r {
                    Some(v) => Some(*v),
                    None => None,
                },
            ),
    {
        let mut indices: Vec<u64> = Vec::new();
        let mut i: usize = 0;
        while i < self.writes.len()
            invariant
                i <= self.writes.len(),
                indices@ == write_indices(self.writes@).take(i as int),
            decreases self.writes.len() - i,
        {
            indices.push(self.writes[i].0);
            proof {
                let all = write_indices(self.writes@);
                assert(all.take(i + 1) =~= all.take(i as int).push(all[i as int]));
            }
            i += 1;
        }
        proof {
            assert(write_indices(self.writes@).take(i as int) =~= write_indices(self.writes@));
            lemma_leading_below(indices@, bal_index);
        }
        match bal_writes_get(&indices, bal_index) {
            Some(p) => {
                let ghost value = self.writes@[p as int].1;
                assert(self.writes@[p as int].1 == value);
                Some(&self.writes[p].1)
            },
            None => None,
        }
    }
}

/// What a block access list changes of one account up to some BAL index.
#[derive(Clone, Debug)]
pub struct AccountChanges {
    /// The nonce, where it was written.
    pub nonce: Option<u64>,
    /// The balance, where it was written.
    pub balance: Option<U256>,
    /// The hash of the code, where the code was written.
    pub code_hash: Option<B256>,
    /// The slots that were written, each with its value.
    pub storage: Vec<(U256, U256)>,
}

/// What [`AccountChanges`] holds.
#[verifier::ext_equal]
pub struct ChangesView {
    pub nonce: Option<u64>,
    pub balance: Option<U256>,
    pub code_hash: Option<B256>,
    pub storage: Seq<(U256, U256)>,
}

impl View for AccountChanges {
    type V = ChangesView;

    open spec fn view(&self) -> ChangesView {
        ChangesView {
            nonce: self.nonce,
            balance: self.balance,
            code_hash: self.code_hash,
            storage: self.storage@,
        }
    }
}

/// The hashes of written code.
pub open spec fn code_hash_writes(writes: Seq<(u64, (B256, Vec<u8>))>) -> Seq<(u64, B256)> {
    writes.map_values(|w: (u64, (B256, Vec<u8>))| (w.0, w.1.0))
}

/// `changes` are the slots for which a lookup gave a value, in order, each with that value.
pub open spec fn storage_lookups(
    slots: Seq<(U256, BalWrites<U256>)>,
    bal_index: u64,
    changes: Seq<(U256, U256)>,
) -> bool
    decreases slots.len(),
{
    if slots.len() == 0 {
        changes.len() == 0
    } else {
        let slot = slots.last();
        ||| {
            &&& lookup_result(slot.1.writes@, bal_index, None)
            &&& storage_lookups(slots.drop_last(), bal_index, changes)
        }
        ||| {
            &&& changes.len() > 0
            &&& changes.last().0 == slot.0
            &&& lookup_result(slot.1.writes@, bal_index, Some(changes.last().1))
            &&& storage_lookups(slots.drop_last(), bal_index, changes.drop_last())
        }
    }
}

/// `changes` are what lookups at `bal_index` can give for `account`.
pub open spec fn account_lookups(
    account: AccountBal,
    bal_index: u64,
    changes: ChangesView,
) -> bool {
    let info = account.account_info;
    &&& lookup_result(info.nonce.writes@, bal_index, changes.nonce)
    &&& lookup_result(info.balance.writes@, bal_index, changes.balance)
    &&& lookup_result(code_hash_writes(info.code.writes@), bal_index, changes.code_hash)
    &&& storage_lookups(account.storage.storage@, bal_index, changes.storage)
}

/// `changes` are what lookups at `bal_index` can give for the accounts of a block access list.
pub open spec fn bal_lookups(
    accounts: Seq<(Address, AccountBal)>,
    bal_index: u64,
    changes: Seq<(Address, ChangesView)>,
) -> bool {
    &&& changes.len() == accounts.len()
    &&& forall|i: int|
        0 <= i < accounts.len() ==> (#[trigger] changes[i]).0 == accounts[i].0 && account_lookups(
            accounts[i].1,
            bal_index,
            changes[i].1,
        )
}

/// Every lookup of the account at `bal_index` is determinate.
pub open spec fn account_determinate(account: AccountBal, bal_index: u64) -> bool {
    let info = account.account_info;
    &&& determinate(write_indices(info.nonce.writes@), bal_index)
    &&& determinate(write_indices(info.balance.writes@), bal_index)
    &&& determinate(write_indices(info.code.writes@), bal_index)
    &&& forall|i: int|
        0 <= i < account.storage.storage@.len() ==> determinate(
            write_indices((#[trigger] account.storage.storage@[i]).1.writes@),
            bal_index,
        )
}

/// Every lookup of the block access list at `bal_index` is determinate.
pub open spec fn bal_determinate(accounts: Seq<(Address, AccountBal)>, bal_index: u64) -> bool {
    forall|i: int|
        0 <= i < accounts.len() ==> account_determinate((#[trigger] accounts[i]).1, bal_index)
}

/// The slots written before `bal_index`, in order, each with the value before `bal_index`.
pub open spec fn storage_before(
    slots: Seq<(U256, BalWrites<U256>)>,
    bal_index: u64,
) -> Seq<(U256, U256)>
    decreases slots.len(),
{
    if slots.len() == 0 {
        Seq::empty()
    } else {
        let rest = storage_before(slots.drop_last(), bal_index);
        match value_before(slots.last().1.writes@, bal_index) {
            Some(value) => rest.push((slots.last().0, value)),
            None => rest,
        }
    }
}

/// What the writes before `bal_index` leave of an account.
pub open spec fn changes_before(account: AccountBal, bal_index: u64) -> ChangesView {
    let info = account.account_info;
    ChangesView {
        nonce: value_before(info.nonce.writes@, bal_index),
        balance: value_before(info.balance.writes@, bal_index),
        code_hash: value_before(code_hash_writes(info.code.writes@), bal_index),
        storage: storage_before(account.storage.storage@, bal_index),
    }
}

/// What the writes before `bal_index` leave of each account.
pub open spec fn bal_changes_before(
    accounts: Seq<(Address, AccountBal)>,
    bal_index: u64,
) -> Seq<(Address, ChangesView)> {
    accounts.map_values(|a: (Address, AccountBal)| (a.0, changes_before(a.1, bal_index)))
}

/// The views of changes.
pub open spec fn changes_views(s: Seq<(Address, AccountChanges)>) -> Seq<(Address, ChangesView)> {
    s.map_values(|c: (Address, AccountChanges)| (c.0, c.1@))
}

proof fn lemma_storage_lookups(
    slots: Seq<(U256, BalWrites<U256>)>,
    bal_index: u64,
    changes: Seq<(U256, U256)>,
)
    requires
        storage_lookups(slots, bal_index, changes),
        forall|i: int|
            0 <= i < slots.len() ==> determinate(
                write_indices((#[trigger] slots[i]).1.writes@),
                bal_index,
            ),
    ensures
        changes == storage_before(slots, bal_index),
    decreases slots.len(),
{
    if slots.len() == 0 {
        assert(changes =~= Seq::empty());
    } else {
        let rest = slots.drop_last();
        assert forall|i: int| 0 <= i < rest.len() implies determinate(
            write_indices((#[trigger] rest[i]).1.writes@),
            bal_index,
        ) by {
            assert(rest[i] == slots[i]);
        }
        assert(determinate(write_indices(slots[slots.len() - 1].1.writes@), bal_index));
        match value_before(slots.last().1.writes@, bal_index) {
            Some(value) => {
                lemma_storage_lookups(rest, bal_index, changes.drop_last());
                assert(changes =~= changes.drop_last().push(changes.last()));
            },
            None => {
                lemma_storage_lookups(rest, bal_index, changes);
            },
        }
    }
}

/// Determinate lookups give what the writes before `bal_index` leave.
pub proof fn lemma_bal_lookups(
    accounts: Seq<(Address, AccountBal)>,
    bal_index: u64,
    changes: Seq<(Address, ChangesView)>,
)
    requires
        bal_lookups(accounts, bal_index, changes),
        bal_determinate(accounts, bal_index),
    ensures
        changes == bal_changes_before(accounts, bal_index),
{
    assert forall|i: int| 0 <= i < accounts.len() implies changes[i] == bal_changes_before(
        accounts,
        bal_index,
    )[i] by {
        let account = accounts[i].1;
        let given = changes[i].1;
        assert(changes[i].0 == accounts[i].0);
        assert(account_determinate(account, bal_index));
        lemma_storage_lookups(account.storage.storage@, bal_index, given.storage);
        assert(write_indices(code_hash_writes(account.account_info.code.writes@)) =~= write_indices(
            account.account_info.code.writes@,
        ));
        assert(given =~= changes_before(account, bal_index));
    }
    assert(changes =~= bal_changes_before(accounts, bal_index));
}

/// Looks a code hash up.
fn code_hash_at(code: &BalWrites<(B256, Vec<u8>)>, bal_index: u64) -> (r: Option<B256>)
    ensures
        lookup_result(code_hash_writes(code.writes@), bal_index, r),
{
    let ghost writes = code.writes@;
    let ghost hashes = code_hash_writes(writes);
    proof {
        assert(write_indices(hashes) =~= write_indices(writes));
        lemma_leading_below(write_indices(writes), bal_index);
    }
    match code.get(bal_index) {
        Some(found) => {
            proof {
                let p = choose|p: int| 0 <= p < writes.len() && #[trigger] writes[p].1 == *found;
                assert(hashes[p].1 == found.0);
            }
            Some(found.0)
        },
        None => None,
    }
}

/// Looks all slots up.
fn storage_at(slots: &Vec<(U256, BalWrites<U256>)>, bal_index: u64) -> (r: Vec<(U256, U256)>)
    ensures
        storage_lookups(slots@, bal_index, r@),
{
    let mut changes: Vec<(U256, U256)> = Vec::new();
    let mut i: usize = 0;
    while i < slots.len()
        invariant
            i <= slots.len(),
            storage_lookups(slots@.take(i as int), bal_index, changes@),
        decreases slots.len() - i,
    {
        let ghost before = changes@;
        proof {
            assert(slots@.take(i + 1).drop_last() =~= slots@.take(i as int));
            assert(slots@.take(i + 1).last() == slots@[i as int]);
        }
        if let Some(value) = slots[i].1.get(bal_index) {
            changes.push((slots[i].0, *value));
            proof {
                assert(changes@.drop_last() =~= before);
            }
        }
        i += 1;
    }
    proof {
        assert(slots@.take(i as int) =~= slots@);
    }
    changes
}

impl Bal {
    /// What the writes before `bal_index` leave of each account.
    pub fn changes_at(&self, bal_index: u64) -> (r: Vec<(Address, AccountChanges)>)
        ensures
            bal_lookups(self.accounts@, bal_index, changes_views(r@)),
            bal_determinate(self.accounts@, bal_index) ==> changes_views(r@) == bal_changes_before(
                self.accounts@,
                bal_index,
            ),
    {
        let mut changes: Vec<(Address, AccountChanges)> = Vec::new();
        let mut i: usize = 0;
        while i < self.accounts.len()
            invariant
                i <= self.accounts.len(),
                changes.len() == i,
                forall|j: int|
                    0 <= j < i ==> (#[trigger] changes@[j]).0 == self.accounts@[j].0
                        && account_lookups(self.accounts@[j].1, bal_index, changes@[j].1@),
            decreases self.accounts.len() - i,
        {
            let account = &self.accounts[i].1;
            let nonce: Option<u64> = match account.account_info.nonce.get(bal_index) {
                Some(nonce) => Some(*nonce),
                None => None,
            };
            let balance: Option<U256> = match account.account_info.balance.get(bal_index) {
                Some(balance) => Some(*balance),
                None => None,
            };
            let code_hash: Option<B256> = code_hash_at(&account.account_info.code, bal_index);
            let storage: Vec<(U256, U256)> = storage_at(&account.storage.storage, bal_index);
            let change = AccountChanges { nonce, balance, code_hash, storage };
            assert(account_lookups(self.accounts@[i as int].1, bal_index, change@));
            changes.push((self.accounts[i].0, change));
            i += 1;
        }
        proof {
            let views = changes_views(changes@);
            assert forall|j: int| 0 <= j < self.accounts@.len() implies (#[trigger] views[j]).0
                == self.accounts@[j].0 && account_lookups(
                self.accounts@[j].1,
                bal_index,
                views[j].1,
            ) by {
                assert(changes@[j].0 == self.accounts@[j].0);
            }
            if bal_determinate(self.accounts@, bal_index) {
                lemma_bal_lookups(self.accounts@, bal_index, views);
            }
        }
        changes
    }
}

/// The contents of an account of a block access list: its address, the writes to nonce, balance and
/// code, and the slots with their writes.
pub type AccountContents = (
    Seq<u8>,
    Seq<(u64, u64)>,
    Seq<(u64, Seq<u8>)>,
    Seq<(u64, Seq<u8>)>,
    Seq<(Seq<u8>, Seq<(u64, Seq<u8>)>)>,
);

/// The writes of words, each with its bytes.
pub open spec fn word_writes(writes: Seq<(u64, U256)>) -> Seq<(u64, Seq<u8>)> {
    writes.map_values(|w: (u64, U256)| (w.0, w.1@))
}

/// The writes of code, each with the bytes of the code.
pub open spec fn code_writes(writes: Seq<(u64, (B256, Vec<u8>))>) -> Seq<(u64, Seq<u8>)> {
    writes.map_values(|w: (u64, (B256, Vec<u8>))| (w.0, w.1.1@))
}

/// The slots, each with its writes.
pub open spec fn slot_writes(slots: Seq<(U256, BalWrites<U256>)>) -> Seq<
    (Seq<u8>, Seq<(u64, Seq<u8>)>),
> {
    slots.map_values(|s: (U256, BalWrites<U256>)| (s.0@, word_writes(s.1.writes@)))
}

/// The contents of a block access list.
pub open spec fn bal_contents(accounts: Seq<(Address, AccountBal)>) -> Seq<AccountContents> {
    accounts.map_values(
        |a: (Address, AccountBal)|
            (
                a.0@,
                a.1.account_info.nonce.writes@,
                word_writes(a.1.account_info.balance.writes@),
                code_writes(a.1.account_info.code.writes@),
                slot_writes(a.1.storage.storage@),
            ),
    )
}

/// Writes of words in plain bytes.
type PlainWrites = Vec<(u64, [u8; 32])>;

/// An account of a block access list in plain bytes.
type PlainAccount = (
    [u8; 20],
    Vec<(u64, u64)>,
    PlainWrites,
    Vec<(u64, Vec<u8>)>,
    Vec<([u8; 32], PlainWrites)>,
);

/// What writes of plain words hold.
spec fn plain_writes(writes: Seq<(u64, [u8; 32])>) -> Seq<(u64, Seq<u8>)> {
    writes.map_values(|w: (u64, [u8; 32])| (w.0, w.1@))
}

/// What writes of plain code hold.
spec fn plain_code(writes: Seq<(u64, Vec<u8>)>) -> Seq<(u64, Seq<u8>)> {
    writes.map_values(|w: (u64, Vec<u8>)| (w.0, w.1@))
}

/// What plain slots hold.
spec fn plain_slots(slots: Seq<([u8; 32], PlainWrites)>) -> Seq<(Seq<u8>, Seq<(u64, Seq<u8>)>)> {
    slots.map_values(|s: ([u8; 32], PlainWrites)| (s.0@, plain_writes(s.1@)))
}

/// What plain accounts hold.
spec fn plain_contents(accounts: Seq<PlainAccount>) -> Seq<AccountContents> {
    accounts.map_values(
        |a: PlainAccount| (a.0@, a.1@, plain_writes(a.2@), plain_code(a.3@), plain_slots(a.4@)),
    )
}

/// The hash of the block access list that holds `accounts`, as
/// `alloy_eip7928::compute_block_access_list_hash` computes it.
pub uninterp spec fn bal_list_hash(
    accounts: Seq<
        (
            Seq<u8>,
            Seq<(u64, u64)>,
            Seq<(u64, Seq<u8>)>,
            Seq<(u64, Seq<u8>)>,
            Seq<(Seq<u8>, Seq<(u64, Seq<u8>)>)>,
        ),
    >,
) -> Seq<u8>;

/// Calls `alloy_eip7928::compute_block_access_list_hash`, the Keccak-256 digest of the RLP encoding
/// of a list, on the list that `revm_state::bal::Bal::into_alloy_bal` makes of the accounts. The list
/// holds the accounts in the order of their addresses, and the slots of each in the order of their
/// keys, those without a write apart from the others; of code it holds the bytes, which
/// `revm::state::Bytecode::new_legacy` keeps whatever they are, and no hash. So the result is a
/// function of the contents alone, named [`bal_list_hash`].
#[verifier::external_body]
fn compute_hash(accounts: Vec<PlainAccount>) -> (r: B256)
    ensures
        r@ == bal_list_hash(plain_contents(accounts@)),
{
    let words = |w: PlainWrites| ListWrites {
        writes: w.into_iter().map(|(i, v)| (i, Word::from_be_bytes(v))).collect(),
    };
    let mut list = ListBal::new();
    for (address, nonce, balance, code, slots) in accounts {
        let mut to = ListAccount::default();
        to.nonce.writes = nonce;
        to.balance = words(balance);
        for (i, c) in code { to.code.writes.push((i, (Digest::ZERO, Code::new_legacy(c.into())))); }
        for (s, w) in slots { to.storage.storage.insert(Word::from_be_bytes(s), words(w)); }
        list.accounts.insert(address.into(), to);
    }
    FixedBytes { bytes: compute_block_access_list_hash(&list.into_alloy_bal()).0 }
}

/// Takes the bytes of written words.
fn to_plain_writes(writes: &Vec<(u64, U256)>) -> (r: PlainWrites)
    ensures
        plain_writes(r@) == word_writes(writes@),
{
    let mut plain: PlainWrites = Vec::new();
    let mut i: usize = 0;
    while i < writes.len()
        invariant
            i <= writes.len(),
            plain.len() == i,
            forall|j: int|
                0 <= j < i ==> (#[trigger] plain@[j]).0 == writes@[j].0 && plain@[j].1@
                    == writes@[j].1@,
        decreases writes.len() - i,
    {
        plain.push((writes[i].0, writes[i].1.bytes));
        i += 1;
    }
    proof {
        assert(plain_writes(plain@) =~= word_writes(writes@));
    }
    plain
}

/// Takes the bytes of written code.
fn to_plain_code(writes: &Vec<(u64, (B256, Vec<u8>))>) -> (r: Vec<(u64, Vec<u8>)>)
    ensures
        plain_code(r@) == code_writes(writes@),
{
    let mut plain: Vec<(u64, Vec<u8>)> = Vec::new();
    let mut i: usize = 0;
    while i < writes.len()
        invariant
            i <= writes.len(),
            plain.len() == i,
            forall|j: int|
                0 <= j < i ==> (#[trigger] plain@[j]).0 == writes@[j].0 && plain@[j].1@
                    == writes@[j].1.1@,
        decreases writes.len() - i,
    {
        let code: Vec<u8> = writes[i].1.1.clone();
        proof {
            assert(code@ =~= writes@[i as int].1.1@);
        }
        plain.push((writes[i].0, code));
        i += 1;
    }
    proof {
        assert(plain_code(plain@) =~= code_writes(writes@));
    }
    plain
}

/// Takes the bytes of slots.
fn to_plain_slots(slots: &Vec<(U256, BalWrites<U256>)>) -> (r: Vec<([u8; 32], PlainWrites)>)
    ensures
        plain_slots(r@) == slot_writes(slots@),
{
    let mut plain: Vec<([u8; 32], PlainWrites)> = Vec::new();
    let mut i: usize = 0;
    while i < slots.len()
        invariant
            i <= slots.len(),
            plain.len() == i,
            forall|j: int|
                0 <= j < i ==> (#[trigger] plain@[j]).0@ == slots@[j].0@ && plain_writes(
                    plain@[j].1@,
                ) == word_writes(slots@[j].1.writes@),
        decreases slots.len() - i,
    {
        plain.push((slots[i].0.bytes, to_plain_writes(&slots[i].1.writes)));
        i += 1;
    }
    proof {
        assert(plain_slots(plain@) =~= slot_writes(slots@));
    }
    plain
}

/// The nonce writes of an account.
fn to_plain_nonces(writes: &Vec<(u64, u64)>) -> (r: Vec<(u64, u64)>)
    ensures
        r@ == writes@,
{
    let mut plain: Vec<(u64, u64)> = Vec::new();
    let mut i: usize = 0;
    while i < writes.len()
        invariant
            i <= writes.len(),
            plain@ == writes@.take(i as int),
        decreases writes.len() - i,
    {
        plain.push(writes[i]);
        proof {
            assert(writes@.take(i + 1) =~= writes@.take(i as int).push(writes@[i as int]));
        }
        i += 1;
    }
    proof {
        assert(writes@.take(i as int) =~= writes@);
    }
    plain
}

/// `hash` is the hash of the block access list.
pub open spec fn has_hash(bal: Bal, hash: B256) -> bool {
    hash@ == bal_list_hash(bal_contents(bal.accounts@))
}

impl Bal {
    /// The hash of the block access list (EIP-7928).
    pub fn hash(&self) -> (r: B256)
        ensures
            has_hash(*self, r),
    {
        let ghost contents = bal_contents(self.accounts@);
        let mut plain: Vec<PlainAccount> = Vec::new();
        let mut i: usize = 0;
        while i < self.accounts.len()
            invariant
                i <= self.accounts.len(),
                contents == bal_contents(self.accounts@),
                plain_contents(plain@) == contents.take(i as int),
            decreases self.accounts.len() - i,
        {
            let account = &self.accounts[i].1;
            let next: PlainAccount = (
                self.accounts[i].0.bytes,
                to_plain_nonces(&account.account_info.nonce.writes),
                to_plain_writes(&account.account_info.balance.writes),
                to_plain_code(&account.account_info.code.writes),
                to_plain_slots(&account.storage.storage),
            );
            proof {
                assert(plain_contents(plain@.push(next)) =~= plain_contents(plain@).push(
                    contents[i as int],
                ));
                assert(contents.take(i + 1) =~= contents.take(i as int).push(contents[i as int]));
            }
            plain.push(next);
            i += 1;
        }
        proof {
            assert(contents.take(i as int) =~= contents);
        }
        compute_hash(plain)
    }
}

/// The indices strictly ascend, as EIP-7928 asks of the writes to one item.
pub open spec fn indices_strictly_ascend(indices: Seq<u64>) -> bool {
    forall|i: int, j: int|
        0 <= i < j < indices.len() ==> (#[trigger] indices[i]) < (#[trigger] indices[j])
}

/// The writes to every item of an account strictly ascend.
pub open spec fn account_ascends(account: AccountBal) -> bool {
    let info = account.account_info;
    &&& indices_strictly_ascend(write_indices(info.nonce.writes@))
    &&& indices_strictly_ascend(write_indices(info.balance.writes@))
    &&& indices_strictly_ascend(write_indices(info.code.writes@))
    &&& forall|i: int|
        0 <= i < account.storage.storage@.len() ==> indices_strictly_ascend(
            write_indices((#[trigger] account.storage.storage@[i]).1.writes@),
        )
}

/// Every lookup of a block access list whose writes strictly ascend is determinate.
pub proof fn lemma_ascending_determinate(accounts: Seq<(Address, AccountBal)>, bal_index: u64)
    requires
        forall|i: int| 0 <= i < accounts.len() ==> account_ascends((#[trigger] accounts[i]).1),
    ensures
        bal_determinate(accounts, bal_index),
{
    assert forall|i: int| 0 <= i < accounts.len() implies account_determinate(
        (#[trigger] accounts[i]).1,
        bal_index,
    ) by {
        assert(account_ascends(accounts[i].1));
        let slots = accounts[i].1.storage.storage@;
        assert forall|j: int| 0 <= j < slots.len() implies determinate(
            write_indices((#[trigger] slots[j]).1.writes@),
            bal_index,
        ) by {
            assert(indices_strictly_ascend(write_indices(slots[j].1.writes@)));
        }
    }
}

/// Where the leading indices that are below `bal_index` are known, so is their number.
proof fn lemma_leading_below_is(indices: Seq<u64>, bal_index: u64, n: int)
    requires
        0 <= n <= indices.len(),
        forall|i: int| 0 <= i < n ==> (#[trigger] indices[i]) < bal_index,
        n < indices.len() ==> indices[n] >= bal_index,
    ensures
        leading_below(indices, bal_index) == n,
{
    lemma_leading_below(indices, bal_index);
    let m = leading_below(indices, bal_index);
    if m < n {
        assert(indices[m] < bal_index);
    } else if n < m {
        assert(indices[n] < bal_index);
    }
}

/// A read at BAL index 0 sees nothing.
pub proof fn lemma_read_at_zero<T>(writes: Seq<(u64, T)>)
    ensures
        value_before(writes, 0) is None,
{
}

/// A write at one BAL index is what a read at the next one sees.
pub proof fn lemma_write_visible_next<T>(writes: Seq<(u64, T)>, p: int)
    requires
        indices_strictly_ascend(write_indices(writes)),
        0 <= p < writes.len(),
        writes[p].0 < u64::MAX,
    ensures
        value_before(writes, (writes[p].0 + 1) as u64) == Some(writes[p].1),
{
    let indices = write_indices(writes);
    let bal_index = (writes[p].0 + 1) as u64;
    assert(indices[p] == writes[p].0);
    assert forall|i: int| 0 <= i < p + 1 implies (#[trigger] indices[i]) < bal_index by {
        if i < p {
            assert(indices[i] < indices[p]);
        }
    }
    if p + 1 < indices.len() {
        assert(indices[p] < indices[p + 1]);
    }
    lemma_leading_below_is(indices, bal_index, p + 1);
}

/// Between two BAL indices without a write in between, reads see the same.
pub proof fn lemma_unchanged_between<T>(writes: Seq<(u64, T)>, from: u64, to: u64)
    requires
        indices_ascend(write_indices(writes)),
        from <= to,
        forall|i: int|
            0 <= i < writes.len() ==> !(from <= (#[trigger] writes[i]).0 && writes[i].0 < to),
    ensures
        value_before(writes, from) == value_before(writes, to),
{
    let indices = write_indices(writes);
    lemma_leading_below(indices, from);
    let n = leading_below(indices, from);
    if n < indices.len() {
        assert(indices[n] == writes[n].0);
    }
    lemma_leading_below_is(indices, to, n);
}

/// All writes happened before `bal_index`.
pub open spec fn writes_end_before<T>(writes: Seq<(u64, T)>, bal_index: u64) -> bool {
    forall|i: int| 0 <= i < writes.len() ==> (#[trigger] writes[i]).0 < bal_index
}

/// All writes to an account happened before `bal_index`.
pub open spec fn account_ends_before(account: AccountBal, bal_index: u64) -> bool {
    let info = account.account_info;
    &&& writes_end_before(info.nonce.writes@, bal_index)
    &&& writes_end_before(info.balance.writes@, bal_index)
    &&& writes_end_before(info.code.writes@, bal_index)
    &&& forall|i: int|
        0 <= i < account.storage.storage@.len() ==> writes_end_before(
            (#[trigger] account.storage.storage@[i]).1.writes@,
            bal_index,
        )
}

/// The value of the last write.
pub open spec fn last_value<T>(writes: Seq<(u64, T)>) -> Option<T> {
    if writes.len() == 0 {
        None
    } else {
        Some(writes.last().1)
    }
}

/// The slots with a write, in order, each with the value of its last write.
pub open spec fn last_slot_values(slots: Seq<(U256, BalWrites<U256>)>) -> Seq<(U256, U256)>
    decreases slots.len(),
{
    if slots.len() == 0 {
        Seq::empty()
    } else {
        let rest = last_slot_values(slots.drop_last());
        match last_value(slots.last().1.writes@) {
            Some(value) => rest.push((slots.last().0, value)),
            None => rest,
        }
    }
}

/// What all writes together leave of an account: the last write of every item that has one.
pub open spec fn final_account_changes(account: AccountBal) -> ChangesView {
    let info = account.account_info;
    ChangesView {
        nonce: last_value(info.nonce.writes@),
        balance: last_value(info.balance.writes@),
        code_hash: last_value(code_hash_writes(info.code.writes@)),
        storage: last_slot_values(account.storage.storage@),
    }
}

/// What all writes together leave of each account.
pub open spec fn final_changes(accounts: Seq<(Address, AccountBal)>) -> Seq<
    (Address, ChangesView),
> {
    accounts.map_values(|a: (Address, AccountBal)| (a.0, final_account_changes(a.1)))
}

/// After all writes a read sees the last one.
pub proof fn lemma_value_at_end<T>(writes: Seq<(u64, T)>, bal_index: u64)
    requires
        writes_end_before(writes, bal_index),
    ensures
        value_before(writes, bal_index) == last_value(writes),
{
    let indices = write_indices(writes);
    assert forall|i: int| 0 <= i < indices.len() implies (#[trigger] indices[i]) < bal_index by {
        assert(indices[i] == writes[i].0);
    }
    lemma_leading_below_is(indices, bal_index, indices.len() as int);
}

proof fn lemma_storage_at_end(slots: Seq<(U256, BalWrites<U256>)>, bal_index: u64)
    requires
        forall|i: int|
            0 <= i < slots.len() ==> writes_end_before((#[trigger] slots[i]).1.writes@, bal_index),
    ensures
        storage_before(slots, bal_index) == last_slot_values(slots),
    decreases slots.len(),
{
    if slots.len() > 0 {
        let rest = slots.drop_last();
        assert forall|i: int| 0 <= i < rest.len() implies writes_end_before(
            (#[trigger] rest[i]).1.writes@,
            bal_index,
        ) by {
            assert(rest[i] == slots[i]);
        }
        lemma_storage_at_end(rest, bal_index);
        lemma_value_at_end(slots[slots.len() - 1].1.writes@, bal_index);
    }
}

/// A BAL index larger than that of the last write shows the final state: the last write of every
/// item.
pub proof fn lemma_final_changes(accounts: Seq<(Address, AccountBal)>, bal_index: u64)
    requires
        forall|i: int|
            0 <= i < accounts.len() ==> account_ends_before((#[trigger] accounts[i]).1, bal_index),
    ensures
        bal_changes_before(accounts, bal_index) == final_changes(accounts),
{
    assert forall|i: int| 0 <= i < accounts.len() implies bal_changes_before(accounts, bal_index)[i]
        == final_changes(accounts)[i] by {
        let account = accounts[i].1;
        let info = account.account_info;
        assert(account_ends_before(accounts[i].1, bal_index));
        lemma_value_at_end(info.nonce.writes@, bal_index);
        lemma_value_at_end(info.balance.writes@, bal_index);
        let hashes = code_hash_writes(info.code.writes@);
        assert forall|j: int| 0 <= j < hashes.len() implies (#[trigger] hashes[j]).0 < bal_index by {
            assert(hashes[j].0 == info.code.writes@[j].0);
        }
        lemma_value_at_end(hashes, bal_index);
        lemma_storage_at_end(account.storage.storage@, bal_index);
    }
    assert(bal_changes_before(accounts, bal_index) =~= final_changes(accounts));
}

/// No account occurs twice in a block access list, and no slot twice in an account.
pub open spec fn bal_keys_distinct(accounts: Seq<(Address, AccountBal)>) -> bool {
    &&& distinct_keys(accounts)
    &&& forall|i: int|
        0 <= i < accounts.len() ==> distinct_keys((#[trigger] accounts[i]).1.storage.storage@)
}

/// The indices are in order, or so few that a lookup walks them in order.
pub open spec fn searchable(indices: Seq<u64>) -> bool {
    indices.len() < 5 || indices_ascend(indices)
}

/// The writes to every item of an account can be searched.
pub open spec fn account_searchable(account: AccountBal) -> bool {
    let info = account.account_info;
    &&& searchable(write_indices(info.nonce.writes@))
    &&& searchable(write_indices(info.balance.writes@))
    &&& searchable(write_indices(info.code.writes@))
    &&& forall|i: int|
        0 <= i < account.storage.storage@.len() ==> searchable(
            write_indices((#[trigger] account.storage.storage@[i]).1.writes@),
        )
}

proof fn lemma_end_determinate<T>(writes: Seq<(u64, T)>, bal_index: u64)
    requires
        searchable(write_indices(writes)),
        writes_end_before(writes, bal_index),
    ensures
        determinate(write_indices(writes), bal_index),
{
    let indices = write_indices(writes);
    assert forall|i: int| 0 <= i < indices.len() implies (#[trigger] indices[i]) < bal_index by {
        assert(indices[i] == writes[i].0);
    }
}

/// Past the last write, every lookup is determinate where the writes to each item are in order or
/// fewer than five.
pub proof fn lemma_final_determinate(accounts: Seq<(Address, AccountBal)>, bal_index: u64)
    requires
        forall|i: int|
            0 <= i < accounts.len() ==> account_searchable((#[trigger] accounts[i]).1)
                && account_ends_before(accounts[i].1, bal_index),
    ensures
        bal_determinate(accounts, bal_index),
{
    assert forall|i: int| 0 <= i < accounts.len() implies account_determinate(
        (#[trigger] accounts[i]).1,
        bal_index,
    ) by {
        let account = accounts[i].1;
        let info = account.account_info;
        assert(account_searchable(accounts[i].1));
        lemma_end_determinate(info.nonce.writes@, bal_index);
        lemma_end_determinate(info.balance.writes@, bal_index);
        lemma_end_determinate(info.code.writes@, bal_index);
        assert forall|j: int| 0 <= j < account.storage.storage@.len() implies determinate(
            write_indices((#[trigger] account.storage.storage@[j]).1.writes@),
            bal_index,
        ) by {
            lemma_end_determinate(account.storage.storage@[j].1.writes@, bal_index);
        }
    }
}

/// A read sees the write before the first one whose BAL index is not below that of the read, whatever
/// these indices are. Here the first `n` writes are below `bal_index`, and the next one is not.
pub proof fn lemma_lookup<T>(
    writes: Seq<(u64, T)>,
    bal_index: u64,
    value: Option<T>,
    n: int,
)
    requires
        lookup_result(writes, bal_index, value),
        writes.len() < 5 || forall|i: int, j: int|
            0 <= i < j < writes.len() ==> (#[trigger] writes[i]).0 <= (#[trigger] writes[j]).0 && !(
            writes[i].0 == bal_index && writes[j].0 == bal_index),
        0 <= n <= writes.len(),
        forall|i: int| 0 <= i < n ==> (#[trigger] writes[i]).0 < bal_index,
        n < writes.len() ==> writes[n].0 >= bal_index,
    ensures
        n == 0 ==> value is None,
        n > 0 ==> value == Some(writes[n - 1].1),
{
    let indices = write_indices(writes);
    if writes.len() >= 5 {
        assert forall|i: int, j: int| 0 <= i < j < indices.len() implies !((
        #[trigger] indices[i]) == bal_index && (#[trigger] indices[j]) == bal_index)
            && indices[i] <= indices[j] by {
            assert(writes[i].0 == indices[i] && writes[j].0 == indices[j]);
        }
        assert forall|i: int, j: int| 0 <= i <= j < indices.len() implies (
        #[trigger] indices[i]) <= (#[trigger] indices[j]) by {}
    }
    lemma_value_before(writes, bal_index, n);
}

/// What the writes leave for a read is the value of the write before the first one whose BAL index is
/// not below that of the read. Here the first `n` writes are below `bal_index`, and the next one is
/// not.
pub proof fn lemma_value_before<T>(writes: Seq<(u64, T)>, bal_index: u64, n: int)
    requires
        0 <= n <= writes.len(),
        forall|i: int| 0 <= i < n ==> (#[trigger] writes[i]).0 < bal_index,
        n < writes.len() ==> writes[n].0 >= bal_index,
    ensures
        n == 0 ==> value_before(writes, bal_index) is None,
        n > 0 ==> value_before(writes, bal_index) == Some(writes[n - 1].1),
{
    let indices = write_indices(writes);
    assert forall|i: int| 0 <= i < n implies (#[trigger] indices[i]) < bal_index by {
        assert(indices[i] == writes[i].0);
    }
    lemma_leading_below_is(indices, bal_index, n);
}

/// A value that a read sees, in whatever order the writes are, is that of one of them.
pub proof fn lemma_lookup_was_written<T>(writes: Seq<(u64, T)>, bal_index: u64, value: Option<T>)
    requires
        lookup_result(writes, bal_index, value),
    ensures
        value matches Some(v) ==> exists|p: int| 0 <= p < writes.len() && #[trigger] writes[p].1 == v,
{
}

/// What lookups give for a block access list are changes of its accounts, in their order: of each its
/// address, and for nonce, balance and code hash what a lookup of the writes to it gives.
pub proof fn lemma_looked_up_account(
    accounts: Seq<(Address, AccountBal)>,
    bal_index: u64,
    changes: Seq<(Address, ChangesView)>,
    i: int,
)
    requires
        bal_lookups(accounts, bal_index, changes),
        0 <= i < accounts.len(),
    ensures
        changes.len() == accounts.len(),
        changes[i].0 == accounts[i].0,
        lookup_result(
            accounts[i].1.account_info.nonce.writes@,
            bal_index,
            changes[i].1.nonce,
        ),
        lookup_result(
            accounts[i].1.account_info.balance.writes@,
            bal_index,
            changes[i].1.balance,
        ),
        lookup_result(
            accounts[i].1.account_info.code.writes@.map_values(
                |w: (u64, (B256, Vec<u8>))| (w.0, w.1.0),
            ),
            bal_index,
            changes[i].1.code_hash,
        ),
{
    assert(changes[i].0 == accounts[i].0);
    assert(code_hash_writes(accounts[i].1.account_info.code.writes@)
        =~= accounts[i].1.account_info.code.writes@.map_values(
        |w: (u64, (B256, Vec<u8>))| (w.0, w.1.0),
    ));
}

/// What lookups give for the slots of an account are the slots for which a lookup of the writes
/// gives a value, each with that value, and no others.
pub proof fn lemma_looked_up_slots(
    slots: Seq<(U256, BalWrites<U256>)>,
    bal_index: u64,
    changes: Seq<(U256, U256)>,
)
    requires
        storage_lookups(slots, bal_index, changes),
    ensures
        forall|j: int|
            0 <= j < slots.len() ==> lookup_result(
                (#[trigger] slots[j]).1.writes@,
                bal_index,
                None,
            ) || exists|q: int|
                0 <= q < changes.len() && (#[trigger] changes[q]).0 == slots[j].0 && lookup_result(
                    slots[j].1.writes@,
                    bal_index,
                    Some(changes[q].1),
                ),
        forall|q: int|
            0 <= q < changes.len() ==> exists|j: int|
                0 <= j < slots.len() && (#[trigger] slots[j]).0 == (#[trigger] changes[q]).0
                    && lookup_result(slots[j].1.writes@, bal_index, Some(changes[q].1)),
    decreases slots.len(),
{
    if slots.len() > 0 {
        let rest = slots.drop_last();
        let n = slots.len() - 1;
        let kept = lookup_result(slots[n].1.writes@, bal_index, None) && storage_lookups(
            rest,
            bal_index,
            changes,
        );
        let before = if kept {
            changes
        } else {
            changes.drop_last()
        };
        lemma_looked_up_slots(rest, bal_index, before);
        assert forall|j: int| 0 <= j < slots.len() implies lookup_result(
            (#[trigger] slots[j]).1.writes@,
            bal_index,
            None,
        ) || exists|q: int|
            0 <= q < changes.len() && (#[trigger] changes[q]).0 == slots[j].0 && lookup_result(
                slots[j].1.writes@,
                bal_index,
                Some(changes[q].1),
            ) by {
            if j < n {
                assert(rest[j] == slots[j]);
                if !lookup_result(slots[j].1.writes@, bal_index, None) {
                    let q = choose|q: int|
                        0 <= q < before.len() && (#[trigger] before[q]).0 == slots[j].0
                            && lookup_result(slots[j].1.writes@, bal_index, Some(before[q].1));
                    assert(changes[q] == before[q]);
                }
            } else if !kept {
                assert(changes[changes.len() - 1].0 == slots[n].0);
            }
        }
        assert forall|q: int| 0 <= q < changes.len() implies exists|j: int|
            0 <= j < slots.len() && (#[trigger] slots[j]).0 == (#[trigger] changes[q]).0
                && lookup_result(slots[j].1.writes@, bal_index, Some(changes[q].1)) by {
            if q < before.len() {
                assert(before[q] == changes[q]);
                let j = choose|j: int|
                    0 <= j < rest.len() && (#[trigger] rest[j]).0 == before[q].0 && lookup_result(
                        rest[j].1.writes@,
                        bal_index,
                        Some(before[q].1),
                    );
                assert(slots[j] == rest[j]);
            } else {
                assert(slots[n].0 == changes[q].0);
            }
        }
    }
}

/// What the writes before an index leave of the slots of an account are the slots to which they left
/// a value, each with that value, and no others.
pub proof fn lemma_slots_before(slots: Seq<(U256, BalWrites<U256>)>, bal_index: u64)
    ensures
        forall|j: int|
            0 <= j < slots.len() && value_before((#[trigger] slots[j]).1.writes@, bal_index) is Some
                ==> storage_before(slots, bal_index).contains(
                (slots[j].0, value_before(slots[j].1.writes@, bal_index)->0),
            ),
        forall|c: (U256, U256)| #[trigger]
            storage_before(slots, bal_index).contains(c) ==> exists|j: int|
                0 <= j < slots.len() && (#[trigger] slots[j]).0 == c.0 && value_before(
                    slots[j].1.writes@,
                    bal_index,
                ) == Some(c.1),
    decreases slots.len(),
{
    if slots.len() > 0 {
        let rest = slots.drop_last();
        let n = slots.len() - 1;
        let before = storage_before(rest, bal_index);
        let all = storage_before(slots, bal_index);
        lemma_slots_before(rest, bal_index);
        if value_before(slots[n].1.writes@, bal_index) is Some {
            assert(all[all.len() - 1] == (
                slots[n].0,
                value_before(slots[n].1.writes@, bal_index)->0,
            ));
        }
        assert forall|j: int|
            0 <= j < slots.len() && value_before(
                (#[trigger] slots[j]).1.writes@,
                bal_index,
            ) is Some implies all.contains(
            (slots[j].0, value_before(slots[j].1.writes@, bal_index)->0),
        ) by {
            if j < n {
                assert(rest[j] == slots[j]);
                let c = (slots[j].0, value_before(slots[j].1.writes@, bal_index)->0);
                let q = choose|q: int| 0 <= q < before.len() && before[q] == c;
                assert(all[q] == c);
            }
        }
        assert forall|c: (U256, U256)| #[trigger] all.contains(c) implies exists|j: int|
            0 <= j < slots.len() && (#[trigger] slots[j]).0 == c.0 && value_before(
                slots[j].1.writes@,
                bal_index,
            ) == Some(c.1) by {
            let q = choose|q: int| 0 <= q < all.len() && all[q] == c;
            if q < before.len() {
                assert(before[q] == c);
                assert(before.contains(c));
                let j = choose|j: int|
                    0 <= j < rest.len() && (#[trigger] rest[j]).0 == c.0 && value_before(
                        rest[j].1.writes@,
                        bal_index,
                    ) == Some(c.1);
                assert(slots[j] == rest[j]);
            } else {
                assert(slots[n].0 == c.0);
            }
        }
    }
}

/// What the writes before an index leave of a block access list are changes of its accounts, in their
/// order: of each its address, and for nonce, balance and code hash what the writes to it left.
pub proof fn lemma_account_before_index(
    accounts: Seq<(Address, AccountBal)>,
    bal_index: u64,
    i: int,
)
    requires
        0 <= i < accounts.len(),
    ensures
        ({
            let changes = bal_changes_before(accounts, bal_index);
            let info = accounts[i].1.account_info;
            &&& changes.len() == accounts.len()
            &&& changes[i].0 == accounts[i].0
            &&& changes[i].1.nonce == value_before(info.nonce.writes@, bal_index)
            &&& changes[i].1.balance == value_before(info.balance.writes@, bal_index)
            &&& changes[i].1.code_hash == value_before(
                info.code.writes@.map_values(|w: (u64, (B256, Vec<u8>))| (w.0, w.1.0)),
                bal_index,
            )
            &&& changes[i].1.storage == storage_before(
                accounts[i].1.storage.storage@,
                bal_index,
            )
        }),
{
    assert(code_hash_writes(accounts[i].1.account_info.code.writes@)
        =~= accounts[i].1.account_info.code.writes@.map_values(
        |w: (u64, (B256, Vec<u8>))| (w.0, w.1.0),
    ));
}

/// What all writes together leave of an account is the last write to its nonce, its balance and its
/// code, and nothing where there is none.
pub proof fn lemma_final_account(accounts: Seq<(Address, AccountBal)>, i: int)
    requires
        0 <= i < accounts.len(),
    ensures
        ({
            let changes = final_changes(accounts);
            let info = accounts[i].1.account_info;
            let (nonce, balance, code) = (
                info.nonce.writes@,
                info.balance.writes@,
                info.code.writes@,
            );
            &&& changes.len() == accounts.len()
            &&& changes[i].0 == accounts[i].0
            &&& changes[i].1.nonce is None <==> nonce.len() == 0
            &&& nonce.len() > 0 ==> changes[i].1.nonce == Some(nonce[nonce.len() - 1].1)
            &&& changes[i].1.balance is None <==> balance.len() == 0
            &&& balance.len() > 0 ==> changes[i].1.balance == Some(balance[balance.len() - 1].1)
            &&& changes[i].1.code_hash is None <==> code.len() == 0
            &&& code.len() > 0 ==> changes[i].1.code_hash == Some(code[code.len() - 1].1.0)
            &&& forall|j: int|
                0 <= j < accounts[i].1.storage.storage@.len() && (
                #[trigger] accounts[i].1.storage.storage@[j]).1.writes@.len() > 0
                    ==> changes[i].1.storage.contains(
                    (
                        accounts[i].1.storage.storage@[j].0,
                        accounts[i].1.storage.storage@[j].1.writes@.last().1,
                    ),
                )
            &&& forall|c: (U256, U256)| #[trigger]
                changes[i].1.storage.contains(c) ==> exists|j: int|
                    0 <= j < accounts[i].1.storage.storage@.len() && (
                    #[trigger] accounts[i].1.storage.storage@[j]).0 == c.0
                        && accounts[i].1.storage.storage@[j].1.writes@.len() > 0
                        && accounts[i].1.storage.storage@[j].1.writes@.last().1 == c.1
        }),
{
    let info = accounts[i].1.account_info;
    if info.code.writes@.len() > 0 {
        let n = info.code.writes@.len() - 1;
        assert(code_hash_writes(info.code.writes@)[n] == (
            info.code.writes@[n].0,
            info.code.writes@[n].1.0,
        ));
    }
    lemma_final_slots(accounts[i].1.storage.storage@);
}

proof fn lemma_final_slots(slots: Seq<(U256, BalWrites<U256>)>)
    ensures
        forall|j: int|
            0 <= j < slots.len() && (#[trigger] slots[j]).1.writes@.len() > 0 ==> last_slot_values(
                slots,
            ).contains((slots[j].0, slots[j].1.writes@.last().1)),
        forall|c: (U256, U256)| #[trigger]
            last_slot_values(slots).contains(c) ==> exists|j: int|
                0 <= j < slots.len() && (#[trigger] slots[j]).0 == c.0
                    && slots[j].1.writes@.len() > 0 && slots[j].1.writes@.last().1 == c.1,
    decreases slots.len(),
{
    if slots.len() > 0 {
        let rest = slots.drop_last();
        let n = slots.len() - 1;
        let before = last_slot_values(rest);
        let all = last_slot_values(slots);
        lemma_final_slots(rest);
        if slots[n].1.writes@.len() > 0 {
            assert(all[all.len() - 1] == (slots[n].0, slots[n].1.writes@.last().1));
        }
        assert forall|j: int|
            0 <= j < slots.len() && (
            #[trigger] slots[j]).1.writes@.len() > 0 implies all.contains(
            (slots[j].0, slots[j].1.writes@.last().1),
        ) by {
            if j < n {
                assert(rest[j] == slots[j]);
                let c = (slots[j].0, slots[j].1.writes@.last().1);
                let q = choose|q: int| 0 <= q < before.len() && before[q] == c;
                assert(all[q] == c);
            }
        }
        assert forall|c: (U256, U256)| #[trigger] all.contains(c) implies exists|j: int|
            0 <= j < slots.len() && (#[trigger] slots[j]).0 == c.0 && slots[j].1.writes@.len() > 0
                && slots[j].1.writes@.last().1 == c.1 by {
            let q = choose|q: int| 0 <= q < all.len() && all[q] == c;
            if q < before.len() {
                assert(before[q] == c);
                assert(before.contains(c));
                let j = choose|j: int|
                    0 <= j < rest.len() && (#[trigger] rest[j]).0 == c.0
                        && rest[j].1.writes@.len() > 0 && rest[j].1.writes@.last().1 == c.1;
                assert(slots[j] == rest[j]);
            } else {
                assert(slots[n].0 == c.0);
            }
        }
    }
}

/// Everything in a block access list enters its contents: of each account the address, every write
/// to nonce, balance and code, and every slot with its writes.
pub proof fn lemma_bal_contents(accounts: Seq<(Address, AccountBal)>, i: int)
    requires
        0 <= i < accounts.len(),
    ensures
        ({
            let c = bal_contents(accounts)[i];
            let info = accounts[i].1.account_info;
            let slots = accounts[i].1.storage.storage@;
            &&& bal_contents(accounts).len() == accounts.len()
            &&& c.0 == accounts[i].0@
            &&& c.1 == info.nonce.writes@
            &&& c.2.len() == info.balance.writes@.len()
            &&& forall|p: int|
                0 <= p < c.2.len() ==> #[trigger] c.2[p] == (
                    info.balance.writes@[p].0,
                    info.balance.writes@[p].1@,
                )
            &&& c.3.len() == info.code.writes@.len()
            &&& forall|p: int|
                0 <= p < c.3.len() ==> #[trigger] c.3[p] == (
                    info.code.writes@[p].0,
                    info.code.writes@[p].1.1@,
                )
            &&& c.4.len() == slots.len()
            &&& forall|s: int|
                0 <= s < slots.len() ==> {
                    &&& (#[trigger] c.4[s]).0 == slots[s].0@
                    &&& c.4[s].1.len() == slots[s].1.writes@.len()
                    &&& forall|p: int|
                        0 <= p < c.4[s].1.len() ==> #[trigger] c.4[s].1[p] == (
                            slots[s].1.writes@[p].0,
                            slots[s].1.writes@[p].1@,
                        )
                }
        }),
{
}

} // verus!
