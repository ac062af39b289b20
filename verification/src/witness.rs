//! Witness recording types for EVM execution.

use crate::bytecode::{original_bytes, original_code};
use crate::hash::{keccak256, keccak256_digest};
use crate::map::{entries_map, lemma_ascending_entries, OrderedMap};
use crate::primitives::{B256, U256};
use vstd::prelude::*;

verus! {

/// The account information of `revm`, carried from a witness to a database unread.
#[verifier::external_type_specification]
#[verifier::external_body]
pub struct ExAccountInfo(revm::state::AccountInfo);

/// The account state flag of `revm`, carried from a witness to a database unread.
#[verifier::external_type_specification]
#[verifier::external_body]
pub struct ExAccountState(revm::database::AccountState);

/// `clone` of `revm::state::AccountInfo`, which is derived, gives the same account information.
pub assume_specification[ <revm::state::AccountInfo as Clone>::clone ](
    info: &revm::state::AccountInfo,
) -> (r: revm::state::AccountInfo)
    ensures
        r == *info,
;

/// `default` of `revm::state::AccountInfo`, the information of an account without balance, nonce and
/// code. Nothing is said of it: account information is carried unread.
pub assume_specification[ <revm::state::AccountInfo as Default>::default ]() -> (r:
    revm::state::AccountInfo);

/// `clone` of `revm::database::AccountState`, which is derived, gives the same flag.
pub assume_specification[ <revm::database::AccountState as Clone>::clone ](
    state: &revm::database::AccountState,
) -> (r: revm::database::AccountState)
    ensures
        r == *state,
;

/// `default` of `revm::database::AccountState`, the flag of an account that nothing interacted with.
/// Nothing is said of it: the flag is carried unread.
pub assume_specification[ <revm::database::AccountState as Default>::default ]() -> (r:
    revm::database::AccountState);

/// A set of byte strings of length `N`.
pub type OrderedSet<const N: usize> = OrderedMap<N, ()>;

/// Records pre-state data for witness generation.
#[derive(Debug)]
pub struct FlatPreState {
    /// Accounts accessed during execution.
    pub accounts: OrderedMap<20, Account>,
    /// Bytecode accessed during execution.
    pub contracts: OrderedMap<32, Vec<u8>>,
    /// The set of addresses that have been self-destructed in the execution.
    pub destructed_addresses: OrderedSet<20>,
}

/// Represents an account in the pre-state.
#[derive(Debug)]
pub struct Account {
    /// Basic account information.
    pub info: revm::state::AccountInfo,
    /// If account is selfdestructed or newly created, storage will be cleared.
    pub account_state: revm::database::AccountState,
    /// Storage slots.
    pub storage: OrderedMap<32, U256>,
}

/// What an [`Account`] holds.
#[verifier::ext_equal]
pub struct AccountView {
    pub info: revm::state::AccountInfo,
    pub account_state: revm::database::AccountState,
    pub storage: Map<Seq<u8>, U256>,
}

impl View for Account {
    type V = AccountView;

    open spec fn view(&self) -> AccountView {
        AccountView {
            info: self.info,
            account_state: self.account_state,
            storage: self.storage@,
        }
    }
}

impl Clone for Account {
    fn clone(&self) -> (r: Self)
        ensures
            r@ == self@,
    {
        let r = Account {
            info: self.info.clone(),
            account_state: self.account_state.clone(),
            storage: self.storage.clone(),
        };
        proof {
            assert(r.storage@ =~= self.storage@);
        }
        r
    }
}

impl Default for Account {
    /// An account with default information, the default state flag and no storage.
    fn default() -> (r: Self)
        ensures
            call_ensures(<revm::state::AccountInfo as Default>::default, (), r.info),
            call_ensures(<revm::database::AccountState as Default>::default, (), r.account_state),
            r.storage@ == Map::<Seq<u8>, U256>::empty(),
    {
        Account {
            info: revm::state::AccountInfo::default(),
            account_state: revm::database::AccountState::default(),
            storage: OrderedMap::new(),
        }
    }
}

/// `a` and `b` hold the same pre-state.
pub open spec fn same_pre_state(a: FlatPreState, b: FlatPreState) -> bool {
    &&& a.accounts@.map_values(|x: Account| x@) == b.accounts@.map_values(|x: Account| x@)
    &&& a.contracts@.map_values(|x: Vec<u8>| x@) == b.contracts@.map_values(|x: Vec<u8>| x@)
    &&& a.destructed_addresses@ == b.destructed_addresses@
}

impl Clone for FlatPreState {
    fn clone(&self) -> (r: Self)
        ensures
            same_pre_state(*self, r),
    {
        let r = FlatPreState {
            accounts: self.accounts.clone(),
            contracts: self.contracts.clone(),
            destructed_addresses: self.destructed_addresses.clone(),
        };
        proof {
            assert(self.accounts@.map_values(|x: Account| x@) =~= r.accounts@.map_values(
                |x: Account| x@,
            )) by {
                assert forall|k: Seq<u8>| #[trigger] self.accounts@.contains_key(k) implies
                    self.accounts@[k]@ == r.accounts@[k]@ by {}
            }
            assert(self.contracts@.map_values(|x: Vec<u8>| x@) =~= r.contracts@.map_values(
                |x: Vec<u8>| x@,
            )) by {
                assert forall|k: Seq<u8>| #[trigger] self.contracts@.contains_key(k) implies
                    self.contracts@[k]@ == r.contracts@[k]@ by {
                    assert(self.contracts@[k]@ =~= r.contracts@[k]@);
                }
            }
            assert(self.destructed_addresses@ =~= r.destructed_addresses@);
        }
        r
    }
}

impl Default for FlatPreState {
    /// A pre-state in which nothing was accessed.
    fn default() -> (r: Self)
        ensures
            r.accounts@ == Map::<Seq<u8>, Account>::empty(),
            r.contracts@ == Map::<Seq<u8>, Vec<u8>>::empty(),
            r.destructed_addresses@ == Map::<Seq<u8>, ()>::empty(),
    {
        FlatPreState {
            accounts: OrderedMap::new(),
            contracts: OrderedMap::new(),
            destructed_addresses: OrderedMap::new(),
        }
    }
}

/// What an execution did to an account.
#[derive(Clone, Copy, Debug, PartialEq, Eq, Structural)]
pub enum AccountStatus {
    /// The account has been loaded but does not exist.
    LoadedNotExisting,
    /// The account has been loaded and exists.
    Loaded,
    /// The account is loaded and empty, as per EIP-161.
    LoadedEmptyEIP161,
    /// There are changes in the account that exist only in memory.
    InMemoryChange,
    /// The account has been modified.
    Changed,
    /// The account has been destroyed.
    Destroyed,
    /// The account has been destroyed and then modified.
    DestroyedChanged,
    /// The account has been destroyed again.
    DestroyedAgain,
}

/// An account in the cache of an execution.
#[derive(Debug)]
pub struct CacheAccount {
    /// The storage of the account, if the account exists.
    pub storage: Option<OrderedMap<32, U256>>,
    /// What the execution did to the account.
    pub status: AccountStatus,
}

/// What an execution left in its cache.
#[derive(Debug)]
pub struct CacheState {
    /// The accounts that it loaded.
    pub accounts: OrderedMap<20, CacheAccount>,
    /// The contracts that it loaded or created.
    pub contracts: OrderedMap<32, revm::state::Bytecode>,
}

/// Represents an accessed account during execution.
#[derive(Debug)]
pub enum AccessedAccount {
    /// Indicates if the account was destroyed during execution.
    Destroyed,
    /// Storage keys accessed during execution.
    StorageKeys(OrderedSet<32>),
}

/// What an [`AccessedAccount`] holds.
#[verifier::ext_equal]
pub enum AccessedView {
    Destroyed,
    StorageKeys(Set<Seq<u8>>),
}

impl View for AccessedAccount {
    type V = AccessedView;

    open spec fn view(&self) -> AccessedView {
        match self {
            AccessedAccount::Destroyed => AccessedView::Destroyed,
            AccessedAccount::StorageKeys(keys) => AccessedView::StorageKeys(keys@.dom()),
        }
    }
}

impl Clone for AccessedAccount {
    fn clone(&self) -> (r: Self)
        ensures
            r@ == self@,
    {
        match self {
            AccessedAccount::Destroyed => AccessedAccount::Destroyed,
            AccessedAccount::StorageKeys(keys) => AccessedAccount::StorageKeys(keys.clone()),
        }
    }
}

/// Records pre-state accesses that occurred during execution.
#[derive(Debug)]
pub struct FlatWitnessRecord {
    /// Accounts accessed during execution.
    pub accounts: OrderedMap<20, AccessedAccount>,
    /// Bytecode accessed during execution.
    pub contracts: OrderedMap<32, Option<revm::state::Bytecode>>,
}

/// What a [`FlatWitnessRecord`] holds.
#[verifier::ext_equal]
pub struct RecordView {
    pub accounts: Map<Seq<u8>, AccessedView>,
    pub contracts: Map<Seq<u8>, Option<revm::state::Bytecode>>,
}

impl View for FlatWitnessRecord {
    type V = RecordView;

    open spec fn view(&self) -> RecordView {
        RecordView {
            accounts: self.accounts@.map_values(|a: AccessedAccount| a@),
            contracts: self.contracts@,
        }
    }
}

impl Clone for FlatWitnessRecord {
    fn clone(&self) -> (r: Self)
        ensures
            r@ == self@,
    {
        let r = FlatWitnessRecord {
            accounts: self.accounts.clone(),
            contracts: self.contracts.clone(),
        };
        proof {
            assert(r@.accounts =~= self@.accounts) by {
                assert forall|k: Seq<u8>| #[trigger] self.accounts@.contains_key(k) implies
                    self.accounts@[k]@ == r.accounts@[k]@ by {}
            }
            assert(r@.contracts =~= self@.contracts);
        }
        r
    }
}

impl Default for FlatWitnessRecord {
    /// A record of nothing.
    fn default() -> (r: Self)
        ensures
            r@ == (RecordView { accounts: Map::empty(), contracts: Map::empty() }),
    {
        let r = FlatWitnessRecord { accounts: OrderedMap::new(), contracts: OrderedMap::new() };
        proof {
            assert(r@.accounts =~= Map::empty());
        }
        r
    }
}

/// What is recorded of a cached account: that it was destroyed, or the keys of its storage.
pub open spec fn accessed(account: CacheAccount) -> AccessedView {
    if account.status == AccountStatus::Destroyed {
        AccessedView::Destroyed
    } else {
        AccessedView::StorageKeys(
            match account.storage {
                Some(storage) => storage@.dom(),
                None => Set::empty(),
            },
        )
    }
}

/// `contracts` holds each of `codes`, keyed by the hash of its bytes, and nothing else.
pub open spec fn codes_recorded(
    codes: Map<Seq<u8>, revm::state::Bytecode>,
    contracts: Map<Seq<u8>, Option<revm::state::Bytecode>>,
) -> bool {
    &&& forall|k: Seq<u8>| #[trigger]
        codes.contains_key(k) ==> contracts.contains_key(code_hash(codes[k]))
    &&& forall|h: Seq<u8>| #[trigger]
        contracts.contains_key(h) ==> exists|k: Seq<u8>| #[trigger]
            codes.contains_key(k) && contracts[h] == Some(codes[k]) && h == code_hash(codes[k])
}

/// The codes of `entries`, keyed by the hash of their bytes. Of two codes with one hash, the later one
/// counts.
pub open spec fn codes_by_hash(entries: Seq<(B256, revm::state::Bytecode)>) -> Map<
    Seq<u8>,
    Option<revm::state::Bytecode>,
>
    decreases entries.len(),
{
    if entries.len() == 0 {
        Map::empty()
    } else {
        codes_by_hash(entries.drop_last()).insert(
            code_hash(entries.last().1),
            Some(entries.last().1),
        )
    }
}

/// The hash of the bytes of a contract.
pub open spec fn code_hash(code: revm::state::Bytecode) -> Seq<u8> {
    keccak256_digest(original_code(code))
}

/// The keys of a storage.
fn storage_keys(storage: &OrderedMap<32, U256>) -> (r: OrderedSet<32>)
    ensures
        r@.dom() == storage@.dom(),
{
    let entries = storage.as_slice();
    let mut keys: OrderedSet<32> = OrderedMap::new();
    let mut i: usize = 0;
    proof {
        assert(keys@.dom() =~= entries_map(entries@.take(0)).dom());
    }
    while i < entries.len()
        invariant
            i <= entries.len(),
            keys@.dom() == entries_map(entries@.take(i as int)).dom(),
        decreases entries.len() - i,
    {
        let ghost before = keys@;
        keys.insert(entries[i].0, ());
        proof {
            assert(entries@.take(i + 1).drop_last() =~= entries@.take(i as int));
            assert(keys@.dom() =~= before.dom().insert(entries@[i as int].0@));
            assert(entries_map(entries@.take(i + 1)).dom() =~= entries_map(
                entries@.take(i as int),
            ).dom().insert(entries@[i as int].0@));
        }
        i += 1;
    }
    proof {
        assert(entries@.take(i as int) =~= entries@);
    }
    keys
}

/// What is recorded of a cached account.
fn access_of(account: &CacheAccount) -> (r: AccessedAccount)
    ensures
        r@ == accessed(*account),
{
    match account.status {
        AccountStatus::Destroyed => AccessedAccount::Destroyed,
        _ => {
            let keys: OrderedSet<32> = match &account.storage {
                Some(storage) => storage_keys(storage),
                None => OrderedMap::new(),
            };
            proof {
                if account.storage is None {
                    assert(keys@.dom() =~= Set::empty());
                }
            }
            AccessedAccount::StorageKeys(keys)
        },
    }
}

/// Keys codes by their hash.
fn record_codes(codes: &OrderedMap<32, revm::state::Bytecode>) -> (r: OrderedMap<
    32,
    Option<revm::state::Bytecode>,
>)
    ensures
        codes_recorded(codes@, r@),
        r@ == codes_by_hash(codes.entries_spec()),
{
    let entries = codes.as_slice();
    let mut recorded: OrderedMap<32, Option<revm::state::Bytecode>> = OrderedMap::new();
    let mut i: usize = 0;
    proof {
        assert(entries@.take(0) =~= Seq::empty());
    }
    while i < entries.len()
        invariant
            i <= entries.len(),
            recorded@ == codes_by_hash(entries@.take(i as int)),
            forall|j: int|
                0 <= j < i ==> recorded@.contains_key(code_hash((#[trigger] entries@[j]).1)),
            forall|h: Seq<u8>| #[trigger]
                recorded@.contains_key(h) ==> exists|j: int|
                    0 <= j < i && recorded@[h] == Some((#[trigger] entries@[j]).1) && h
                        == code_hash(entries@[j].1),
        decreases entries.len() - i,
    {
        let code = &entries[i].1;
        let bytes: Vec<u8> = original_bytes(code);
        let hash: B256 = keccak256(bytes.as_slice());
        let ghost before = recorded@;
        recorded.insert(hash, Some(code.clone()));
        proof {
            assert(entries@.take(i + 1).drop_last() =~= entries@.take(i as int));
            assert forall|h: Seq<u8>| #[trigger] recorded@.contains_key(h) implies exists|j: int|
                0 <= j < i + 1 && recorded@[h] == Some((#[trigger] entries@[j]).1) && h
                    == code_hash(entries@[j].1) by {
                if h == hash@ {
                    assert(recorded@[h] == Some(entries@[i as int].1));
                } else {
                    assert(before.contains_key(h));
                    let j = choose|j: int|
                        0 <= j < i && before[h] == Some((#[trigger] entries@[j]).1) && h
                            == code_hash(entries@[j].1);
                    assert(recorded@[h] == Some(entries@[j].1));
                }
            }
        }
        i += 1;
    }
    proof {
        assert(entries@.take(i as int) =~= entries@);
        lemma_ascending_entries(entries@);
        assert forall|k: Seq<u8>| #[trigger] codes@.contains_key(k) implies recorded@.contains_key(
            code_hash(codes@[k]),
        ) by {
            let j = choose|j: int| 0 <= j < entries@.len() && #[trigger] entries@[j].0@ == k;
            assert(codes@[entries@[j].0@] == entries@[j].1);
        }
        assert forall|h: Seq<u8>| #[trigger] recorded@.contains_key(h) implies exists|k: Seq<u8>|
         #[trigger]
            codes@.contains_key(k) && recorded@[h] == Some(codes@[k]) && h == code_hash(
                codes@[k],
            ) by {
            let j = choose|j: int|
                0 <= j < i && recorded@[h] == Some((#[trigger] entries@[j]).1) && h == code_hash(
                    entries@[j].1,
                );
            assert(codes@.contains_key(entries@[j].0@));
        }
    }
    recorded
}

/// `after` is the record `before` with what the execution left in `cache`: the contracts are those of
/// the cache, and the accounts of the cache are added to those of the record.
pub open spec fn is_recorded(before: RecordView, cache: CacheState, after: RecordView) -> bool {
    &&& codes_recorded(cache.contracts@, after.contracts)
    &&& after.contracts == codes_by_hash(cache.contracts.entries_spec())
    &&& after.accounts == before.accounts.union_prefer_right(
        cache.accounts@.map_values(|a: CacheAccount| accessed(a)),
    )
}

impl FlatWitnessRecord {
    /// Records the accessed state after execution.
    ///
    /// The contracts of the record are replaced by those of the cache. The accounts of the cache are
    /// added to those of the record, and take the place of an account with the same address.
    pub fn record_executed_state(&mut self, cache: &CacheState)
        ensures
            is_recorded(old(self)@, *cache, final(self)@),
            forall|k: Seq<u8>| #[trigger]
                cache.accounts@.contains_key(k) ==> final(self).accounts@.contains_key(k)
                    && match final(self).accounts@[k] {
                    AccessedAccount::Destroyed => cache.accounts@[k].status
                        == AccountStatus::Destroyed,
                    AccessedAccount::StorageKeys(keys) => {
                        &&& cache.accounts@[k].status != AccountStatus::Destroyed
                        &&& keys@.dom() == match cache.accounts@[k].storage {
                            Some(storage) => storage@.dom(),
                            None => Set::empty(),
                        }
                    },
                },
            forall|k: Seq<u8>|
                !cache.accounts@.contains_key(k) ==> (
                #[trigger] final(self).accounts@.contains_key(k) <==> old(
                    self,
                ).accounts@.contains_key(k)),
    {
        self.contracts = record_codes(&cache.contracts);
        let ghost before = self.accounts@.map_values(|a: AccessedAccount| a@);
        let entries = cache.accounts.as_slice();
        let mut i: usize = 0;
        proof {
            assert(before =~= before.union_prefer_right(
                entries_map(entries@.take(0)).map_values(|a: CacheAccount| accessed(a)),
            ));
        }
        while i < entries.len()
            invariant
                i <= entries.len(),
                codes_recorded(cache.contracts@, self.contracts@),
                self.contracts@ == codes_by_hash(cache.contracts.entries_spec()),
                self.accounts@.map_values(|a: AccessedAccount| a@) == before.union_prefer_right(
                    entries_map(entries@.take(i as int)).map_values(
                        |a: CacheAccount| accessed(a),
                    ),
                ),
            decreases entries.len() - i,
        {
            let ghost recorded = self.accounts@;
            let account: AccessedAccount = access_of(&entries[i].1);
            self.accounts.insert(entries[i].0, account);
            proof {
                let t = entries@.take(i + 1);
                assert(t.drop_last() =~= entries@.take(i as int));
                assert(self.accounts@.map_values(|a: AccessedAccount| a@)
                    =~= recorded.map_values(|a: AccessedAccount| a@).insert(
                    entries@[i as int].0@,
                    account@,
                ));
                assert(entries_map(t).map_values(|a: CacheAccount| accessed(a)) =~= entries_map(
                    t.drop_last(),
                ).map_values(|a: CacheAccount| accessed(a)).insert(
                    entries@[i as int].0@,
                    account@,
                ));
                assert(self.accounts@.map_values(|a: AccessedAccount| a@)
                    =~= before.union_prefer_right(
                    entries_map(t).map_values(|a: CacheAccount| accessed(a)),
                ));
            }
            i += 1;
        }
        proof {
            assert(entries@.take(i as int) =~= entries@);
            let views = self.accounts@.map_values(|a: AccessedAccount| a@);
            let added = cache.accounts@.map_values(|a: CacheAccount| accessed(a));
            assert(views == before.union_prefer_right(added));
            assert forall|k: Seq<u8>| #[trigger] cache.accounts@.contains_key(k) implies
                self.accounts@.contains_key(k) && self.accounts@[k]@ == accessed(
                cache.accounts@[k],
            ) by {
                assert(added.contains_key(k));
                assert(views.contains_key(k) && views[k] == added[k]);
            }
            assert forall|k: Seq<u8>| !cache.accounts@.contains_key(k) implies (
            #[trigger] self.accounts@.contains_key(k) <==> old(self).accounts@.contains_key(k)) by {
                assert(views.contains_key(k) <==> before.contains_key(k));
            }
        }
    }
}

/// Where no two different codes of a cache have one hash, the recorded contracts are fixed: they do
/// not depend on the order in which the cache is walked.
pub proof fn lemma_codes_recorded_fixed(
    codes: Map<Seq<u8>, revm::state::Bytecode>,
    a: Map<Seq<u8>, Option<revm::state::Bytecode>>,
    b: Map<Seq<u8>, Option<revm::state::Bytecode>>,
)
    requires
        codes_recorded(codes, a),
        codes_recorded(codes, b),
        forall|j: Seq<u8>, k: Seq<u8>| #[trigger]
            codes.contains_key(j) && #[trigger] codes.contains_key(k) && code_hash(codes[j])
                == code_hash(codes[k]) ==> codes[j] == codes[k],
    ensures
        a == b,
{
    assert forall|h: Seq<u8>| #[trigger] a.contains_key(h) <==> b.contains_key(h) by {
        if a.contains_key(h) {
            let k = choose|k: Seq<u8>| #[trigger]
                codes.contains_key(k) && a[h] == Some(codes[k]) && h == code_hash(codes[k]);
            assert(b.contains_key(code_hash(codes[k])));
        }
        if b.contains_key(h) {
            let k = choose|k: Seq<u8>| #[trigger]
                codes.contains_key(k) && b[h] == Some(codes[k]) && h == code_hash(codes[k]);
            assert(a.contains_key(code_hash(codes[k])));
        }
    }
    assert forall|h: Seq<u8>| #[trigger] a.contains_key(h) implies a[h] == b[h] by {
        let j = choose|k: Seq<u8>| #[trigger]
            codes.contains_key(k) && a[h] == Some(codes[k]) && h == code_hash(codes[k]);
        assert(b.contains_key(h));
        let k = choose|k: Seq<u8>| #[trigger]
            codes.contains_key(k) && b[h] == Some(codes[k]) && h == code_hash(codes[k]);
        assert(codes[j] == codes[k]);
    }
    assert(a =~= b);
}

/// Recording the same state a second time changes nothing.
pub proof fn lemma_record_again(
    before: RecordView,
    cache: CacheState,
    once: RecordView,
    twice: RecordView,
)
    requires
        is_recorded(before, cache, once),
        is_recorded(once, cache, twice),
    ensures
        once == twice,
{
    assert(once.accounts =~= twice.accounts);
}

/// After two recordings the contracts are those of the second state alone. Of the accounts, those of
/// the second state count first, then those of the first state, then those recorded before.
pub proof fn lemma_record_two(
    before: RecordView,
    first: CacheState,
    once: RecordView,
    second: CacheState,
    twice: RecordView,
    address: Seq<u8>,
)
    requires
        is_recorded(before, first, once),
        is_recorded(once, second, twice),
    ensures
        codes_recorded(second.contracts@, twice.contracts),
        twice.accounts.contains_key(address) <==> second.accounts@.contains_key(address)
            || first.accounts@.contains_key(address) || before.accounts.contains_key(address),
        second.accounts@.contains_key(address) ==> twice.accounts[address] == accessed(
            second.accounts@[address],
        ),
        !second.accounts@.contains_key(address) && first.accounts@.contains_key(address)
            ==> twice.accounts[address] == accessed(first.accounts@[address]),
        !second.accounts@.contains_key(address) && !first.accounts@.contains_key(address)
            && before.accounts.contains_key(address) ==> twice.accounts[address]
            == before.accounts[address],
{
}

/// An accessed account is seen as destroyed, or with the keys that it holds.
pub proof fn lemma_accessed_view(account: AccessedAccount)
    ensures
        account@ is Destroyed <==> account is Destroyed,
        account matches AccessedAccount::StorageKeys(keys) ==> account@
            == AccessedView::StorageKeys(keys@.dom()),
{
}

/// After a recording, an account of the cache is recorded as destroyed if and only if its status is
/// `Destroyed`. With any other status it is recorded with exactly the keys of its cached storage, and
/// with none where it has no storage. An account that is not in the cache is recorded as it was.
pub proof fn lemma_recorded_account(
    before: RecordView,
    cache: CacheState,
    after: RecordView,
    address: Seq<u8>,
)
    requires
        is_recorded(before, cache, after),
    ensures
        cache.accounts@.contains_key(address) ==> {
            let account = cache.accounts@[address];
            &&& after.accounts.contains_key(address)
            &&& after.accounts[address] is Destroyed <==> account.status
                == AccountStatus::Destroyed
            &&& account.status != AccountStatus::Destroyed && account.storage is Some
                ==> after.accounts[address] == AccessedView::StorageKeys(
                account.storage->0@.dom(),
            )
            &&& account.status != AccountStatus::Destroyed && account.storage is None
                ==> after.accounts[address] == AccessedView::StorageKeys(Set::empty())
        },
        !cache.accounts@.contains_key(address) ==> {
            &&& after.accounts.contains_key(address) <==> before.accounts.contains_key(address)
            &&& before.accounts.contains_key(address) ==> after.accounts[address]
                == before.accounts[address]
        },
{
}

/// After a recording, the contracts are those of the cache: each is recorded under the hash of its
/// bytes, and what is recorded under a hash is a contract of the cache whose bytes have that hash.
/// Of several such, it is the one that comes last in the order of the cache's keys.
pub proof fn lemma_recorded_contracts(before: RecordView, cache: CacheState, after: RecordView)
    requires
        is_recorded(before, cache, after),
    ensures
        forall|k: Seq<u8>| #[trigger]
            cache.contracts@.contains_key(k) ==> after.contracts.contains_key(
                keccak256_digest(original_code(cache.contracts@[k])),
            ),
        forall|h: Seq<u8>| #[trigger]
            after.contracts.contains_key(h) ==> exists|k: Seq<u8>| #[trigger]
                cache.contracts@.contains_key(k) && after.contracts[h] == Some(
                    cache.contracts@[k],
                ) && keccak256_digest(original_code(cache.contracts@[k])) == h,
        forall|i: int|
            0 <= i < cache.contracts.entries_spec().len() && (forall|j: int|
                i < j < cache.contracts.entries_spec().len() ==> keccak256_digest(
                    original_code((#[trigger] cache.contracts.entries_spec()[j]).1),
                ) != keccak256_digest(original_code(cache.contracts.entries_spec()[i].1)))
                ==> after.contracts[keccak256_digest(
                original_code((#[trigger] cache.contracts.entries_spec()[i]).1),
            )] == Some(cache.contracts.entries_spec()[i].1),
{
    let entries = cache.contracts.entries_spec();
    assert forall|h: Seq<u8>| #[trigger] after.contracts.contains_key(h) implies exists|
        k: Seq<u8>,
    | #[trigger]
        cache.contracts@.contains_key(k) && after.contracts[h] == Some(cache.contracts@[k])
            && keccak256_digest(original_code(cache.contracts@[k])) == h by {
        let k = choose|k: Seq<u8>| #[trigger]
            cache.contracts@.contains_key(k) && after.contracts[h] == Some(cache.contracts@[k])
                && h == code_hash(cache.contracts@[k]);
        assert(cache.contracts@.contains_key(k));
    }
    assert forall|i: int|
        0 <= i < entries.len() && (forall|j: int|
            i < j < entries.len() ==> keccak256_digest(original_code((#[trigger] entries[j]).1))
                != keccak256_digest(original_code(entries[i].1))) implies after.contracts[keccak256_digest(
        original_code((#[trigger] entries[i]).1),
    )] == Some(entries[i].1) by {
        lemma_last_code(entries, i);
    }
}

proof fn lemma_last_code(entries: Seq<(B256, revm::state::Bytecode)>, i: int)
    requires
        0 <= i < entries.len(),
        forall|j: int|
            i < j < entries.len() ==> keccak256_digest(original_code((#[trigger] entries[j]).1))
                != keccak256_digest(original_code(entries[i].1)),
    ensures
        codes_by_hash(entries)[keccak256_digest(original_code(entries[i].1))] == Some(entries[i].1),
    decreases entries.len(),
{
    if i < entries.len() - 1 {
        let rest = entries.drop_last();
        assert forall|j: int| i < j < rest.len() implies keccak256_digest(
            original_code((#[trigger] rest[j]).1),
        ) != keccak256_digest(original_code(rest[i].1)) by {
            assert(rest[j] == entries[j]);
        }
        lemma_last_code(rest, i);
        assert(keccak256_digest(original_code(entries[entries.len() - 1].1)) != keccak256_digest(
            original_code(entries[i].1),
        ));
    }
}

/// Two pre-states are the same only if they hold the same accounts, with the same information, state
/// flag and storage, the same contracts and the same destructed addresses.
pub proof fn lemma_same_pre_state(a: FlatPreState, b: FlatPreState, k: Seq<u8>)
    requires
        same_pre_state(a, b),
    ensures
        a.accounts@.contains_key(k) <==> b.accounts@.contains_key(k),
        a.accounts@.contains_key(k) ==> {
            &&& a.accounts@[k].info == b.accounts@[k].info
            &&& a.accounts@[k].account_state == b.accounts@[k].account_state
            &&& a.accounts@[k].storage@ == b.accounts@[k].storage@
        },
        a.contracts@.contains_key(k) <==> b.contracts@.contains_key(k),
        a.contracts@.contains_key(k) ==> a.contracts@[k]@ == b.contracts@[k]@,
        a.destructed_addresses@.contains_key(k) <==> b.destructed_addresses@.contains_key(k),
{
    let (x, y) = (
        a.accounts@.map_values(|x: Account| x@),
        b.accounts@.map_values(|x: Account| x@),
    );
    assert(x.contains_key(k) <==> y.contains_key(k));
    if x.contains_key(k) {
        assert(x[k] == y[k]);
    }
    let (u, v) = (
        a.contracts@.map_values(|x: Vec<u8>| x@),
        b.contracts@.map_values(|x: Vec<u8>| x@),
    );
    assert(u.contains_key(k) <==> v.contains_key(k));
    if u.contains_key(k) {
        assert(u[k] == v[k]);
    }
}

} // verus!
