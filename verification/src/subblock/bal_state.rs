//! Conversion of a block access list to a hashed post state.
//!
//! The hashed post state is what the state root of a block is computed from.

use crate::bal::{
    account_ends_before, account_searchable, bal_changes_before, bal_determinate,
    bal_keys_distinct, bal_lookups, changes_before, changes_views, final_changes,
    lemma_bal_lookups, lemma_final_changes, lemma_final_determinate, storage_before, value_before,
    AccountBal, AccountChanges, Bal, BalWrites, ChangesView,
};
use crate::hash::{keccak256, keccak256_digest};
use crate::map::{distinct_keys, OrderedMap};
use crate::primitives::{zero_bytes, Address, FixedBytes, B256, U256};
use vstd::prelude::*;

verus! {

/// An account as the state trie holds it.
#[derive(Clone, Copy, Debug, PartialEq, Eq)]
pub struct TrieAccount {
    /// The nonce.
    pub nonce: u64,
    /// The balance.
    pub balance: U256,
    /// The root of the account's storage trie.
    pub storage_root: B256,
    /// The hash of the account's code.
    pub code_hash: B256,
}

/// Provider for pre-state account data during the conversion.
///
/// Used to look up existing account values when the block access list only holds partial changes.
pub trait PreStateAccountProvider {
    /// Error type for account lookups.
    type Error;

    /// Returns the pre-state account for the given address.
    ///
    /// - `Ok(Some(account))` - account exists in pre-state
    /// - `Ok(None)` - account proven to not exist (new account)
    /// - `Err(...)` - witness incomplete, cannot determine pre-state
    fn account(&self, address: Address) -> Result<Option<TrieAccount>, Self::Error>;
}

/// An account in a post state.
#[derive(Clone, Copy, Debug, PartialEq, Eq)]
pub struct Account {
    /// The nonce.
    pub nonce: u64,
    /// The balance.
    pub balance: U256,
    /// The hash of the code, for an account that has code.
    pub bytecode_hash: Option<B256>,
}

/// What an [`Account`] holds.
#[verifier::ext_equal]
pub struct AccountView {
    pub nonce: u64,
    pub balance: Seq<u8>,
    pub bytecode_hash: Option<Seq<u8>>,
}

/// The bytes of an optional hash.
pub open spec fn hash_view(h: Option<B256>) -> Option<Seq<u8>> {
    match h {
        Some(h) => Some(h@),
        None => None,
    }
}

impl View for Account {
    type V = AccountView;

    open spec fn view(&self) -> AccountView {
        AccountView {
            nonce: self.nonce,
            balance: self.balance@,
            bytecode_hash: hash_view(self.bytecode_hash),
        }
    }
}

/// The changed storage of one account, keyed by hashed slot.
#[derive(Debug)]
pub struct HashedStorage {
    /// Whether the storage was cleared before the changes.
    pub wiped: bool,
    /// The changed slots.
    pub storage: OrderedMap<32, U256>,
}

/// What a [`HashedStorage`] holds.
#[verifier::ext_equal]
pub struct HashedStorageView {
    pub wiped: bool,
    pub storage: Map<Seq<u8>, U256>,
}

impl View for HashedStorage {
    type V = HashedStorageView;

    open spec fn view(&self) -> HashedStorageView {
        HashedStorageView { wiped: self.wiped, storage: self.storage@ }
    }
}

/// State changes, keyed by hashed address.
#[derive(Debug)]
pub struct HashedPostState {
    /// The changed accounts; `None` stands for a destroyed account.
    pub accounts: OrderedMap<32, Option<Account>>,
    /// The changed storages.
    pub storages: OrderedMap<32, HashedStorage>,
}

/// What a [`HashedPostState`] holds.
#[verifier::ext_equal]
pub struct PostStateView {
    pub accounts: Map<Seq<u8>, Option<AccountView>>,
    pub storages: Map<Seq<u8>, HashedStorageView>,
}

/// The view of an account that may have been destroyed.
pub open spec fn optional_account_view(a: Option<Account>) -> Option<AccountView> {
    match a {
        Some(a) => Some(a@),
        None => None,
    }
}

impl View for HashedPostState {
    type V = PostStateView;

    open spec fn view(&self) -> PostStateView {
        PostStateView {
            accounts: self.accounts@.map_values(|a: Option<Account>| optional_account_view(a)),
            storages: self.storages@.map_values(|s: HashedStorage| s@),
        }
    }
}

/// The nonce, the balance or the code was written.
pub open spec fn has_account_changes(c: ChangesView) -> bool {
    c.nonce is Some || c.balance is Some || c.code_hash is Some
}

/// One of nonce, balance and code was not written.
pub open spec fn is_partial(c: ChangesView) -> bool {
    c.nonce is None || c.balance is None || c.code_hash is None
}

/// The hash of code that an account without code has.
pub open spec fn keccak_empty() -> Seq<u8> {
    keccak256_digest(Seq::empty())
}

/// The account after its changes: what was not written stays as it was in the pre-state, and an
/// account that was not there starts with nonce 0, balance 0 and no code.
pub open spec fn changed_account(c: ChangesView, pre: Option<TrieAccount>) -> AccountView {
    AccountView {
        nonce: match c.nonce {
            Some(nonce) => nonce,
            None => match pre {
                Some(pre) => pre.nonce,
                None => 0,
            },
        },
        balance: match c.balance {
            Some(balance) => balance@,
            None => match pre {
                Some(pre) => pre.balance@,
                None => zero_bytes(32),
            },
        },
        bytecode_hash: match c.code_hash {
            Some(hash) => Some(hash@),
            None => match pre {
                Some(pre) => if pre.code_hash@ == keccak_empty() {
                    None
                } else {
                    Some(pre.code_hash@)
                },
                None => None,
            },
        },
    }
}

/// Slot values, keyed by hashed slot.
pub open spec fn hashed_slots(storage: Seq<(U256, U256)>) -> Map<Seq<u8>, U256>
    decreases storage.len(),
{
    if storage.len() == 0 {
        Map::empty()
    } else {
        hashed_slots(storage.drop_last()).insert(
            keccak256_digest(storage.last().0@),
            storage.last().1,
        )
    }
}

impl PostStateView {
    /// The state without changes.
    pub open spec fn unchanged() -> PostStateView {
        PostStateView { accounts: Map::empty(), storages: Map::empty() }
    }

    /// The state with the changes of one account recorded.
    pub open spec fn record(
        self,
        address: Address,
        c: ChangesView,
        pre: Option<TrieAccount>,
    ) -> PostStateView {
        let key = keccak256_digest(address@);
        PostStateView {
            accounts: if has_account_changes(c) {
                self.accounts.insert(key, Some(changed_account(c, pre)))
            } else {
                self.accounts
            },
            storages: if c.storage.len() > 0 {
                self.storages.insert(
                    key,
                    HashedStorageView { wiped: false, storage: hashed_slots(c.storage) },
                )
            } else {
                self.storages
            },
        }
    }
}

/// The state that the changes of the accounts lead to. `pre` holds what the accounts were before,
/// in the same order; one that is not there did not exist.
pub open spec fn post_state(
    changes: Seq<(Address, ChangesView)>,
    pre: Seq<Option<TrieAccount>>,
) -> PostStateView
    decreases changes.len(),
{
    if changes.len() == 0 {
        PostStateView::unchanged()
    } else {
        post_state(changes.drop_last(), pre).record(
            changes.last().0,
            changes.last().1,
            account_before(pre, changes.len() - 1),
        )
    }
}

/// What account `i` was before.
pub open spec fn account_before(pre: Seq<Option<TrieAccount>>, i: int) -> Option<TrieAccount> {
    if i < pre.len() {
        pre[i]
    } else {
        None
    }
}

/// The pre-state of the account is looked up: something of it was changed, but not everything.
pub open spec fn needs_pre_state(c: ChangesView) -> bool {
    has_account_changes(c) && is_partial(c)
}

/// `reply` is an answer of the provider for `address`.
pub open spec fn answers<P: PreStateAccountProvider>(
    provider: P,
    address: Address,
    reply: Result<Option<TrieAccount>, P::Error>,
) -> bool {
    call_ensures(P::account, (&provider, address), reply)
}

/// `pre` is what the provider says of the account, if it is looked up.
pub open spec fn account_found<P: PreStateAccountProvider>(
    provider: P,
    change: (Address, ChangesView),
    pre: Option<TrieAccount>,
) -> bool {
    if needs_pre_state(change.1) {
        answers(provider, change.0, Ok(pre))
    } else {
        pre is None
    }
}

/// The lookup of the account, if there is one, can succeed.
pub open spec fn can_be_found<P: PreStateAccountProvider>(
    provider: P,
    change: (Address, ChangesView),
) -> bool {
    exists|pre: Option<TrieAccount>| account_found(provider, change, pre)
}

/// The lookup of account `k` is the first that fails, and `e` is its error.
pub open spec fn lookup_failed<P: PreStateAccountProvider>(
    provider: P,
    changes: Seq<(Address, ChangesView)>,
    k: int,
    e: P::Error,
) -> bool {
    &&& 0 <= k < changes.len()
    &&& needs_pre_state(changes[k].1)
    &&& answers(provider, changes[k].0, Err(e))
    &&& forall|i: int| 0 <= i < k ==> can_be_found(provider, #[trigger] changes[i])
}

/// `pre` is what the lookups of all accounts can give.
pub open spec fn all_found<P: PreStateAccountProvider>(
    provider: P,
    changes: Seq<(Address, ChangesView)>,
    pre: Seq<Option<TrieAccount>>,
) -> bool {
    &&& pre.len() == changes.len()
    &&& forall|i: int|
        0 <= i < changes.len() ==> account_found(provider, changes[i], #[trigger] pre[i])
}

/// `e` is the error of the first lookup that fails.
pub open spec fn first_failure<P: PreStateAccountProvider>(
    provider: P,
    changes: Seq<(Address, ChangesView)>,
    e: P::Error,
) -> bool {
    exists|k: int| #[trigger] lookup_failed(provider, changes, k, e)
}

/// `state` is what the changes lead to on top of a pre-state that the provider gives.
pub open spec fn post_state_on<P: PreStateAccountProvider>(
    provider: P,
    changes: Seq<(Address, ChangesView)>,
    state: PostStateView,
) -> bool {
    exists|pre: Seq<Option<TrieAccount>>| #[trigger]
        all_found(provider, changes, pre) && state == post_state(changes, pre)
}

/// `r` is the conversion of the changes on top of a pre-state that the provider gives.
pub open spec fn converted<P: PreStateAccountProvider>(
    provider: P,
    changes: Seq<(Address, ChangesView)>,
    r: Result<HashedPostState, P::Error>,
) -> bool {
    match r {
        Ok(state) => post_state_on(provider, changes, state@),
        Err(e) => first_failure(provider, changes, e),
    }
}

/// Applies the changes of one account to what its pre-state was.
pub fn apply_changes(changes: &AccountChanges, pre: Option<TrieAccount>) -> (r: Account)
    ensures
        r@ == changed_account(changes@, pre),
        changes.nonce matches Some(nonce) ==> r.nonce == nonce,
        changes.nonce is None ==> r.nonce == match pre {
            Some(pre) => pre.nonce,
            None => 0,
        },
        changes.balance matches Some(balance) ==> r.balance == balance,
        changes.balance is None && pre is Some ==> r.balance == pre->0.balance,
        changes.balance is None && pre is None ==> forall|i: int|
            0 <= i < 32 ==> #[trigger] r.balance.bytes@[i] == 0,
        changes.code_hash matches Some(hash) ==> r.bytecode_hash == Some(hash),
        changes.code_hash is None && pre is None ==> r.bytecode_hash is None,
        changes.code_hash is None && pre is Some && pre->0.code_hash@ == keccak256_digest(
            Seq::empty(),
        ) ==> r.bytecode_hash is None,
        changes.code_hash is None && pre is Some && pre->0.code_hash@ != keccak256_digest(
            Seq::empty(),
        ) ==> r.bytecode_hash == Some(pre->0.code_hash),
{
    let nonce: u64 = match changes.nonce {
        Some(nonce) => nonce,
        None => match pre {
            Some(pre) => pre.nonce,
            None => 0,
        },
    };
    let balance: U256 = match changes.balance {
        Some(balance) => balance,
        None => match pre {
            Some(pre) => pre.balance,
            None => FixedBytes::zero(),
        },
    };
    let bytecode_hash: Option<B256> = match changes.code_hash {
        Some(hash) => Some(hash),
        None => match pre {
            Some(pre) => {
                let none: Vec<u8> = Vec::new();
                proof {
                    assert(none@ =~= Seq::<u8>::empty());
                }
                if pre.code_hash == keccak256(none.as_slice()) {
                    None
                } else {
                    Some(pre.code_hash)
                }
            },
            None => None,
        },
    };
    Account { nonce, balance, bytecode_hash }
}

/// Keys slot values by hashed slot.
fn hash_slots(storage: &Vec<(U256, U256)>) -> (r: HashedStorage)
    ensures
        r@ == (HashedStorageView { wiped: false, storage: hashed_slots(storage@) }),
{
    let mut slots: OrderedMap<32, U256> = OrderedMap::new();
    let mut i: usize = 0;
    proof {
        assert(storage@.take(0) =~= Seq::empty());
    }
    while i < storage.len()
        invariant
            i <= storage.len(),
            slots@ == hashed_slots(storage@.take(i as int)),
        decreases storage.len() - i,
    {
        proof {
            assert(storage@.take(i + 1).drop_last() =~= storage@.take(i as int));
        }
        let key: B256 = keccak256(storage[i].0.bytes.as_slice());
        slots.insert(key, storage[i].1);
        i += 1;
    }
    proof {
        assert(storage@.take(i as int) =~= storage@);
    }
    HashedStorage { wiped: false, storage: slots }
}

/// Looks up the pre-state of every account that was changed in part. Of the others nothing is asked.
pub fn look_up_pre_state<P: PreStateAccountProvider>(
    changes: &[(Address, AccountChanges)],
    provider: &P,
) -> (r: Result<Vec<Option<TrieAccount>>, P::Error>)
    ensures
        match r {
            Ok(pre) => all_found(*provider, changes_views(changes@), pre@),
            Err(e) => first_failure(*provider, changes_views(changes@), e),
        },
{
    let ghost views = changes_views(changes@);
    let mut pre: Vec<Option<TrieAccount>> = Vec::new();
    let mut i: usize = 0;
    while i < changes.len()
        invariant
            i <= changes.len(),
            views == changes_views(changes@),
            pre.len() == i,
            forall|j: int| 0 <= j < i ==> account_found(*provider, views[j], #[trigger] pre@[j]),
        decreases changes.len() - i,
    {
        let address: Address = changes[i].0;
        let change = &changes[i].1;
        assert(views[i as int] == (address, change@));
        let changed: bool = change.nonce.is_some() || change.balance.is_some()
            || change.code_hash.is_some();
        let partial: bool = change.nonce.is_none() || change.balance.is_none()
            || change.code_hash.is_none();
        if changed && partial {
            match provider.account(address) {
                Ok(account) => {
                    assert(answers(*provider, address, Ok(account)));
                    pre.push(account);
                },
                Err(e) => {
                    proof {
                        assert forall|j: int| 0 <= j < i implies can_be_found(
                            *provider,
                            #[trigger] views[j],
                        ) by {
                            assert(account_found(*provider, views[j], pre@[j]));
                        }
                        assert(answers(*provider, views[i as int].0, Err(e)));
                        assert(lookup_failed(*provider, views, i as int, e));
                    }
                    return Err(e);
                },
            }
        } else {
            pre.push(None);
        }
        i += 1;
    }
    Ok(pre)
}

/// Converts the changes of the accounts to a hashed post state. `pre` holds what the accounts were
/// before, in the same order; one that is not there did not exist.
pub fn hash_changes(
    changes: &[(Address, AccountChanges)],
    pre: &[Option<TrieAccount>],
) -> (r: HashedPostState)
    ensures
        r@ == post_state(changes_views(changes@), pre@),
{
    let ghost views = changes_views(changes@);
    let mut accounts: OrderedMap<32, Option<Account>> = OrderedMap::new();
    let mut storages: OrderedMap<32, HashedStorage> = OrderedMap::new();
    let mut i: usize = 0;
    proof {
        assert(views.take(0) =~= Seq::empty());
        assert(accounts@.map_values(|a: Option<Account>| optional_account_view(a)) =~= Map::empty());
        assert(storages@.map_values(|s: HashedStorage| s@) =~= Map::empty());
    }
    while i < changes.len()
        invariant
            i <= changes.len(),
            views == changes_views(changes@),
            accounts@.map_values(|a: Option<Account>| optional_account_view(a)) == post_state(
                views.take(i as int),
                pre@,
            ).accounts,
            storages@.map_values(|s: HashedStorage| s@) == post_state(
                views.take(i as int),
                pre@,
            ).storages,
        decreases changes.len() - i,
    {
        let address: Address = changes[i].0;
        let change = &changes[i].1;
        proof {
            assert(views.take(i + 1).drop_last() =~= views.take(i as int));
            assert(views.take(i + 1).last() == (address, change@));
        }
        let key: B256 = keccak256(address.bytes.as_slice());
        if change.nonce.is_some() || change.balance.is_some() || change.code_hash.is_some() {
            let known: Option<TrieAccount> = if i < pre.len() {
                pre[i]
            } else {
                None
            };
            let account: Account = apply_changes(change, known);
            let ghost before = accounts@;
            accounts.insert(key, Some(account));
            proof {
                assert(accounts@.map_values(|a: Option<Account>| optional_account_view(a))
                    =~= before.map_values(|a: Option<Account>| optional_account_view(a)).insert(
                    key@,
                    Some(account@),
                ));
            }
        }
        if change.storage.len() > 0 {
            // The changes are applied to the storage as it is, so nothing is wiped.
            let hashed: HashedStorage = hash_slots(&change.storage);
            let ghost before = storages@;
            storages.insert(key, hashed);
            proof {
                assert(storages@.map_values(|s: HashedStorage| s@) =~= before.map_values(
                    |s: HashedStorage| s@,
                ).insert(key@, hashed@));
            }
        }
        i += 1;
    }
    proof {
        assert(views.take(i as int) =~= views);
    }
    HashedPostState { accounts, storages }
}

/// Converts a block access list to a `HashedPostState` at the given BAL index, on top of a known
/// pre-state.
///
/// Of an account that was changed in part only, the rest is taken from the pre-state. The error of
/// the first failing lookup is returned.
pub fn bal_to_hashed_post_state_with_pre_state<P: PreStateAccountProvider>(
    bal: &Bal,
    bal_index: u64,
    provider: &P,
) -> (r: Result<HashedPostState, P::Error>)
    ensures
        exists|changes: Seq<(Address, ChangesView)>| #[trigger]
            bal_lookups(bal.accounts@, bal_index, changes) && converted(*provider, changes, r),
        bal_determinate(bal.accounts@, bal_index) ==> converted(
            *provider,
            bal_changes_before(bal.accounts@, bal_index),
            r,
        ),
{
    let changes: Vec<(Address, AccountChanges)> = bal.changes_at(bal_index);
    match look_up_pre_state(changes.as_slice(), provider) {
        Ok(pre) => Ok(hash_changes(changes.as_slice(), pre.as_slice())),
        Err(e) => Err(e),
    }
}

/// Converts a block access list to a `HashedPostState` at the given BAL index.
///
/// This extracts the final values from the block access list at `bal_index` and constructs a
/// `HashedPostState` representing the state diff up to that point. An account part that was not
/// written gets its default.
///
/// The BAL index semantics:
/// - Index 0 = pre-execution state (reads at 0 see nothing)
/// - Index 1 = after pre-block system calls
/// - Index 2..n+1 = after each transaction (n transactions)
/// - Index n+2 = after post-block processing
///
/// To get the final state, use `bal_index = num_transactions + 2` (or any index larger than the
/// last write index).
pub fn bal_to_hashed_post_state(bal: &Bal, bal_index: u64) -> (r: HashedPostState)
    ensures
        exists|changes: Seq<(Address, ChangesView)>| #[trigger]
            bal_lookups(bal.accounts@, bal_index, changes) && r@ == post_state(
                changes,
                Seq::empty(),
            ),
        bal_determinate(bal.accounts@, bal_index) ==> r@ == post_state(
            bal_changes_before(bal.accounts@, bal_index),
            Seq::empty(),
        ),
{
    let changes: Vec<(Address, AccountChanges)> = bal.changes_at(bal_index);
    let pre: Vec<Option<TrieAccount>> = Vec::new();
    proof {
        assert(pre@ =~= Seq::empty());
    }
    hash_changes(changes.as_slice(), pre.as_slice())
}

/// A block access list without accounts changes nothing.
pub proof fn lemma_empty_bal(bal_index: u64, pre: Seq<Option<TrieAccount>>)
    ensures
        post_state(bal_changes_before(Seq::empty(), bal_index), pre) == PostStateView::unchanged(),
{
    assert(bal_changes_before(Seq::empty(), bal_index) =~= Seq::empty());
}

/// What was not written of an account stays as it was in the pre-state, and what was written is
/// what the block access list says.
pub proof fn lemma_partial_change(c: ChangesView, pre: TrieAccount)
    ensures
        c.nonce is None ==> changed_account(c, Some(pre)).nonce == pre.nonce,
        c.nonce matches Some(nonce) ==> changed_account(c, Some(pre)).nonce == nonce,
        c.balance is None ==> changed_account(c, Some(pre)).balance == pre.balance@,
        c.balance matches Some(balance) ==> changed_account(c, Some(pre)).balance == balance@,
        c.code_hash is None && pre.code_hash@ != keccak_empty() ==> changed_account(
            c,
            Some(pre),
        ).bytecode_hash == Some(pre.code_hash@),
        c.code_hash is None && pre.code_hash@ == keccak_empty() ==> changed_account(
            c,
            Some(pre),
        ).bytecode_hash is None,
        c.code_hash matches Some(hash) ==> changed_account(c, Some(pre)).bytecode_hash == Some(
            hash@,
        ),
{
}

/// A pre-state in which no account exists is as good as none.
pub proof fn lemma_absent_pre_state(
    changes: Seq<(Address, ChangesView)>,
    pre: Seq<Option<TrieAccount>>,
)
    requires
        forall|i: int| 0 <= i < pre.len() ==> (#[trigger] pre[i]) is None,
    ensures
        post_state(changes, pre) == post_state(changes, Seq::empty()),
    decreases changes.len(),
{
    if changes.len() > 0 {
        lemma_absent_pre_state(changes.drop_last(), pre);
    }
}

/// An account whose nonce, balance and code were all written does not depend on the pre-state.
pub proof fn lemma_full_change(c: ChangesView, a: Option<TrieAccount>, b: Option<TrieAccount>)
    requires
        !is_partial(c),
    ensures
        changed_account(c, a) == changed_account(c, b),
{
}

/// The hashed post state holds for each account exactly what its changes say, where no other account
/// of the block access list has the same hashed address: the changed account, if nonce, balance or
/// code were written, and the written slots, if there are any.
pub proof fn lemma_post_state_of_account(
    changes: Seq<(Address, ChangesView)>,
    pre: Seq<Option<TrieAccount>>,
    i: int,
)
    requires
        0 <= i < changes.len(),
        forall|j: int|
            0 <= j < changes.len() && j != i ==> keccak256_digest((#[trigger] changes[j]).0@)
                != keccak256_digest(changes[i].0@),
    ensures
        ({
            let state = post_state(changes, pre);
            let key = keccak256_digest(changes[i].0@);
            let c = changes[i].1;
            &&& state.accounts.contains_key(key) <==> has_account_changes(c)
            &&& has_account_changes(c) ==> state.accounts[key] == Some(
                changed_account(c, account_before(pre, i)),
            )
            &&& state.storages.contains_key(key) <==> c.storage.len() > 0
            &&& c.storage.len() > 0 ==> state.storages[key] == (HashedStorageView {
                wiped: false,
                storage: hashed_slots(c.storage),
            })
        }),
    decreases changes.len(),
{
    let rest = changes.drop_last();
    let key = keccak256_digest(changes[i].0@);
    if i < changes.len() - 1 {
        assert forall|j: int| 0 <= j < rest.len() && j != i implies keccak256_digest(
            (#[trigger] rest[j]).0@,
        ) != keccak256_digest(rest[i].0@) by {
            assert(rest[j] == changes[j]);
        }
        lemma_post_state_of_account(rest, pre, i);
        assert(keccak256_digest(changes[changes.len() - 1].0@) != key);
    } else {
        assert forall|j: int| 0 <= j < rest.len() implies keccak256_digest((#[trigger] rest[j]).0@)
            != key by {
            assert(rest[j] == changes[j]);
        }
        lemma_post_state_keys(rest, pre, key);
    }
}

/// The hashed post state holds nothing of addresses that are not in the block access list.
pub proof fn lemma_post_state_keys(
    changes: Seq<(Address, ChangesView)>,
    pre: Seq<Option<TrieAccount>>,
    key: Seq<u8>,
)
    requires
        forall|j: int|
            0 <= j < changes.len() ==> keccak256_digest((#[trigger] changes[j]).0@) != key,
    ensures
        !post_state(changes, pre).accounts.contains_key(key),
        !post_state(changes, pre).storages.contains_key(key),
    decreases changes.len(),
{
    if changes.len() > 0 {
        let rest = changes.drop_last();
        assert forall|j: int| 0 <= j < rest.len() implies keccak256_digest((#[trigger] rest[j]).0@)
            != key by {
            assert(rest[j] == changes[j]);
        }
        lemma_post_state_keys(rest, pre, key);
        assert(keccak256_digest(changes[changes.len() - 1].0@) != key);
    }
}

/// The hashed storage of an account holds each written slot with its value, where no later slot has
/// the same hash.
pub proof fn lemma_hashed_slot(storage: Seq<(U256, U256)>, i: int)
    requires
        0 <= i < storage.len(),
        forall|j: int|
            i < j < storage.len() ==> keccak256_digest((#[trigger] storage[j]).0@)
                != keccak256_digest(storage[i].0@),
    ensures
        hashed_slots(storage).contains_key(keccak256_digest(storage[i].0@)),
        hashed_slots(storage)[keccak256_digest(storage[i].0@)] == storage[i].1,
    decreases storage.len(),
{
    if i < storage.len() - 1 {
        let rest = storage.drop_last();
        assert forall|j: int| i < j < rest.len() implies keccak256_digest((#[trigger] rest[j]).0@)
            != keccak256_digest(rest[i].0@) by {
            assert(rest[j] == storage[j]);
        }
        lemma_hashed_slot(rest, i);
        let last = storage[storage.len() - 1];
        assert(keccak256_digest(last.0@) != keccak256_digest(storage[i].0@));
    }
}

/// Different keys of `s` have different hashes.
pub open spec fn hashes_apart<const N: usize, V>(s: Seq<(FixedBytes<N>, V)>) -> bool {
    forall|i: int, j: int|
        0 <= i < s.len() && 0 <= j < s.len() && (#[trigger] s[i]).0@ != (#[trigger] s[j]).0@
            ==> keccak256_digest(s[i].0@) != keccak256_digest(s[j].0@)
}

/// The hashed post state holds for each account of a block access list exactly what the writes before
/// `bal_index` leave of it: the changed account, if nonce, balance or code were written, and the
/// written slots, if there are any.
pub proof fn lemma_post_state_of_bal(
    accounts: Seq<(Address, AccountBal)>,
    bal_index: u64,
    pre: Seq<Option<TrieAccount>>,
    i: int,
)
    requires
        bal_keys_distinct(accounts),
        hashes_apart(accounts),
        0 <= i < accounts.len(),
    ensures
        ({
            let state = post_state(bal_changes_before(accounts, bal_index), pre);
            let key = keccak256_digest(accounts[i].0@);
            let c = changes_before(accounts[i].1, bal_index);
            &&& state.accounts.contains_key(key) <==> has_account_changes(c)
            &&& has_account_changes(c) ==> state.accounts[key] == Some(
                changed_account(c, account_before(pre, i)),
            )
            &&& state.storages.contains_key(key) <==> c.storage.len() > 0
            &&& c.storage.len() > 0 ==> state.storages[key] == (HashedStorageView {
                wiped: false,
                storage: hashed_slots(c.storage),
            })
        }),
{
    let changes = bal_changes_before(accounts, bal_index);
    assert forall|j: int| 0 <= j < changes.len() && j != i implies keccak256_digest(
        (#[trigger] changes[j]).0@,
    ) != keccak256_digest(changes[i].0@) by {
        assert(changes[j].0 == accounts[j].0);
        if j < i {
            assert(accounts[j].0@ != accounts[i].0@);
        } else {
            assert(accounts[i].0@ != accounts[j].0@);
        }
    }
    lemma_post_state_of_account(changes, pre, i);
}

/// A slot that is not among those of an account has no value in its hashed storage.
proof fn lemma_no_hashed_slot(
    slots: Seq<(U256, BalWrites<U256>)>,
    bal_index: u64,
    key: Seq<u8>,
)
    requires
        forall|j: int| 0 <= j < slots.len() ==> keccak256_digest((#[trigger] slots[j]).0@) != key,
    ensures
        !hashed_slots(storage_before(slots, bal_index)).contains_key(key),
    decreases slots.len(),
{
    if slots.len() > 0 {
        let rest = slots.drop_last();
        assert forall|j: int| 0 <= j < rest.len() implies keccak256_digest((#[trigger] rest[j]).0@)
            != key by {
            assert(rest[j] == slots[j]);
        }
        lemma_no_hashed_slot(rest, bal_index, key);
        let last = slots[slots.len() - 1];
        assert(keccak256_digest(last.0@) != key);
        if let Some(value) = value_before(last.1.writes@, bal_index) {
            let before = storage_before(rest, bal_index);
            assert(before.push((last.0, value)).drop_last() =~= before);
        }
    }
}

/// The hashed storage of an account holds a slot exactly if it was written before `bal_index`, with
/// the value that the last such write left.
pub proof fn lemma_hashed_storage_of_slots(
    slots: Seq<(U256, BalWrites<U256>)>,
    bal_index: u64,
    i: int,
)
    requires
        distinct_keys(slots),
        hashes_apart(slots),
        0 <= i < slots.len(),
    ensures
        ({
            let storage = hashed_slots(storage_before(slots, bal_index));
            let key = keccak256_digest(slots[i].0@);
            match value_before(slots[i].1.writes@, bal_index) {
                Some(value) => storage.contains_key(key) && storage[key] == value,
                None => !storage.contains_key(key),
            }
        }),
    decreases slots.len(),
{
    let rest = slots.drop_last();
    let last = slots[slots.len() - 1];
    let key = keccak256_digest(slots[i].0@);
    let before = storage_before(rest, bal_index);
    if i < slots.len() - 1 {
        assert forall|j: int, k: int| 0 <= j < k < rest.len() implies (#[trigger] rest[j].0@) != (
        #[trigger] rest[k].0@) by {
            assert(slots[j].0@ != slots[k].0@);
        }
        assert(hashes_apart(rest)) by {
            assert forall|j: int, k: int|
                0 <= j < rest.len() && 0 <= k < rest.len() && (#[trigger] rest[j]).0@ != (
                #[trigger] rest[k]).0@ implies keccak256_digest(rest[j].0@) != keccak256_digest(
                rest[k].0@,
            ) by {
                assert(rest[j] == slots[j] && rest[k] == slots[k]);
            }
        }
        lemma_hashed_storage_of_slots(rest, bal_index, i);
        assert(slots[i].0@ != last.0@);
    } else {
        assert forall|j: int| 0 <= j < rest.len() implies keccak256_digest((#[trigger] rest[j]).0@)
            != key by {
            assert(rest[j] == slots[j]);
            assert(slots[j].0@ != slots[i].0@);
        }
        lemma_no_hashed_slot(rest, bal_index, key);
    }
    if let Some(value) = value_before(last.1.writes@, bal_index) {
        assert(before.push((last.0, value)).drop_last() =~= before);
    }
}

/// Past the last write, the post state does not depend on the BAL index. What lookups give at any two
/// such indices is the same, the last write of every field and slot that was written, and so is the
/// post state.
pub proof fn lemma_final_post_state(
    accounts: Seq<(Address, AccountBal)>,
    a: u64,
    b: u64,
    changes_a: Seq<(Address, ChangesView)>,
    changes_b: Seq<(Address, ChangesView)>,
    pre: Seq<Option<TrieAccount>>,
)
    requires
        forall|i: int|
            0 <= i < accounts.len() ==> account_ends_before((#[trigger] accounts[i]).1, a)
                && account_ends_before(accounts[i].1, b),
        bal_determinate(accounts, a),
        bal_determinate(accounts, b),
        bal_lookups(accounts, a, changes_a),
        bal_lookups(accounts, b, changes_b),
    ensures
        changes_a == final_changes(accounts),
        changes_b == final_changes(accounts),
        post_state(changes_a, pre) == post_state(changes_b, pre),
{
    lemma_bal_lookups(accounts, a, changes_a);
    lemma_bal_lookups(accounts, b, changes_b);
    lemma_final_changes(accounts, a);
    lemma_final_changes(accounts, b);
}

/// Whatever else was written and whether or not the account was there before: what was written is
/// what the account has, what was not written is what it had, and an account that was not there has
/// nonce 0, balance 0 and no code where these were not written.
pub proof fn lemma_changed_account(c: ChangesView, pre: Option<TrieAccount>)
    ensures
        ({
            let account = changed_account(c, pre);
            &&& c.nonce matches Some(nonce) ==> account.nonce == nonce
            &&& c.nonce is None && pre is Some ==> account.nonce == pre->0.nonce
            &&& c.nonce is None && pre is None ==> account.nonce == 0
            &&& c.balance matches Some(balance) ==> account.balance == balance@
            &&& c.balance is None && pre is Some ==> account.balance == pre->0.balance@
            &&& c.balance is None && pre is None ==> account.balance.len() == 32 && forall|i: int|
                0 <= i < 32 ==> #[trigger] account.balance[i] == 0
            &&& c.code_hash matches Some(hash) ==> account.bytecode_hash == Some(hash@)
            &&& c.code_hash is None && pre is None ==> account.bytecode_hash is None
            &&& c.code_hash is None && pre is Some && pre->0.code_hash@ == keccak256_digest(
                Seq::empty(),
            ) ==> account.bytecode_hash is None
            &&& c.code_hash is None && pre is Some && pre->0.code_hash@ != keccak256_digest(
                Seq::empty(),
            ) ==> account.bytecode_hash == Some(pre->0.code_hash@)
        }),
{
}

/// An account of a post state is seen with all its fields.
pub proof fn lemma_account_view(account: Account)
    ensures
        account@.nonce == account.nonce,
        account@.balance == account.balance@,
        account.bytecode_hash is None <==> account@.bytecode_hash is None,
        account.bytecode_hash matches Some(hash) ==> account@.bytecode_hash == Some(hash@),
{
}

/// A post state is seen with all its accounts and storages.
pub proof fn lemma_post_state_view(state: HashedPostState, key: Seq<u8>)
    ensures
        state@.accounts.contains_key(key) <==> state.accounts@.contains_key(key),
        state.accounts@.contains_key(key) ==> {
            &&& state.accounts@[key] is None <==> state@.accounts[key] is None
            &&& state.accounts@[key] matches Some(account) ==> state@.accounts[key] == Some(
                account@,
            )
        },
        state@.storages.contains_key(key) <==> state.storages@.contains_key(key),
        state.storages@.contains_key(key) ==> {
            &&& state@.storages[key].wiped == state.storages@[key].wiped
            &&& state@.storages[key].storage == state.storages@[key].storage@
        },
{
}

/// The changes of accounts are seen with their addresses and all their parts, in order.
pub proof fn lemma_changes_views(changes: Seq<(Address, AccountChanges)>, i: int)
    requires
        0 <= i < changes.len(),
    ensures
        changes_views(changes).len() == changes.len(),
        changes_views(changes)[i].0 == changes[i].0,
        changes_views(changes)[i].1.nonce == changes[i].1.nonce,
        changes_views(changes)[i].1.balance == changes[i].1.balance,
        changes_views(changes)[i].1.code_hash == changes[i].1.code_hash,
        changes_views(changes)[i].1.storage == changes[i].1.storage@,
{
}

/// The hashed storage holds nothing but written slots, each under the hash of its key.
pub proof fn lemma_hashed_slot_was_written(storage: Seq<(U256, U256)>, key: Seq<u8>)
    requires
        hashed_slots(storage).contains_key(key),
    ensures
        exists|q: int|
            0 <= q < storage.len() && keccak256_digest((#[trigger] storage[q]).0@) == key
                && hashed_slots(storage)[key] == storage[q].1,
    decreases storage.len(),
{
    let n = storage.len() - 1;
    let rest = storage.drop_last();
    if keccak256_digest(storage[n].0@) == key {
        assert(hashed_slots(storage)[key] == storage[n].1);
    } else {
        lemma_hashed_slot_was_written(rest, key);
        let q = choose|q: int|
            0 <= q < rest.len() && keccak256_digest((#[trigger] rest[q]).0@) == key
                && hashed_slots(rest)[key] == rest[q].1;
        assert(storage[q] == rest[q]);
    }
}

/// What the post state holds of an account, told by what was written, where no other account has the
/// same hashed address. The account is in it exactly if nonce, balance or code was written. It then
/// has what was written, and for the rest what it had before, or nonce 0, balance 0 and no code if
/// it was not there. Its storage is in the state exactly if a slot was written, never wiped, with the
/// written slots and no others.
pub proof fn lemma_state_of_changes(
    changes: Seq<(Address, ChangesView)>,
    pre: Seq<Option<TrieAccount>>,
    i: int,
)
    requires
        0 <= i < changes.len(),
        forall|j: int|
            0 <= j < changes.len() && j != i ==> keccak256_digest((#[trigger] changes[j]).0@)
                != keccak256_digest(changes[i].0@),
    ensures
        ({
            let state = post_state(changes, pre);
            let key = keccak256_digest(changes[i].0@);
            let c = changes[i].1;
            let known = i < pre.len() && pre[i] is Some;
            &&& state.accounts.contains_key(key) <==> c.nonce is Some || c.balance is Some
                || c.code_hash is Some
            &&& state.accounts.contains_key(key) ==> {
                &&& state.accounts[key] is Some
                &&& c.nonce matches Some(nonce) ==> state.accounts[key]->0.nonce == nonce
                &&& c.nonce is None && known ==> state.accounts[key]->0.nonce == pre[i]->0.nonce
                &&& c.nonce is None && !known ==> state.accounts[key]->0.nonce == 0
                &&& c.balance matches Some(balance) ==> state.accounts[key]->0.balance == balance@
                &&& c.balance is None && known ==> state.accounts[key]->0.balance
                    == pre[i]->0.balance@
                &&& c.balance is None && !known ==> state.accounts[key]->0.balance.len() == 32
                    && forall|b: int|
                    0 <= b < 32 ==> #[trigger] state.accounts[key]->0.balance[b] == 0
                &&& c.code_hash matches Some(hash) ==> state.accounts[key]->0.bytecode_hash == Some(
                    hash@,
                )
                &&& c.code_hash is None && !known ==> state.accounts[key]->0.bytecode_hash is None
                &&& c.code_hash is None && known && pre[i]->0.code_hash@ == keccak256_digest(
                    Seq::empty(),
                ) ==> state.accounts[key]->0.bytecode_hash is None
                &&& c.code_hash is None && known && pre[i]->0.code_hash@ != keccak256_digest(
                    Seq::empty(),
                ) ==> state.accounts[key]->0.bytecode_hash == Some(pre[i]->0.code_hash@)
            }
            &&& state.storages.contains_key(key) <==> c.storage.len() > 0
            &&& state.storages.contains_key(key) ==> {
                &&& !state.storages[key].wiped
                &&& forall|q: int|
                    0 <= q < c.storage.len() && (forall|l: int|
                        q < l < c.storage.len() ==> keccak256_digest((#[trigger] c.storage[l]).0@)
                            != keccak256_digest(c.storage[q].0@))
                        ==> state.storages[key].storage.contains_key(
                        keccak256_digest((#[trigger] c.storage[q]).0@),
                    ) && state.storages[key].storage[keccak256_digest(c.storage[q].0@)]
                        == c.storage[q].1
                &&& forall|k: Seq<u8>| #[trigger]
                    state.storages[key].storage.contains_key(k) ==> exists|q: int|
                        0 <= q < c.storage.len() && keccak256_digest((#[trigger] c.storage[q]).0@)
                            == k && state.storages[key].storage[k] == c.storage[q].1
            }
        }),
{
    let c = changes[i].1;
    lemma_post_state_of_account(changes, pre, i);
    lemma_changed_account(c, account_before(pre, i));
    assert forall|q: int|
        0 <= q < c.storage.len() && (forall|l: int|
            q < l < c.storage.len() ==> keccak256_digest((#[trigger] c.storage[l]).0@)
                != keccak256_digest(c.storage[q].0@)) implies hashed_slots(c.storage).contains_key(
        keccak256_digest((#[trigger] c.storage[q]).0@),
    ) && hashed_slots(c.storage)[keccak256_digest(c.storage[q].0@)] == c.storage[q].1 by {
        lemma_hashed_slot(c.storage, q);
    }
    assert forall|k: Seq<u8>| #[trigger] hashed_slots(c.storage).contains_key(k) implies exists|
        q: int,
    |
        0 <= q < c.storage.len() && keccak256_digest((#[trigger] c.storage[q]).0@) == k
            && hashed_slots(c.storage)[k] == c.storage[q].1 by {
        lemma_hashed_slot_was_written(c.storage, k);
    }
}

/// The pre-state of an account is what the provider answers for its address where the account was
/// written in part, and is not asked for where nothing of it or all of it was written.
pub proof fn lemma_asked_pre_state<P: PreStateAccountProvider>(
    provider: P,
    changes: Seq<(Address, ChangesView)>,
    pre: Seq<Option<TrieAccount>>,
    i: int,
)
    requires
        all_found(provider, changes, pre),
        0 <= i < changes.len(),
    ensures
        pre.len() == changes.len(),
        ({
            let c = changes[i].1;
            let some = c.nonce is Some || c.balance is Some || c.code_hash is Some;
            let all = c.nonce is Some && c.balance is Some && c.code_hash is Some;
            &&& some && !all ==> call_ensures(
                P::account,
                (&provider, changes[i].0),
                Ok::<Option<TrieAccount>, P::Error>(pre[i]),
            )
            &&& !some || all ==> pre[i] is None
        }),
{
    assert(account_found(provider, changes[i], pre[i]));
}

/// A conversion fails only with an error that the provider gave for the address of an account that
/// was written in part, and only where an answer could be had for every such account before it.
pub proof fn lemma_failed_lookup<P: PreStateAccountProvider>(
    provider: P,
    changes: Seq<(Address, ChangesView)>,
    e: P::Error,
) -> (k: int)
    requires
        first_failure(provider, changes, e),
    ensures
        0 <= k < changes.len(),
        changes[k].1.nonce is Some || changes[k].1.balance is Some || changes[k].1.code_hash is Some,
        changes[k].1.nonce is None || changes[k].1.balance is None || changes[k].1.code_hash is None,
        call_ensures(
            P::account,
            (&provider, changes[k].0),
            Err::<Option<TrieAccount>, P::Error>(e),
        ),
        forall|i: int|
            0 <= i < k && ((#[trigger] changes[i]).1.nonce is Some || changes[i].1.balance is Some
                || changes[i].1.code_hash is Some) && (changes[i].1.nonce is None
                || changes[i].1.balance is None || changes[i].1.code_hash is None)
                ==> exists|pre: Option<TrieAccount>|
                call_ensures(
                    P::account,
                    (&provider, changes[i].0),
                    Ok::<Option<TrieAccount>, P::Error>(pre),
                ),
{
    let k = choose|k: int| #[trigger] lookup_failed(provider, changes, k, e);
    assert forall|i: int|
        0 <= i < k && ((#[trigger] changes[i]).1.nonce is Some || changes[i].1.balance is Some
            || changes[i].1.code_hash is Some) && (changes[i].1.nonce is None
            || changes[i].1.balance is None || changes[i].1.code_hash is None) implies exists|
        pre: Option<TrieAccount>,
    |
        call_ensures(
            P::account,
            (&provider, changes[i].0),
            Ok::<Option<TrieAccount>, P::Error>(pre),
        ) by {
        assert(can_be_found(provider, changes[i]));
        let pre = choose|pre: Option<TrieAccount>| account_found(provider, changes[i], pre);
        assert(answers(provider, changes[i].0, Ok(pre)));
    }
    k
}

/// What a conversion gives: a state that the changes lead to with a pre-state as the provider gives
/// it, or the error of the first lookup that fails.
pub proof fn lemma_converted<P: PreStateAccountProvider>(
    provider: P,
    changes: Seq<(Address, ChangesView)>,
    r: Result<HashedPostState, P::Error>,
)
    requires
        converted(provider, changes, r),
    ensures
        r matches Ok(state) ==> exists|pre: Seq<Option<TrieAccount>>| #[trigger]
            all_found(provider, changes, pre) && state@ == post_state(changes, pre),
        r matches Err(e) ==> first_failure(provider, changes, e),
{
}

/// The final values of a block access list: where the writes to every item are in order or fewer than
/// five, and `bal_index` is larger than each of their indices, the converted state is that of the
/// last write to every nonce, balance, code and slot.
pub proof fn lemma_conversion_past_last_write<P: PreStateAccountProvider>(
    accounts: Seq<(Address, AccountBal)>,
    bal_index: u64,
    provider: P,
    changes: Seq<(Address, ChangesView)>,
    r: Result<HashedPostState, P::Error>,
)
    requires
        forall|i: int|
            0 <= i < accounts.len() ==> account_searchable((#[trigger] accounts[i]).1)
                && account_ends_before(accounts[i].1, bal_index),
        bal_lookups(accounts, bal_index, changes),
        converted(provider, changes, r),
    ensures
        converted(provider, final_changes(accounts), r),
{
    lemma_final_determinate(accounts, bal_index);
    lemma_bal_lookups(accounts, bal_index, changes);
    lemma_final_changes(accounts, bal_index);
}

} // verus!
