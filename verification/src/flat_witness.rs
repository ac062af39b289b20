//! Flat execution witness for stateless block validation.
//!
//! This module provides a simplified witness structure containing the minimal state data required
//! for stateless execution of a block. The "flat" representation stores state directly in a cache
//! rather than as a Merkle proof, optimizing for execution speed. This is useful if the flat
//! execution witness is later cryptographically proven correct in an independent proof.

use crate::bytecode::{
    check_contract_code, executable_code, is_contract_code, new_raw, original_code,
};
use crate::map::{entries_map, lemma_ascending_entries, OrderedMap};
use crate::primitives::{zero_bytes, Address, FixedBytes, B256, U256};
use crate::receipt::Log;
use crate::witness::{same_pre_state, Account, AccountView, FlatPreState, OrderedSet};
use vstd::prelude::*;

verus! {

/// A flat execution witness containing the state and context needed for stateless block execution.
#[derive(Debug)]
pub struct FlatExecutionWitness {
    /// The state required for executing the block.
    pub pre_state: FlatPreState,
    /// The block hashes required for executing the block.
    pub block_hashes: OrderedMap<32, B256>,
    /// The parent block header required for pre-execution validations.
    pub parent_header: Vec<u8>,
}

/// An account in the cache of a database.
#[derive(Debug)]
pub struct DbAccount {
    /// Basic account information.
    pub info: revm::state::AccountInfo,
    /// If account is selfdestructed or newly created, storage will be cleared.
    pub account_state: revm::database::AccountState,
    /// Storage slots.
    pub storage: OrderedMap<32, U256>,
}

impl View for DbAccount {
    type V = AccountView;

    open spec fn view(&self) -> AccountView {
        AccountView {
            info: self.info,
            account_state: self.account_state,
            storage: self.storage@,
        }
    }
}

/// What a database holds in memory.
#[derive(Debug)]
pub struct Cache {
    /// The accounts.
    pub accounts: OrderedMap<20, DbAccount>,
    /// The contracts, by code hash.
    pub contracts: OrderedMap<32, revm::state::Bytecode>,
    /// The logs that were committed.
    pub logs: Vec<Log>,
    /// The block hashes, by block number.
    pub block_hashes: OrderedMap<32, B256>,
}

/// A cache in front of a database.
#[derive(Debug)]
pub struct CacheDB<DB> {
    /// The cache.
    pub cache: Cache,
    /// The database that a cache miss falls through to.
    pub db: DB,
}

impl Clone for FlatExecutionWitness {
    fn clone(&self) -> (r: Self)
        ensures
            same_pre_state(self.pre_state, r.pre_state),
            r.block_hashes@ == self.block_hashes@,
            r.parent_header@ == self.parent_header@,
    {
        let r = FlatExecutionWitness {
            pre_state: self.pre_state.clone(),
            block_hashes: self.block_hashes.clone(),
            parent_header: self.parent_header.clone(),
        };
        proof {
            assert(r.block_hashes@ =~= self.block_hashes@);
            assert(r.parent_header@ =~= self.parent_header@);
        }
        r
    }
}

impl Default for FlatExecutionWitness {
    /// A witness of nothing.
    fn default() -> (r: Self)
        ensures
            r.pre_state.accounts@ == Map::<Seq<u8>, Account>::empty(),
            r.pre_state.contracts@ == Map::<Seq<u8>, Vec<u8>>::empty(),
            r.pre_state.destructed_addresses@ == Map::<Seq<u8>, ()>::empty(),
            r.block_hashes@ == Map::<Seq<u8>, B256>::empty(),
            r.parent_header@ == Seq::<u8>::empty(),
    {
        FlatExecutionWitness {
            pre_state: FlatPreState::default(),
            block_hashes: OrderedMap::new(),
            parent_header: Vec::new(),
        }
    }
}

impl FlatExecutionWitness {
    /// Creates a new flat execution witness from state components.
    pub fn new(
        pre_state: FlatPreState,
        block_hashes: OrderedMap<32, B256>,
        parent_header: Vec<u8>,
    ) -> (r: Self)
        ensures
            r == (FlatExecutionWitness { pre_state, block_hashes, parent_header }),
    {
        FlatExecutionWitness { pre_state, block_hashes, parent_header }
    }

    /// Every contract of the witness is contract code.
    pub open spec fn contracts_well_formed(&self) -> bool {
        forall|k: Seq<u8>| #[trigger]
            self.pre_state.contracts@.contains_key(k) ==> is_contract_code(
                self.pre_state.contracts@[k]@,
            )
    }

    /// Whether every contract of the witness is contract code, as
    /// [`FlatExecutionWitness::create_db`] asks.
    pub fn check_contracts(&self) -> (r: bool)
        ensures
            r == self.contracts_well_formed(),
    {
        let entries = self.pre_state.contracts.as_slice();
        let mut i: usize = 0;
        proof {
            lemma_ascending_entries(entries@);
        }
        while i < entries.len()
            invariant
                i <= entries.len(),
                entries_map(entries@) == self.pre_state.contracts@,
                forall|j: int|
                    0 <= j < entries@.len() ==> entries_map(entries@).contains_key(
                        (#[trigger] entries@[j]).0@,
                    ) && entries_map(entries@)[entries@[j].0@] == entries@[j].1,
                forall|j: int| 0 <= j < i ==> is_contract_code((#[trigger] entries@[j]).1@),
            decreases entries.len() - i,
        {
            if !check_contract_code(&entries[i].1) {
                proof {
                    let k = entries@[i as int].0@;
                    assert(self.pre_state.contracts@.contains_key(k));
                    assert(self.pre_state.contracts@[k] == entries@[i as int].1);
                }
                return false;
            }
            i += 1;
        }
        proof {
            assert forall|k: Seq<u8>| #[trigger]
                self.pre_state.contracts@.contains_key(k) implies is_contract_code(
                self.pre_state.contracts@[k]@,
            ) by {
                let j = choose|j: int| 0 <= j < entries@.len() && #[trigger] entries@[j].0@ == k;
                assert(is_contract_code(entries@[j].1@));
            }
        }
        true
    }

    /// Creates a cached database from the witness state.
    ///
    /// Returns a [`CacheDB`] backed by [`SelfDestructCompatibleFailingDB`], which ensures all state
    /// must come from the cache. Any cache miss results in an error, enforcing stateless execution
    /// constraints.
    pub fn create_db(self) -> (r: CacheDB<SelfDestructCompatibleFailingDB>)
        requires
            self.contracts_well_formed(),
        ensures
            r.cache.accounts@.map_values(|a: DbAccount| a@) == self.pre_state.accounts@.map_values(
                |a: Account| a@,
            ),
            forall|k: Seq<u8>| #[trigger]
                r.cache.accounts@.contains_key(k) <==> self.pre_state.accounts@.contains_key(k),
            forall|k: Seq<u8>| #[trigger]
                r.cache.accounts@.contains_key(k) ==> {
                    &&& r.cache.accounts@[k].info == self.pre_state.accounts@[k].info
                    &&& r.cache.accounts@[k].account_state
                        == self.pre_state.accounts@[k].account_state
                    &&& r.cache.accounts@[k].storage@ == self.pre_state.accounts@[k].storage@
                },
            r.cache.contracts@ == self.pre_state.contracts@.map_values(
                |b: Vec<u8>| executable_code(b@),
            ),
            forall|k: Seq<u8>| #[trigger]
                r.cache.contracts@.contains_key(k) ==> original_code(r.cache.contracts@[k])
                    == self.pre_state.contracts@[k]@,
            r.cache.logs@ == Seq::<Log>::empty(),
            r.cache.block_hashes@ == self.block_hashes@,
            r.db@ == self.pre_state.destructed_addresses@.dom(),
    {
        let accounts: OrderedMap<20, DbAccount> = cache_accounts(self.pre_state.accounts);
        proof {
            let made = accounts@.map_values(|a: DbAccount| a@);
            let given = self.pre_state.accounts@.map_values(|a: Account| a@);
            assert forall|k: Seq<u8>| #[trigger] accounts@.contains_key(k) implies
                self.pre_state.accounts@.contains_key(k) && accounts@[k]@
                == self.pre_state.accounts@[k]@ by {
                assert(made.contains_key(k) && given.contains_key(k) && made[k] == given[k]);
            }
            assert forall|k: Seq<u8>| self.pre_state.accounts@.contains_key(k) implies
                #[trigger] accounts@.contains_key(k) by {
                assert(given.contains_key(k) && made.contains_key(k));
            }
        }
        let contracts: OrderedMap<32, revm::state::Bytecode> = cache_contracts(
            self.pre_state.contracts,
        );
        CacheDB {
            cache: Cache {
                accounts,
                contracts,
                logs: Vec::new(),
                block_hashes: self.block_hashes,
            },
            db: SelfDestructCompatibleFailingDB::new(self.pre_state.destructed_addresses),
        }
    }
}

/// Makes cached accounts of those of a witness.
fn cache_accounts(accounts: OrderedMap<20, Account>) -> (r: OrderedMap<20, DbAccount>)
    ensures
        r@.map_values(|a: DbAccount| a@) == accounts@.map_values(|a: Account| a@),
{
    let entries: Vec<(Address, Account)> = accounts.into_entries();
    let ghost all = entries@;
    let mut cached: OrderedMap<20, DbAccount> = OrderedMap::new();
    proof {
        assert(cached@.map_values(|a: DbAccount| a@) =~= entries_map(all.take(0)).map_values(
            |a: Account| a@,
        ));
    }
    for entry in it: entries
        invariant
            it.seq() == all,
            cached@.map_values(|a: DbAccount| a@) == entries_map(
                all.take(it.index() as int),
            ).map_values(|a: Account| a@),
    {
        let ghost n = it.index() as int;
        let ghost before = cached@;
        let (address, account) = entry;
        let account = DbAccount {
            info: account.info,
            account_state: account.account_state,
            storage: account.storage,
        };
        cached.insert(address, account);
        proof {
            let t = all.take(n + 1);
            assert(t.drop_last() =~= all.take(n));
            assert(cached@.map_values(|a: DbAccount| a@) =~= before.map_values(
                |a: DbAccount| a@,
            ).insert(address@, account@));
            assert(entries_map(t).map_values(|a: Account| a@) =~= entries_map(
                t.drop_last(),
            ).map_values(|a: Account| a@).insert(address@, account@));
        }
    }
    proof {
        assert(all.take(all.len() as int) =~= all);
    }
    cached
}

/// Makes executable code of the contracts of a witness.
fn cache_contracts(contracts: OrderedMap<32, Vec<u8>>) -> (r: OrderedMap<
    32,
    revm::state::Bytecode,
>)
    requires
        forall|k: Seq<u8>| #[trigger]
            contracts@.contains_key(k) ==> is_contract_code(contracts@[k]@),
    ensures
        r@ == contracts@.map_values(|b: Vec<u8>| executable_code(b@)),
        forall|k: Seq<u8>| #[trigger]
            r@.contains_key(k) ==> original_code(r@[k]) == contracts@[k]@,
{
    let entries: Vec<(B256, Vec<u8>)> = contracts.into_entries();
    let ghost all = entries@;
    let mut cached: OrderedMap<32, revm::state::Bytecode> = OrderedMap::new();
    proof {
        lemma_ascending_entries(all);
        assert(cached@ =~= entries_map(all.take(0)).map_values(
            |b: Vec<u8>| executable_code(b@),
        ));
        assert forall|j: int| 0 <= j < all.len() implies is_contract_code((#[trigger] all[j]).1@) by {
            assert(contracts@.contains_key(all[j].0@));
        }
    }
    for entry in it: entries
        invariant
            it.seq() == all,
            forall|j: int| 0 <= j < all.len() ==> is_contract_code((#[trigger] all[j]).1@),
            forall|k: Seq<u8>| #[trigger]
                cached@.contains_key(k) ==> original_code(cached@[k]) == entries_map(
                    all.take(it.index() as int),
                )[k]@,
            cached@ == entries_map(all.take(it.index() as int)).map_values(
                |b: Vec<u8>| executable_code(b@),
            ),
    {
        let ghost n = it.index() as int;
        let ghost before = cached@;
        let (hash, bytes) = entry;
        let ghost raw = bytes@;
        assert(all[n].1 == bytes);
        let code: revm::state::Bytecode = new_raw(bytes);
        cached.insert(hash, code);
        proof {
            let t = all.take(n + 1);
            assert(t.drop_last() =~= all.take(n));
            assert(cached@ =~= entries_map(t).map_values(|b: Vec<u8>| executable_code(b@)));
        }
    }
    proof {
        assert(all.take(all.len() as int) =~= all);
    }
    cached
}

/// Database backend that fails on all accesses except storage reads from self-destructed accounts.
///
/// This enforces that all state accesses during execution must be present in the cache. Cache misses
/// indicate missing witness data and must fail, since only cached accesses are cryptographically
/// verified against the trie witness proof. Returning default values would bypass verification.
///
/// **Exception: Self-destructed account storage**
///
/// Storage reads from self-destructed accounts return zero on cache miss. This is safe because the
/// trie witness includes complete storage tries for self-destructed accounts, not just accessed
/// slots, allowing any non-existent slot to be proven as zero.
#[derive(Debug)]
pub struct SelfDestructCompatibleFailingDB {
    destructed_addresses: OrderedSet<20>,
}

impl View for SelfDestructCompatibleFailingDB {
    type V = Set<Seq<u8>>;

    /// The addresses of the self-destructed accounts.
    closed spec fn view(&self) -> Set<Seq<u8>> {
        self.destructed_addresses@.dom()
    }
}

impl Clone for SelfDestructCompatibleFailingDB {
    fn clone(&self) -> (r: Self)
        ensures
            r@ == self@,
    {
        SelfDestructCompatibleFailingDB { destructed_addresses: self.destructed_addresses.clone() }
    }
}

/// Error indicating that a database access was attempted outside the captured state.
#[derive(Clone, Copy, Debug, PartialEq, Eq, Structural)]
pub struct NonCapturedStateError;

impl NonCapturedStateError {
    /// What went wrong.
    pub fn message(&self) -> (r: &'static str)
        ensures
            r@ == "Database access not allowed in stateless execution context"@,
    {
        "Database access not allowed in stateless execution context"
    }
}

impl SelfDestructCompatibleFailingDB {
    /// Creates a new instance with the given set of self-destructed addresses.
    pub fn new(destructed_addresses: OrderedSet<20>) -> (r: Self)
        ensures
            r@ == destructed_addresses@.dom(),
    {
        SelfDestructCompatibleFailingDB { destructed_addresses }
    }

    /// Account information: never captured.
    pub fn basic_ref(&self, _address: Address) -> (r: Result<
        Option<revm::state::AccountInfo>,
        NonCapturedStateError,
    >)
        ensures
            r == Err::<Option<revm::state::AccountInfo>, NonCapturedStateError>(
                NonCapturedStateError,
            ),
    {
        Err(NonCapturedStateError)
    }

    /// Contract code: never captured.
    pub fn code_by_hash_ref(&self, _code_hash: B256) -> (r: Result<
        revm::state::Bytecode,
        NonCapturedStateError,
    >)
        ensures
            r == Err::<revm::state::Bytecode, NonCapturedStateError>(NonCapturedStateError),
    {
        Err(NonCapturedStateError)
    }

    /// A storage slot: zero for a self-destructed account, and not captured for any other.
    pub fn storage_ref(&self, address: Address, _index: U256) -> (r: Result<
        U256,
        NonCapturedStateError,
    >)
        ensures
            match r {
                Ok(value) => self@.contains(address@) && value@ == zero_bytes(32),
                Err(_) => !self@.contains(address@),
            },
            r matches Ok(value) ==> forall|i: int| 0 <= i < 32 ==> #[trigger] value.bytes@[i] == 0,
    {
        if self.destructed_addresses.contains_key(&address) {
            return Ok(FixedBytes::zero());
        }
        Err(NonCapturedStateError)
    }

    /// A block hash: never captured.
    pub fn block_hash_ref(&self, _number: u64) -> (r: Result<B256, NonCapturedStateError>)
        ensures
            r == Err::<B256, NonCapturedStateError>(NonCapturedStateError),
    {
        Err(NonCapturedStateError)
    }
}

} // verus!
