use stateless::map::OrderedMap;
use stateless::primitives::{Address, FixedBytes, B256, U256};
use stateless::witness::{
    AccessedAccount, AccountStatus, CacheAccount, CacheState, FlatWitnessRecord,
};

fn word(byte: u8) -> U256 {
    FixedBytes { bytes: [byte; 32] }
}

fn address(byte: u8) -> Address {
    FixedBytes { bytes: [byte; 20] }
}

fn keccak(bytes: &[u8]) -> B256 {
    FixedBytes { bytes: alloy_primitives::keccak256(bytes).0 }
}

fn storage(slots: &[u8]) -> OrderedMap<32, U256> {
    let mut storage = OrderedMap::new();
    for slot in slots {
        storage.insert(word(*slot), word(0xff));
    }
    storage
}

fn code(bytes: &[u8]) -> revm::state::Bytecode {
    revm::state::Bytecode::new_raw(bytes.to_vec().into())
}

fn empty_cache() -> CacheState {
    CacheState { accounts: OrderedMap::new(), contracts: OrderedMap::new() }
}

fn keys(account: &AccessedAccount) -> Option<Vec<u8>> {
    match account {
        AccessedAccount::Destroyed => None,
        AccessedAccount::StorageKeys(keys) => {
            Some(keys.as_slice().iter().map(|(key, _)| key.bytes[0]).collect())
        }
    }
}

#[test]
fn accounts_are_recorded_with_their_storage_keys() {
    let mut cache = empty_cache();
    cache.accounts.insert(
        address(1),
        CacheAccount { storage: Some(storage(&[9, 3])), status: AccountStatus::Changed },
    );
    cache.accounts.insert(
        address(2),
        CacheAccount { storage: None, status: AccountStatus::LoadedNotExisting },
    );
    cache.accounts.insert(
        address(3),
        CacheAccount { storage: Some(storage(&[1])), status: AccountStatus::Destroyed },
    );
    cache.accounts.insert(
        address(4),
        CacheAccount { storage: Some(storage(&[5])), status: AccountStatus::DestroyedChanged },
    );

    let mut record = FlatWitnessRecord::default();
    record.record_executed_state(&cache);
    assert_eq!(record.accounts.len(), 4);
    assert_eq!(keys(record.accounts.get(&address(1)).unwrap()), Some(vec![3, 9]));
    assert_eq!(keys(record.accounts.get(&address(2)).unwrap()), Some(vec![]));
    assert_eq!(keys(record.accounts.get(&address(3)).unwrap()), None);
    // Only the plain destroyed status counts as destroyed.
    assert_eq!(keys(record.accounts.get(&address(4)).unwrap()), Some(vec![5]));
}

#[test]
fn contracts_are_recorded_by_the_hash_of_their_code() {
    let mut cache = empty_cache();
    // The key in the cache does not matter, nor does the padding of executable code.
    cache.contracts.insert(word(0), code(&[0x60, 0x01]));
    cache.contracts.insert(word(1), code(&[]));

    let mut record = FlatWitnessRecord::default();
    record.record_executed_state(&cache);
    assert_eq!(record.contracts.len(), 2);
    assert_eq!(record.contracts.get(&keccak(&[0x60, 0x01])), Some(&Some(code(&[0x60, 0x01]))));
    assert!(record.contracts.contains_key(&keccak(&[])));
}

#[test]
fn a_later_recording_replaces_contracts_and_adds_accounts() {
    let mut first = empty_cache();
    first.contracts.insert(word(0), code(&[1]));
    for byte in [1, 2] {
        first.accounts.insert(
            address(byte),
            CacheAccount { storage: Some(storage(&[byte])), status: AccountStatus::Loaded },
        );
    }
    let mut second = empty_cache();
    second.contracts.insert(word(0), code(&[2]));
    second.accounts.insert(
        address(2),
        CacheAccount { storage: None, status: AccountStatus::Destroyed },
    );

    let mut record = FlatWitnessRecord::default();
    record.record_executed_state(&first);
    record.record_executed_state(&second);
    assert_eq!(record.contracts.len(), 1);
    assert!(record.contracts.contains_key(&keccak(&[2])));
    assert_eq!(record.accounts.len(), 2);
    assert_eq!(keys(record.accounts.get(&address(1)).unwrap()), Some(vec![1]));
    assert_eq!(keys(record.accounts.get(&address(2)).unwrap()), None);
}

#[test]
fn recording_the_same_state_twice_changes_nothing() {
    let mut cache = empty_cache();
    cache.contracts.insert(word(0), code(&[1]));
    cache.contracts.insert(word(1), code(&[1]));
    cache.contracts.insert(word(2), code(&[2]));
    cache.accounts.insert(
        address(1),
        CacheAccount { storage: Some(storage(&[4])), status: AccountStatus::Loaded },
    );
    let mut record = FlatWitnessRecord::default();
    record.record_executed_state(&cache);
    let once = format!("{:?}", record);
    record.record_executed_state(&cache);
    assert_eq!(format!("{:?}", record), once);
    assert_eq!(record.contracts.len(), 2);
}

#[test]
fn a_cloned_record_holds_the_same() {
    let mut cache = empty_cache();
    cache.contracts.insert(word(0), code(&[0x60, 0x01]));
    cache.accounts.insert(
        address(1),
        CacheAccount { storage: Some(storage(&[4, 5])), status: AccountStatus::Loaded },
    );
    cache.accounts.insert(
        address(2),
        CacheAccount { storage: None, status: AccountStatus::Destroyed },
    );
    let mut record = FlatWitnessRecord::default();
    record.record_executed_state(&cache);
    let copy = record.clone();
    assert_eq!(keys(copy.accounts.get(&address(1)).unwrap()), Some(vec![4, 5]));
    assert_eq!(keys(copy.accounts.get(&address(2)).unwrap()), None);
    assert_eq!(copy.contracts.get(&keccak(&[0x60, 0x01])), Some(&Some(code(&[0x60, 0x01]))));
    assert_eq!(format!("{:?}", copy), format!("{:?}", record));
}
