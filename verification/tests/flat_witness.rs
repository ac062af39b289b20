use stateless::flat_witness::{
    FlatExecutionWitness, NonCapturedStateError, SelfDestructCompatibleFailingDB,
};
use stateless::map::OrderedMap;
use stateless::primitives::{Address, FixedBytes, B256, U256};
use stateless::witness::{Account, FlatPreState};

fn word(byte: u8) -> U256 {
    FixedBytes { bytes: [byte; 32] }
}

fn address(byte: u8) -> Address {
    FixedBytes { bytes: [byte; 20] }
}

fn delegation(version: u8) -> Vec<u8> {
    let mut bytes = vec![0xef, 0x01, version];
    bytes.extend([0x42; 20]);
    bytes
}

fn witness(contracts: &[Vec<u8>]) -> FlatExecutionWitness {
    let mut pre_state = FlatPreState::default();
    let mut storage = OrderedMap::new();
    storage.insert(word(1), word(2));
    pre_state.accounts.insert(
        address(7),
        Account {
            info: revm::state::AccountInfo { nonce: 11, ..Default::default() },
            account_state: revm::database::AccountState::StorageCleared,
            storage,
        },
    );
    for (i, code) in contracts.iter().enumerate() {
        pre_state.contracts.insert(word(i as u8), code.clone());
    }
    pre_state.destructed_addresses.insert(address(9), ());
    let mut block_hashes = OrderedMap::new();
    block_hashes.insert(word(3), word(4));
    FlatExecutionWitness::new(pre_state, block_hashes, vec![0xc0])
}

#[test]
fn the_database_holds_what_the_witness_holds() {
    let codes = [vec![0x60, 0x01, 0x00], delegation(0), vec![]];
    let witness = witness(&codes);
    assert_eq!(witness.parent_header, vec![0xc0]);
    assert!(witness.check_contracts());
    let db = witness.create_db();

    let account = db.cache.accounts.get(&address(7)).unwrap();
    assert_eq!(db.cache.accounts.len(), 1);
    assert_eq!(account.info.nonce, 11);
    assert_eq!(account.account_state, revm::database::AccountState::StorageCleared);
    assert_eq!(account.storage.get(&word(1)), Some(&word(2)));
    assert_eq!(db.cache.contracts.len(), 3);
    for (i, code) in codes.iter().enumerate() {
        let made = db.cache.contracts.get(&word(i as u8)).unwrap();
        let expected = revm::state::Bytecode::new_raw(code.clone().into());
        assert_eq!(*made, expected);
        assert_eq!(made.original_byte_slice(), code.as_slice());
    }
    assert!(db.cache.contracts.get(&word(1)).unwrap().is_eip7702());
    assert_eq!(db.cache.block_hashes.get(&word(3)), Some(&word(4)));
    assert!(db.cache.logs.is_empty());
    assert_eq!(db.db.storage_ref(address(9), word(0)), Ok(word(0)));
}

#[test]
fn code_that_is_no_contract_is_found() {
    assert!(!witness(&[vec![1], delegation(1)]).check_contracts());
    assert!(!witness(&[vec![0xef, 0x01]]).check_contracts());
    assert!(witness(&[vec![0xef], vec![0xef, 0x00]]).check_contracts());
    for code in [delegation(0), delegation(1), vec![0xef, 0x01], vec![0xef], vec![0xef, 0x02]] {
        assert_eq!(
            witness(&[code.clone()]).check_contracts(),
            revm::state::Bytecode::new_raw_checked(code.into()).is_ok()
        );
    }
}

#[test]
fn everything_but_the_storage_of_destructed_accounts_is_refused() {
    let mut destructed = OrderedMap::new();
    destructed.insert(address(1), ());
    let db = SelfDestructCompatibleFailingDB::new(destructed);
    assert_eq!(db.storage_ref(address(1), word(5)), Ok(word(0)));
    assert_eq!(db.storage_ref(address(2), word(5)), Err(NonCapturedStateError));
    assert!(db.basic_ref(address(1)).is_err());
    assert!(db.code_by_hash_ref(word(1)).is_err());
    assert_eq!(db.block_hash_ref(1), Err::<B256, _>(NonCapturedStateError));
    assert_eq!(
        NonCapturedStateError.message(),
        "Database access not allowed in stateless execution context"
    );
}

#[test]
fn a_default_witness_makes_an_empty_database() {
    let witness = FlatExecutionWitness::default();
    assert!(witness.parent_header.is_empty());
    assert!(witness.check_contracts());
    let db = witness.create_db();
    assert!(db.cache.accounts.is_empty());
    assert!(db.cache.contracts.is_empty());
    assert!(db.cache.block_hashes.is_empty());
    assert!(db.db.storage_ref(address(0), word(0)).is_err());
}

#[test]
fn clones_hold_the_same() {
    let original = witness(&[vec![1], delegation(0)]);
    let copy = original.clone();
    assert_eq!(format!("{:?}", copy), format!("{:?}", original));
    assert_eq!(copy.pre_state.accounts.get(&address(7)).unwrap().info.nonce, 11);
    let db = SelfDestructCompatibleFailingDB::new(original.pre_state.destructed_addresses);
    assert_eq!(db.clone().storage_ref(address(9), word(1)), Ok(word(0)));
    assert_eq!(db.clone().storage_ref(address(8), word(1)), Err(NonCapturedStateError));
}

#[test]
fn a_default_account_has_nothing() {
    let account = Account::default();
    assert_eq!(account.info, revm::state::AccountInfo::default());
    assert_eq!(account.account_state, revm::database::AccountState::None);
    assert!(account.storage.is_empty());
}
