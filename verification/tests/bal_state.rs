use std::cell::RefCell;

use stateless::bal::{AccountBal, AccountInfoBal, Bal, BalWrites, StorageBal};
use stateless::primitives::{Address, FixedBytes, B256, U256};
use stateless::subblock::bal_state::{
    apply_changes, bal_to_hashed_post_state, bal_to_hashed_post_state_with_pre_state,
    PreStateAccountProvider, TrieAccount,
};

fn word(value: u64) -> U256 {
    let mut bytes = [0u8; 32];
    bytes[24..].copy_from_slice(&value.to_be_bytes());
    FixedBytes { bytes }
}

fn address(byte: u8) -> Address {
    FixedBytes { bytes: [byte; 20] }
}

fn keccak(bytes: &[u8]) -> B256 {
    FixedBytes { bytes: alloy_primitives::keccak256(bytes).0 }
}

fn untouched() -> AccountBal {
    AccountBal {
        account_info: AccountInfoBal {
            nonce: BalWrites { writes: vec![] },
            balance: BalWrites { writes: vec![] },
            code: BalWrites { writes: vec![] },
        },
        storage: StorageBal { storage: vec![] },
    }
}

#[test]
fn test_empty_bal() {
    let bal = Bal { accounts: vec![] };
    let state = bal_to_hashed_post_state(&bal, 1);
    assert!(state.accounts.is_empty());
    assert!(state.storages.is_empty());
}

#[test]
fn test_bal_with_balance_change() {
    let address = address(0x01);

    let mut account_bal = untouched();
    // Write balance at index 0
    account_bal.account_info.balance.writes.push((0, word(100)));

    let bal = Bal { accounts: vec![(address, account_bal)] };

    // Query at index 1 should see the value written at index 0
    let state = bal_to_hashed_post_state(&bal, 1);
    assert_eq!(state.accounts.len(), 1);

    let hashed_address = keccak(&address.bytes);
    let account = state.accounts.get(&hashed_address).unwrap().unwrap();
    assert_eq!(account.balance, word(100));
    assert_eq!(account.nonce, 0); // default
    assert!(account.bytecode_hash.is_none()); // default
}

#[test]
fn test_bal_with_storage_change() {
    let address = address(0x02);

    let mut account_bal = untouched();
    // Write storage at index 0
    let slot = word(42);
    let value = word(123);
    account_bal.storage.storage.push((slot, BalWrites { writes: vec![(0, value)] }));

    let bal = Bal { accounts: vec![(address, account_bal)] };

    // Query at index 1 should see the value written at index 0
    let state = bal_to_hashed_post_state(&bal, 1);

    let hashed_address = keccak(&address.bytes);
    assert!(state.storages.contains_key(&hashed_address));

    let storage = state.storages.get(&hashed_address).unwrap();
    let hashed_slot = keccak(&slot.bytes);
    assert_eq!(storage.storage.get(&hashed_slot), Some(&value));
}

/// A pre-state that answers from a list, and remembers what it was asked.
struct MockPreState {
    accounts: Vec<(Address, TrieAccount)>,
    missing: Vec<Address>,
    asked: RefCell<Vec<Address>>,
}

impl MockPreState {
    fn new() -> Self {
        MockPreState { accounts: vec![], missing: vec![], asked: RefCell::new(vec![]) }
    }
}

impl PreStateAccountProvider for MockPreState {
    type Error = Address;

    fn account(&self, address: Address) -> Result<Option<TrieAccount>, Address> {
        self.asked.borrow_mut().push(address);
        if self.missing.contains(&address) {
            return Err(address);
        }
        Ok(self.accounts.iter().find(|(known, _)| *known == address).map(|(_, a)| *a))
    }
}

fn pre_account(code_hash: B256) -> TrieAccount {
    TrieAccount { nonce: 5, balance: word(100), storage_root: word(7), code_hash }
}

#[test]
fn test_bal_partial_change_uses_prestate() {
    let address = address(0x03);
    let mut mock = MockPreState::new();
    mock.accounts.push((address, pre_account(keccak(&[]))));

    // BAL: only balance changed to 200 at index 0
    let mut account_bal = untouched();
    account_bal.account_info.balance.writes.push((0, word(200)));
    let bal = Bal { accounts: vec![(address, account_bal)] };

    let state = bal_to_hashed_post_state_with_pre_state(&bal, 1, &mock).unwrap();
    let account = state.accounts.get(&keccak(&address.bytes)).unwrap().unwrap();

    // Balance should come from BAL
    assert_eq!(account.balance, word(200));
    // Nonce should come from pre-state, NOT default 0
    assert_eq!(account.nonce, 5);
    // The hash of no code maps to None
    assert!(account.bytecode_hash.is_none());
}

#[test]
fn code_of_the_pre_state_is_kept() {
    let address = address(0x04);
    let mut mock = MockPreState::new();
    mock.accounts.push((address, pre_account(keccak(&[0x60]))));
    let mut account_bal = untouched();
    account_bal.account_info.nonce.writes.push((3, 6));
    let bal = Bal { accounts: vec![(address, account_bal)] };

    let state = bal_to_hashed_post_state_with_pre_state(&bal, 4, &mock).unwrap();
    let account = state.accounts.get(&keccak(&address.bytes)).unwrap().unwrap();
    assert_eq!(account.nonce, 6);
    assert_eq!(account.balance, word(100));
    assert_eq!(account.bytecode_hash, Some(keccak(&[0x60])));

    // Before the write nothing has changed.
    let state = bal_to_hashed_post_state_with_pre_state(&bal, 3, &mock).unwrap();
    assert!(state.accounts.is_empty());
}

#[test]
fn the_pre_state_is_asked_only_where_it_is_needed() {
    let mut full = untouched();
    full.account_info.nonce.writes.push((1, 1));
    full.account_info.balance.writes.push((1, word(1)));
    full.account_info.code.writes.push((1, (keccak(&[0x01]), vec![0x01])));
    let mut slots_only = untouched();
    slots_only.storage.storage.push((word(1), BalWrites { writes: vec![(1, word(2))] }));
    let mut partial = untouched();
    partial.account_info.code.writes.push((1, (keccak(&[0x02]), vec![0x02])));
    let bal = Bal {
        accounts: vec![
            (address(1), full),
            (address(2), slots_only),
            (address(3), partial),
            (address(4), untouched()),
        ],
    };

    let mock = MockPreState::new();
    let state = bal_to_hashed_post_state_with_pre_state(&bal, 9, &mock).unwrap();
    assert_eq!(*mock.asked.borrow(), vec![address(3)]);
    assert_eq!(state.accounts.len(), 2);
    assert_eq!(state.storages.len(), 1);
    let written = state.accounts.get(&keccak(&[1u8; 20])).unwrap().unwrap();
    assert_eq!(written.bytecode_hash, Some(keccak(&[0x01])));
    // An account that did not exist starts from nothing.
    let created = state.accounts.get(&keccak(&[3u8; 20])).unwrap().unwrap();
    assert_eq!((created.nonce, created.balance), (0, word(0)));
    assert_eq!(created.bytecode_hash, Some(keccak(&[0x02])));
    assert!(!state.storages.get(&keccak(&[2u8; 20])).unwrap().wiped);
}

#[test]
fn the_first_failing_lookup_is_returned() {
    let mut changed = untouched();
    changed.account_info.nonce.writes.push((0, 1));
    let bal = Bal {
        accounts: vec![
            (address(1), changed.clone()),
            (address(2), changed.clone()),
            (address(3), changed),
        ],
    };
    let mut mock = MockPreState::new();
    mock.missing = vec![address(3), address(2)];
    assert_eq!(
        bal_to_hashed_post_state_with_pre_state(&bal, 1, &mock).err(),
        Some(address(2))
    );
    assert_eq!(*mock.asked.borrow(), vec![address(1), address(2)]);
}

#[test]
fn without_a_pre_state_both_conversions_agree() {
    let mut changed = untouched();
    changed.account_info.nonce.writes.push((0, 9));
    let bal = Bal { accounts: vec![(address(1), changed)] };
    let plain = bal_to_hashed_post_state(&bal, 1);
    let looked_up = bal_to_hashed_post_state_with_pre_state(&bal, 1, &MockPreState::new()).unwrap();
    assert_eq!(plain.accounts.as_slice(), looked_up.accounts.as_slice());
}

#[test]
fn a_full_change_does_not_depend_on_the_pre_state() {
    let mut full = untouched();
    full.account_info.nonce.writes.push((1, 1));
    full.account_info.balance.writes.push((1, word(1)));
    full.account_info.code.writes.push((1, (keccak(&[0x01]), vec![0x01])));
    let changes = Bal { accounts: vec![(address(1), full)] }.changes_at(2);
    let pre = pre_account(keccak(&[0x60]));
    assert_eq!(apply_changes(&changes[0].1, None), apply_changes(&changes[0].1, Some(pre)));
}

#[test]
fn a_read_sees_the_writes_of_earlier_indices() {
    // Write A at 0, write B at 2
    let writes = BalWrites { writes: vec![(0, 'A'), (2, 'B')] };
    assert_eq!(writes.get(0), None);
    assert_eq!(writes.get(1), Some(&'A'));
    assert_eq!(writes.get(2), Some(&'A'));
    assert_eq!(writes.get(3), Some(&'B'));
    assert_eq!(writes.get(4), Some(&'B'));
}

#[test]
fn long_lists_of_writes_are_searched() {
    let writes: BalWrites<u64> =
        BalWrites { writes: (0..40).map(|i| (3 * i + 1, 100 + i)).collect() };
    assert_eq!(writes.get(0), None);
    assert_eq!(writes.get(1), None);
    for i in 0..40u64 {
        for index in 3 * i + 2..3 * i + 5 {
            assert_eq!(writes.get(index), Some(&(100 + i)));
        }
    }
    assert_eq!(writes.get(u64::MAX), Some(&139));
}

#[test]
fn few_writes_are_walked_in_order() {
    let writes: BalWrites<u64> = BalWrites { writes: vec![(4, 1), (2, 2), (9, 3)] };
    assert_eq!(writes.get(3), None);
    assert_eq!(writes.get(5), Some(&2));
    assert_eq!(writes.get(10), Some(&3));
}

#[test]
fn every_index_past_the_last_write_shows_the_final_state() {
    let mut account = untouched();
    account.account_info.balance.writes = (0..7).map(|i| (i, word(i + 1))).collect();
    account
        .storage
        .storage
        .push((word(8), BalWrites { writes: vec![(2, word(1)), (6, word(0))] }));
    // Fewer than five writes need no order.
    account.account_info.nonce.writes = vec![(5, 1), (3, 2)];
    let bal = Bal { accounts: vec![(address(1), account)] };
    for index in [7, 8, 1000, u64::MAX] {
        let state = bal_to_hashed_post_state(&bal, index);
        let key = keccak(&[1u8; 20]);
        assert_eq!(state.accounts.get(&key).unwrap().unwrap().balance, word(7));
        assert_eq!(state.accounts.get(&key).unwrap().unwrap().nonce, 2);
        // A slot that was cleared is a change too.
        let storage = &state.storages.get(&key).unwrap().storage;
        assert_eq!(storage.get(&keccak(&word(8).bytes)), Some(&word(0)));
    }
    let state = bal_to_hashed_post_state(&bal, 3);
    let key = keccak(&[1u8; 20]);
    assert_eq!(state.accounts.get(&key).unwrap().unwrap().balance, word(3));
    assert_eq!(
        state.storages.get(&key).unwrap().storage.get(&keccak(&word(8).bytes)),
        Some(&word(1))
    );
}

#[test]
fn slots_that_were_only_read_leave_no_storage() {
    let mut account = untouched();
    account.storage.storage.push((word(1), BalWrites { writes: vec![] }));
    account.storage.storage.push((word(2), BalWrites { writes: vec![(5, word(3))] }));
    let bal = Bal { accounts: vec![(address(1), account)] };
    assert!(bal_to_hashed_post_state(&bal, 5).storages.is_empty());
    let state = bal_to_hashed_post_state(&bal, 6);
    let storage = &state.storages.get(&keccak(&[1u8; 20])).unwrap().storage;
    assert_eq!(storage.len(), 1);
    assert_eq!(storage.get(&keccak(&word(2).bytes)), Some(&word(3)));
}
