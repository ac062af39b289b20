use alloy_eip7928::{
    compute_block_access_list_hash, AccountChanges, BalanceChange, CodeChange, NonceChange,
    SlotChanges, StorageChange,
};
use alloy_primitives::{Address as OutsideAddress, U256 as OutsideWord};
use stateless::bal::{AccountBal, AccountInfoBal, Bal, BalWrites, StorageBal};
use stateless::primitives::{Address, FixedBytes, U256};

fn address(byte: u8) -> Address {
    FixedBytes { bytes: [byte; 20] }
}

fn word(byte: u8) -> U256 {
    FixedBytes { bytes: [byte; 32] }
}

fn outside_word(byte: u8) -> OutsideWord {
    OutsideWord::from_be_bytes([byte; 32])
}

fn untouched() -> AccountBal {
    AccountBal {
        account_info: AccountInfoBal {
            nonce: BalWrites { writes: vec![] },
            balance: BalWrites { writes: vec![] },
            code: BalWrites { writes: vec![] },
        },
        storage: StorageBal { storage: vec![] },
    }
}

fn written() -> AccountBal {
    AccountBal {
        account_info: AccountInfoBal {
            nonce: BalWrites { writes: vec![(1, 7), (2, 8)] },
            balance: BalWrites { writes: vec![(3, word(4))] },
            code: BalWrites { writes: vec![(2, (word(0xcc), vec![0xef, 0x01, 0x99]))] },
        },
        storage: StorageBal {
            storage: vec![
                (word(9), BalWrites { writes: vec![(0, word(1)), (5, word(2))] }),
                (word(6), BalWrites { writes: vec![] }),
                (word(3), BalWrites { writes: vec![(1, word(0))] }),
            ],
        },
    }
}

fn outside_list() -> Vec<AccountChanges> {
    vec![
        AccountChanges {
            address: OutsideAddress::repeat_byte(1),
            storage_changes: vec![
                SlotChanges::new(outside_word(3), vec![StorageChange::new(1, outside_word(0))]),
                SlotChanges::new(
                    outside_word(9),
                    vec![StorageChange::new(0, outside_word(1)), StorageChange::new(5, outside_word(2))],
                ),
            ],
            storage_reads: vec![outside_word(6)],
            balance_changes: vec![BalanceChange::new(3, outside_word(4))],
            nonce_changes: vec![NonceChange::new(1, 7), NonceChange::new(2, 8)],
            code_changes: vec![CodeChange::new(2, vec![0xef, 0x01, 0x99].into())],
        },
        AccountChanges {
            address: OutsideAddress::repeat_byte(2),
            storage_changes: vec![],
            storage_reads: vec![],
            balance_changes: vec![],
            nonce_changes: vec![],
            code_changes: vec![],
        },
    ]
}

#[test]
fn the_hash_of_an_empty_list_is_that_of_its_encoding() {
    let hash = Bal { accounts: vec![] }.hash();
    assert_eq!(hash.bytes, alloy_primitives::keccak256([0xc0u8]).0);
    assert_eq!(hash.bytes[..4], [0x1d, 0xcc, 0x4d, 0xe8]);
}

#[test]
fn accounts_and_slots_are_hashed_in_order() {
    let expected = compute_block_access_list_hash(&outside_list()).0;
    let ascending = Bal { accounts: vec![(address(1), written()), (address(2), untouched())] };
    assert_eq!(ascending.hash().bytes, expected);
    let descending = Bal { accounts: vec![(address(2), untouched()), (address(1), written())] };
    assert_eq!(descending.hash().bytes, expected);
}

#[test]
fn every_access_enters_the_hash_and_the_hash_of_code_does_not() {
    let hash = |account: AccountBal| Bal { accounts: vec![(address(1), account)] }.hash();
    let expected = hash(written());
    let mut hashes = vec![expected, Bal { accounts: vec![(address(3), written())] }.hash()];
    let mut changed = written();
    changed.account_info.nonce.writes[1] = (2, 9);
    hashes.push(hash(changed));
    let mut changed = written();
    changed.account_info.nonce.writes[1] = (3, 8);
    hashes.push(hash(changed));
    let mut changed = written();
    changed.account_info.balance.writes[0] = (3, word(5));
    hashes.push(hash(changed));
    let mut changed = written();
    changed.account_info.code.writes[0].1 .1 = vec![0xef];
    hashes.push(hash(changed));
    let mut changed = written();
    changed.storage.storage[0].1.writes[1] = (5, word(3));
    hashes.push(hash(changed));
    let mut changed = written();
    changed.storage.storage.remove(1);
    hashes.push(hash(changed));
    for i in 0..hashes.len() {
        for j in 0..i {
            assert_ne!(hashes[i], hashes[j]);
        }
    }

    let mut other_code_hash = written();
    other_code_hash.account_info.code.writes[0].1 .0 = word(0xdd);
    assert_eq!(hash(other_code_hash), expected);
}
