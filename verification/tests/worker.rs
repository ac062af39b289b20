use std::cell::RefCell;
use std::ops::Range;
use std::sync::Arc;

use stateless::bal::{AccountBal, AccountInfoBal, Bal, BalWrites, StorageBal};
use stateless::error::StatelessValidationError;
use stateless::header::Header;
use stateless::primitives::{Address, Bloom, FixedBytes, B256, U256};
use stateless::receipt::{combined_bloom, EthereumReceipt, Log, TxType};
use stateless::subblock::aggregator::{
    combine_subblock_outputs, verify_bal_ranges_complete, verify_gas_chaining,
};
use stateless::subblock::bal_state::{PreStateAccountProvider, TrieAccount};
use stateless::subblock::bal_validation::check_built_bal;
use stateless::subblock::error::SubblockValidationError;
use stateless::subblock::host::{BlockHost, WorkerHost};
use stateless::subblock::types::{
    Block, ExecutionWitness, Requests, SubblockInput, SubblockOutput,
};
use stateless::subblock::worker::{
    check_subblock, extract_receipts, subblock_output, subblock_position, subblock_validation,
    Execution, ReadySubblock, SubblockPosition,
};

fn position(range: Range<u64>, tx_count: usize) -> (usize, usize, bool, bool) {
    let p = subblock_position(&range, tx_count);
    (p.tx_start, p.tx_end, p.is_first, p.is_last)
}

#[test]
fn test_bal_range_to_tx_indices_first_subblock() {
    // [0, 3): pre-execution, txs 0 and 1
    assert_eq!(position(0..3, 10), (0, 2, true, false));
}

#[test]
fn test_bal_range_to_tx_indices_middle_subblock() {
    // [3, 6): txs 2, 3 and 4
    assert_eq!(position(3..6, 10), (2, 5, false, false));
}

#[test]
fn test_bal_range_to_tx_indices_last_subblock() {
    // [8, 12): txs 7, 8, 9 and post-execution
    assert_eq!(position(8..12, 10), (7, 10, false, true));
}

#[test]
fn test_is_first_is_last_flags() {
    assert_eq!(position(0..4, 10), (0, 3, true, false));
    assert_eq!(position(4..8, 10), (3, 7, false, false));
    assert_eq!(position(0..12, 10), (0, 10, true, true));
    // The range that ends right before the post-execution index counts as last, too.
    assert_eq!(position(0..11, 10), (0, 10, true, true));
    assert_eq!(position(11..12, 10), (10, 10, false, true));
    assert_eq!(position(0..0, 10), (0, 0, true, false));
    assert_eq!(position(0..2, 0), (0, 0, true, true));
}

fn log(byte: u8) -> Log {
    Log {
        address: FixedBytes { bytes: [byte; 20] },
        topics: vec![FixedBytes { bytes: [byte; 32] }, FixedBytes { bytes: [byte + 1; 32] }],
        data: vec![1, 2, 3],
    }
}

fn receipt(gas: u64, logs: Vec<Log>) -> EthereumReceipt {
    EthereumReceipt { tx_type: TxType::Eip4844, success: false, cumulative_gas_used: gas, logs }
}

fn bloom_of(logs: &[Log]) -> Bloom {
    let mut bloom = alloy_primitives::Bloom::ZERO;
    for log in logs {
        let topics = log.topics.iter().map(|t| alloy_primitives::B256::new(t.bytes)).collect();
        let outside = alloy_primitives::Log::new_unchecked(
            alloy_primitives::Address::new(log.address.bytes),
            topics,
            log.data.clone().into(),
        );
        bloom.accrue_log(&outside);
    }
    FixedBytes { bytes: bloom.0 .0 }
}

#[test]
fn the_bloom_of_receipts_holds_every_log() {
    let receipts = vec![receipt(1, vec![log(1), log(2)]), receipt(2, vec![]), receipt(3, vec![log(9)])];
    let bloom = combined_bloom(&receipts);
    assert_eq!(bloom, bloom_of(&[log(1), log(2), log(9)]));
    assert!(bloom != Bloom::zero());
    assert_eq!(combined_bloom(&[]), Bloom::zero());
}

#[test]
fn the_bloom_does_not_depend_on_how_receipts_are_split() {
    let receipts = vec![receipt(1, vec![log(1)]), receipt(2, vec![log(2)]), receipt(3, vec![log(3)])];
    let outputs: Vec<SubblockOutput<EthereumReceipt>> = receipts
        .iter()
        .map(|r| SubblockOutput {
            receipts: vec![r.clone()],
            logs_bloom: combined_bloom(&[r.clone()]),
            requests: Requests::empty(),
            cumulative_gas_used: 0,
        })
        .collect();
    let (_, bloom, _) = combine_subblock_outputs(&outputs);
    assert_eq!(bloom, combined_bloom(&receipts));
}

fn gas(receipts: &[EthereumReceipt]) -> Vec<u64> {
    receipts.iter().map(|r| r.cumulative_gas_used).collect()
}

fn block() -> Vec<EthereumReceipt> {
    vec![
        receipt(21000, vec![log(1)]),
        receipt(50000, vec![]),
        receipt(50000, vec![log(2)]),
        receipt(90000, vec![log(3)]),
    ]
}

#[test]
fn receipts_are_extracted_with_local_gas() {
    assert_eq!(gas(&extract_receipts(&block(), 0, 2)), vec![21000, 50000]);
    assert_eq!(gas(&extract_receipts(&block(), 1, 4)), vec![29000, 29000, 69000]);
    assert_eq!(gas(&extract_receipts(&block(), 3, 9)), vec![40000]);
    assert!(extract_receipts(&block(), 2, 2).is_empty());
    assert!(extract_receipts(&block(), 3, 1).is_empty());
    assert!(extract_receipts(&block(), 4, 9).is_empty());
    let extracted = extract_receipts(&block(), 2, 3);
    assert_eq!(extracted[0].logs, vec![log(2)]);
    assert_eq!(extracted[0].tx_type, TxType::Eip4844);
    // Gas below that of the receipt before the range counts as none.
    let falling = vec![receipt(10, vec![]), receipt(4, vec![])];
    assert_eq!(gas(&extract_receipts(&falling, 1, 2)), vec![0]);
}

fn requests() -> Requests {
    Requests { requests: vec![vec![0, 7], vec![1]] }
}

fn whole() -> Execution {
    Execution::Block { receipts: block(), requests: requests(), bal: Bal { accounts: vec![] } }
}

fn place(range: Range<u64>) -> SubblockPosition {
    subblock_position(&range, 4)
}

#[test]
fn outputs_hold_the_part_of_the_subblock() {
    let first = subblock_output(place(0..3), whole()).unwrap();
    assert_eq!(gas(&first.receipts), vec![21000, 50000]);
    assert_eq!(first.cumulative_gas_used, 50000);
    assert_eq!(first.logs_bloom, bloom_of(&[log(1)]));
    assert!(first.requests.is_empty());

    let last = subblock_output(place(3..6), whole()).unwrap();
    assert_eq!(gas(&last.receipts), vec![0, 40000]);
    assert_eq!(last.cumulative_gas_used, 40000);
    assert_eq!(last.logs_bloom, bloom_of(&[log(2), log(3)]));
    assert_eq!(last.requests, requests());

    let none = subblock_output(place(5..6), whole()).unwrap();
    assert!(none.receipts.is_empty());
    assert_eq!(none.cumulative_gas_used, 0);
    assert_eq!(none.logs_bloom, Bloom::zero());
}

#[test]
fn executing_alone_or_as_part_of_the_block_makes_no_difference() {
    for range in [0..3u64, 1..4, 3..6] {
        let p = place(range);
        let alone = Execution::Subblock {
            receipts: extract_receipts(&block(), p.tx_start, p.tx_end),
            requests: requests(),
            bal: Bal { accounts: vec![] },
        };
        assert_eq!(subblock_output(p, alone), subblock_output(p, whole()));
    }
}

#[test]
fn a_failed_execution_is_reported() {
    assert_eq!(
        subblock_output(place(0..3), Execution::Failed { message: "gas".to_owned() }),
        Err(SubblockValidationError::ExecutionFailed("gas".to_owned()))
    );
}

#[test]
fn splitting_and_combining_gives_the_block_back() {
    let splits: Vec<Vec<Range<u64>>> = vec![
        vec![0..6],
        vec![0..1, 1..5, 5..6],
        vec![0..2, 2..3, 3..3, 3..6],
        vec![0..0, 0..6, 6..6],
    ];
    for ranges in splits {
        assert!(verify_bal_ranges_complete(&ranges, 4).is_ok());
        let outputs: Vec<SubblockOutput<EthereumReceipt>> =
            ranges.iter().map(|r| subblock_output(place(r.clone()), whole()).unwrap()).collect();
        assert!(verify_gas_chaining(&outputs, &ranges).is_ok());
        let (receipts, bloom, combined_requests) = combine_subblock_outputs(&outputs);
        assert_eq!(receipts, block());
        assert_eq!(bloom, combined_bloom(&block()));
        assert_eq!(combined_requests, requests());
    }
}

#[test]
fn each_transaction_belongs_to_one_subblock() {
    let ranges: Vec<Range<u64>> = vec![0..1, 1..3, 3..3, 3..6];
    for tx in 0..4usize {
        let owners = ranges
            .iter()
            .filter(|range| {
                let p = place((*range).clone());
                p.tx_start <= tx && tx < p.tx_end
            })
            .count();
        assert_eq!(owners, 1);
    }
}

fn encoded_header(number: u64) -> Vec<u8> {
    alloy_rlp::encode(alloy_consensus::Header {
        number,
        parent_hash: alloy_primitives::B256::repeat_byte(number as u8),
        state_root: alloy_primitives::B256::repeat_byte(0x50 + number as u8),
        ..Default::default()
    })
}

fn input(range: Range<u64>) -> SubblockInput {
    SubblockInput {
        block: Block {
            header: Header::decode(encoded_header(9)).unwrap(),
            amsterdam_active: true,
            block_access_list_hash: None,
            transactions: vec![vec![1], vec![2], vec![3], vec![4]],
            ommers: vec![],
            withdrawals: Some(vec![vec![0xc4, 1, 2, 3, 4]]),
        },
        witness: ExecutionWitness {
            state: vec![],
            codes: vec![],
            keys: vec![],
            headers: vec![encoded_header(8), encoded_header(7)],
        },
        bal: Arc::new(Bal { accounts: vec![] }),
        bal_range: range,
        chain_config: alloy_genesis::ChainConfig::default(),
    }
}

struct Trie;

impl PreStateAccountProvider for Trie {
    type Error = StatelessValidationError;

    fn account(&self, _address: Address) -> Result<Option<TrieAccount>, StatelessValidationError> {
        Ok(None)
    }
}

/// A host with fixed answers, which remembers what it was asked.
struct Host {
    recovery: Result<(), StatelessValidationError>,
    trie: Result<(), StatelessValidationError>,
    execution: fn() -> Execution,
    asked: RefCell<Vec<String>>,
}

impl BlockHost for Host {
    type Trie = Trie;

    fn recover_signers(&self, block: &Block) -> Result<(), StatelessValidationError> {
        self.asked.borrow_mut().push(format!("signers of {}", block.header.number()));
        self.recovery.clone()
    }

    fn build_trie(
        &self,
        _witness: &ExecutionWitness,
        state_root: B256,
    ) -> Result<Trie, StatelessValidationError> {
        self.asked.borrow_mut().push(format!("trie on {}", state_root.bytes[0]));
        self.trie.clone().map(|()| Trie)
    }
}

impl WorkerHost for Host {
    fn execute(&self, subblock: &ReadySubblock, _trie: &Trie) -> Execution {
        let p = subblock.position;
        self.asked.borrow_mut().push(format!(
            "txs {}..{} from index {} with {} ancestors",
            p.tx_start,
            p.tx_end,
            subblock.start_bal_index,
            subblock.ancestor_hashes.len()
        ));
        (self.execution)()
    }
}

fn host() -> Host {
    Host { recovery: Ok(()), trie: Ok(()), execution: whole, asked: RefCell::new(vec![]) }
}

fn failed() -> Execution {
    Execution::Failed { message: "late".to_owned() }
}

fn custom(message: &str) -> StatelessValidationError {
    StatelessValidationError::Custom(message.to_owned())
}

#[test]
fn a_subblock_is_validated() {
    let output = subblock_validation(input(3..6), &host()).unwrap();
    assert_eq!(output, subblock_output(place(3..6), whole()).unwrap());
}

#[test]
fn a_range_beyond_the_block_is_refused() {
    let late = Host { recovery: Err(custom("late")), ..host() };
    assert_eq!(
        subblock_validation(input(2..7), &late),
        Err(SubblockValidationError::BalRangeOutOfBounds { start: 2, end: 7, max_bal_index: 6 })
    );
}

#[test]
fn a_subblock_reports_the_first_failing_stage() {
    let mut bad = input(0..6);
    bad.witness.headers.push(vec![]);
    let recovery = Host { recovery: Err(custom("signer")), ..host() };
    assert_eq!(
        subblock_validation(bad, &recovery),
        Err(SubblockValidationError::StatelessValidation(custom("signer")))
    );

    let mut bad = input(0..6);
    bad.witness.headers.push(vec![]);
    let trie = Host { trie: Err(custom("trie")), ..host() };
    assert_eq!(
        subblock_validation(bad, &trie),
        Err(SubblockValidationError::StatelessValidation(
            StatelessValidationError::HeaderDeserializationFailed
        ))
    );

    let mut orphan = input(0..6);
    orphan.witness.headers = vec![];
    assert_eq!(
        subblock_validation(orphan, &host()),
        Err(SubblockValidationError::StatelessValidation(
            StatelessValidationError::MissingAncestorHeader
        ))
    );

    let trie = Host {
        trie: Err(custom("trie")),
        execution: failed,
        ..host()
    };
    assert_eq!(
        subblock_validation(input(0..6), &trie),
        Err(SubblockValidationError::StatelessValidation(custom("trie")))
    );
}

#[test]
fn the_stages_say_what_to_execute() {
    let prepared = check_subblock(input(2..5)).unwrap().prepare(Ok(())).unwrap();
    assert_eq!(prepared.parent.header.number(), 8);
    assert_eq!(prepared.parent.header.state_root().bytes, [0x58; 32]);
    assert_eq!(prepared.ancestors.len(), 2);
    let ready = prepared.ready(Ok(())).unwrap();
    assert_eq!(ready.start_bal_index, 2);
    assert_eq!(ready.position, subblock_position(&(2..5), 4));
    assert_eq!(ready.ancestor_hashes.get(&8).unwrap().bytes, [9; 32]);
    assert_eq!(ready.ancestor_hashes.get(&7).unwrap().bytes, [8; 32]);
}

#[test]
fn the_last_subblock_processes_the_withdrawals() {
    let ready = |input: SubblockInput| {
        check_subblock(input).unwrap().prepare(Ok(())).unwrap().ready(Ok(())).unwrap()
    };
    let withdrawals = vec![vec![0xc4, 1, 2, 3, 4]];
    assert_eq!(ready(input(0..6)).withdrawals(), Some(&withdrawals));
    assert_eq!(ready(input(3..6)).withdrawals(), Some(&withdrawals));
    assert_eq!(ready(input(0..4)).withdrawals(), None);
    assert_eq!(ready(input(2..3)).withdrawals(), None);
    let mut before_shanghai = input(0..6);
    before_shanghai.block.withdrawals = None;
    assert_eq!(ready(before_shanghai).withdrawals(), None);
}

#[test]
fn a_cloned_input_is_the_same_input() {
    let mut original = input(2..5);
    original.block.block_access_list_hash = Some(FixedBytes { bytes: [3; 32] });
    original.block.ommers = vec![vec![0xc0]];
    original.witness.codes = vec![vec![1, 2]];
    original.chain_config.chain_id = 77;
    let copy = original.clone();
    assert!(Arc::ptr_eq(&original.bal, &copy.bal));
    assert_eq!(copy.bal_range, 2..5);
    assert_eq!(copy.chain_config, original.chain_config);
    assert_eq!(format!("{:?}", copy.block), format!("{:?}", original.block));
    assert_eq!(format!("{:?}", copy.witness), format!("{:?}", original.witness));
}

#[test]
fn the_worker_asks_its_host_in_order() {
    let host = host();
    assert!(subblock_validation(input(2..5), &host).is_ok());
    assert_eq!(
        *host.asked.borrow(),
        vec![
            "signers of 9".to_owned(),
            "trie on 88".to_owned(),
            "txs 1..4 from index 2 with 2 ancestors".to_owned(),
        ]
    );
}

fn word(byte: u8) -> U256 {
    FixedBytes { bytes: [byte; 32] }
}

fn account(
    nonce: Vec<(u64, u64)>,
    balance: Vec<(u64, U256)>,
    code: Vec<(u64, (B256, Vec<u8>))>,
    storage: Vec<(U256, Vec<(u64, U256)>)>,
) -> AccountBal {
    AccountBal {
        account_info: AccountInfoBal {
            nonce: BalWrites { writes: nonce },
            balance: BalWrites { writes: balance },
            code: BalWrites { writes: code },
        },
        storage: StorageBal {
            storage: storage
                .into_iter()
                .map(|(slot, writes)| (slot, BalWrites { writes }))
                .collect(),
        },
    }
}

fn list(accounts: Vec<(u8, AccountBal)>) -> Bal {
    Bal {
        accounts: accounts
            .into_iter()
            .map(|(byte, account)| (FixedBytes { bytes: [byte; 20] }, account))
            .collect(),
    }
}

fn mismatch<T>() -> Result<T, SubblockValidationError> {
    Err(SubblockValidationError::BalError(
        "execution does not match the block access list".to_owned(),
    ))
}

#[test]
fn built_lists_are_compared_within_the_range_only() {
    let provided = list(vec![
        (1, account(vec![(1, 7), (4, 8)], vec![(2, word(1))], vec![], vec![])),
        (2, account(vec![], vec![], vec![], vec![(word(5), vec![(3, word(6)), (9, word(7))])])),
    ]);
    // Only what was written at the indices 2 and 3, in another order of accounts.
    let built = list(vec![
        (2, account(vec![], vec![], vec![], vec![(word(5), vec![(3, word(6))])])),
        (1, account(vec![], vec![(2, word(1))], vec![], vec![])),
    ]);
    assert_eq!(check_built_bal(&provided, &built, &(2..4)), Ok(()));
    assert_eq!(check_built_bal(&built, &provided, &(2..4)), Ok(()));
    assert_eq!(check_built_bal(&provided, &built, &(2..5)), mismatch());
    assert_eq!(check_built_bal(&provided, &built, &(1..4)), mismatch());
    assert_eq!(check_built_bal(&provided, &built, &(5..5)), Ok(()));
    // An account or a slot that was only read makes no difference.
    let read = list(vec![(3, account(vec![], vec![], vec![], vec![(word(1), vec![])]))]);
    assert_eq!(check_built_bal(&read, &list(vec![]), &(0..100)), Ok(()));
}

#[test]
fn every_field_and_slot_is_compared() {
    let same = || account(vec![(1, 1)], vec![(1, word(1))], vec![(1, (word(1), vec![1]))], vec![(word(1), vec![(1, word(1))])]);
    let provided = list(vec![(1, same())]);
    assert_eq!(check_built_bal(&provided, &list(vec![(1, same())]), &(0..2)), Ok(()));
    let mut others: Vec<AccountBal> = (0..7).map(|_| same()).collect();
    others[0].account_info.nonce.writes[0].1 = 2;
    others[1].account_info.balance.writes[0].1 = word(2);
    others[2].account_info.code.writes[0].1 .0 = word(2);
    others[3].account_info.code.writes[0].1 .1 = vec![1, 2];
    others[4].storage.storage[0].1.writes[0].1 = word(2);
    others[5].storage.storage[0].0 = word(2);
    others[6].account_info.nonce.writes.push((0, 0));
    for other in others {
        assert_eq!(check_built_bal(&provided, &list(vec![(1, other)]), &(0..2)), mismatch());
    }
    assert_eq!(check_built_bal(&provided, &list(vec![(2, same())]), &(0..2)), mismatch());
    assert_eq!(check_built_bal(&provided, &list(vec![]), &(0..2)), mismatch());
}

fn whole_with_balance() -> Execution {
    let bal = list(vec![(1, account(vec![], vec![(2, word(1)), (4, word(2))], vec![], vec![]))]);
    Execution::Block { receipts: block(), requests: requests(), bal }
}

#[test]
fn an_execution_that_does_not_match_the_list_is_refused() {
    let with = |range: Range<u64>, balance: Vec<(u64, U256)>| {
        let mut input = input(range);
        input.bal = Arc::new(list(vec![(1, account(vec![], balance, vec![], vec![]))]));
        subblock_validation(input, &Host { execution: whole_with_balance, ..host() })
    };
    assert!(with(0..6, vec![(2, word(1)), (4, word(2))]).is_ok());
    assert_eq!(with(0..6, vec![(2, word(1)), (4, word(3))]), mismatch());
    // A difference outside the range does not concern this subblock.
    assert!(with(1..4, vec![(2, word(1)), (4, word(3))]).is_ok());
    assert_eq!(with(4..6, vec![(2, word(1)), (4, word(3))]), mismatch());
    // A failed execution is reported as such.
    assert_eq!(
        subblock_validation(input(0..6), &Host { execution: failed, ..host() }),
        Err(SubblockValidationError::ExecutionFailed("late".to_owned()))
    );
}
