use std::cell::RefCell;
use std::ops::Range;
use std::sync::Arc;

use stateless::bal::{
    AccountBal, AccountInfoBal, Bal, BalWrites, StorageBal,
};
use stateless::error::StatelessValidationError;
use stateless::header::Header;
use stateless::primitives::{Address, Bloom, FixedBytes, B256};
use stateless::receipt::{EthereumReceipt, TxType};
use stateless::subblock::aggregator::{
    aggregation_validation, check_aggregation, checked_aggregation_validation,
    combine_subblock_outputs, gas_values_fit, verify_bal_hash, verify_bal_ranges_complete,
    verify_gas_chaining,
};
use stateless::subblock::bal_state::{HashedPostState, PreStateAccountProvider, TrieAccount};
use stateless::subblock::error::AggregationValidationError;
use stateless::subblock::host::{AggregatorHost, BlockHost};
use stateless::subblock::types::{
    AggregationInput, Block, ExecutionWitness, Requests, SubblockOutput,
};

// BAL index semantics for 10 txs:
// - Index 0 = pre-execution
// - Index 1-10 = transactions 0-9
// - Index 11 = post-execution
// - Full range is [0, 12)

#[test]
fn test_verify_bal_ranges_complete_valid() {
    // 10 txs: full range is [0, 12)
    let ranges: Vec<Range<u64>> = vec![0..4, 4..8, 8..12];
    assert!(verify_bal_ranges_complete(&ranges, 10).is_ok());
}

#[test]
fn test_verify_bal_ranges_complete_single_range() {
    // Single range covering entire block
    let ranges: Vec<Range<u64>> = vec![0..12];
    assert!(verify_bal_ranges_complete(&ranges, 10).is_ok());
}

#[test]
fn test_verify_bal_ranges_not_starting_at_zero() {
    let ranges: Vec<Range<u64>> = vec![1..6, 6..12];
    assert!(matches!(
        verify_bal_ranges_complete(&ranges, 10),
        Err(AggregationValidationError::RangesNotStartingAtZero { start: 1 })
    ));
}

#[test]
fn test_verify_bal_ranges_non_contiguous() {
    let ranges: Vec<Range<u64>> = vec![0..3, 4..12];
    assert!(matches!(
        verify_bal_ranges_complete(&ranges, 10),
        Err(AggregationValidationError::NonContiguousRanges { .. })
    ));
}

#[test]
fn test_verify_bal_ranges_incomplete() {
    // Range ends at 5, which covers pre-execution (0) and txs 0-3 (indices 1-4)
    // Expected covered: min(5-1, 10) = 4 txs
    let ranges: Vec<Range<u64>> = vec![0..5];
    assert!(matches!(
        verify_bal_ranges_complete(&ranges, 10),
        Err(AggregationValidationError::IncompleteRanges { covered: 4, tx_count: 10 })
    ));
}

#[test]
fn test_verify_bal_ranges_empty_block_needs_coverage() {
    // Even an empty block needs at least [0, 2) for pre and post execution
    let ranges: Vec<Range<u64>> = vec![];
    assert!(matches!(
        verify_bal_ranges_complete(&ranges, 0),
        Err(AggregationValidationError::IncompleteRanges { .. })
    ));
}

#[test]
fn test_verify_bal_ranges_empty_block_valid() {
    // Empty block: full range is [0, 2) for pre and post execution
    let ranges: Vec<Range<u64>> = vec![0..2];
    assert!(verify_bal_ranges_complete(&ranges, 0).is_ok());
}

#[test]
fn test_combine_subblock_outputs_adjusts_cumulative_gas() {
    // Create mock receipts with LOCAL cumulative gas
    let receipt1 = EthereumReceipt {
        tx_type: TxType::Legacy,
        success: true,
        cumulative_gas_used: 21000, // First tx uses 21000
        logs: vec![],
    };
    let receipt2 = EthereumReceipt {
        tx_type: TxType::Legacy,
        success: true,
        cumulative_gas_used: 42000, // Second tx uses 21000 more (local cumulative = 42000)
        logs: vec![],
    };
    let receipt3 = EthereumReceipt {
        tx_type: TxType::Legacy,
        success: true,
        cumulative_gas_used: 30000, // Third tx in second subblock (local cumulative = 30000)
        logs: vec![],
    };

    let output1 = SubblockOutput {
        receipts: vec![receipt1, receipt2],
        logs_bloom: Bloom::zero(),
        requests: Requests::empty(),
        cumulative_gas_used: 42000, // End gas of subblock 1
    };
    let output2 = SubblockOutput {
        receipts: vec![receipt3],
        logs_bloom: Bloom::zero(),
        requests: Requests::empty(),
        cumulative_gas_used: 30000, // End gas of subblock 2 (local)
    };

    let (combined, _, _) = combine_subblock_outputs(&[output1, output2]);

    // After adjustment:
    // - Receipt 1: 21000 (no offset)
    // - Receipt 2: 42000 (no offset)
    // - Receipt 3: 42000 + 30000 = 72000 (offset by subblock 1's end gas)
    assert_eq!(combined.len(), 3);
    assert_eq!(combined[0].cumulative_gas_used, 21000);
    assert_eq!(combined[1].cumulative_gas_used, 42000);
    assert_eq!(combined[2].cumulative_gas_used, 72000);
}

fn receipt(gas: u64) -> EthereumReceipt {
    EthereumReceipt {
        tx_type: TxType::Eip1559,
        success: true,
        cumulative_gas_used: gas,
        logs: vec![],
    }
}

fn bloom_with(position: usize, bits: u8) -> Bloom {
    let mut bloom = Bloom::zero();
    bloom.bytes[position] = bits;
    bloom
}

fn output(gas: &[u64]) -> SubblockOutput<EthereumReceipt> {
    SubblockOutput {
        receipts: gas.iter().map(|gas| receipt(*gas)).collect(),
        logs_bloom: Bloom::zero(),
        requests: Requests::empty(),
        cumulative_gas_used: gas.last().copied().unwrap_or(0),
    }
}

#[test]
fn ranges_report_the_first_gap() {
    let ranges: Vec<Range<u64>> = vec![0..3, 3..5, 6..8, 9..12];
    assert_eq!(
        verify_bal_ranges_complete(&ranges, 10),
        Err(AggregationValidationError::NonContiguousRanges {
            index: 1,
            end: 5,
            next_index: 2,
            start: 6
        })
    );
}

#[test]
fn complete_ranges_cover_each_index_once() {
    let ranges: Vec<Range<u64>> = vec![0..4, 4..4, 4..8, 8..12];
    assert!(verify_bal_ranges_complete(&ranges, 10).is_ok());
    for index in 0..12u64 {
        assert_eq!(ranges.iter().filter(|range| range.contains(&index)).count(), 1);
    }
    // Ranges that run backwards can be contiguous, and cover an index twice.
    let ranges: Vec<Range<u64>> = vec![0..6, 6..4, 4..12];
    assert!(verify_bal_ranges_complete(&ranges, 10).is_ok());
    assert_eq!(ranges.iter().filter(|range| range.contains(&5)).count(), 2);
}

#[test]
fn a_default_output_is_that_of_no_transactions() {
    let none: SubblockOutput<EthereumReceipt> = SubblockOutput::default();
    assert_eq!(none, output(&[]));
}

#[test]
fn ranges_beyond_the_block_report_all_transactions_covered() {
    let ranges: Vec<Range<u64>> = vec![0..40];
    assert_eq!(
        verify_bal_ranges_complete(&ranges, 10),
        Err(AggregationValidationError::IncompleteRanges { covered: 10, tx_count: 10 })
    );
    let ranges: Vec<Range<u64>> = vec![0..0];
    assert_eq!(
        verify_bal_ranges_complete(&ranges, 10),
        Err(AggregationValidationError::IncompleteRanges { covered: 0, tx_count: 10 })
    );
    let ranges: Vec<Range<u64>> = vec![0..8];
    assert_eq!(
        verify_bal_ranges_complete(&ranges, 10),
        Err(AggregationValidationError::IncompleteRanges { covered: 7, tx_count: 10 })
    );
}

#[test]
fn test_verify_gas_chaining_with_local_gas() {
    // Each subblock has LOCAL gas starting from 0
    let ranges: Vec<Range<u64>> = vec![0..3, 3..5];
    assert!(verify_gas_chaining(&[output(&[21000, 42000]), output(&[21000])], &ranges).is_ok());
}

#[test]
fn gas_that_falls_within_a_subblock_is_refused() {
    let ranges: Vec<Range<u64>> = vec![0..3, 3..6];
    assert_eq!(
        verify_gas_chaining(&[output(&[21000, 42000]), output(&[30000, 51000, 50000])], &ranges),
        Err(AggregationValidationError::GasChainingMismatch {
            index: 1,
            expected: 51000,
            next_index: 1
        })
    );
    assert!(verify_gas_chaining(&[output(&[5, 5, 5])], &[0..5]).is_ok());
}

#[test]
fn gas_of_a_range_without_transactions_is_not_looked_at() {
    // The pre-execution index alone, and an empty range.
    assert!(verify_gas_chaining(&[output(&[9, 3])], &[0..1]).is_ok());
    assert!(verify_gas_chaining(&[output(&[9, 3])], &[4..4]).is_ok());
    assert!(verify_gas_chaining(&[output(&[9, 3])], &[0..2]).is_err());
    // An output without a range is not looked at either.
    assert!(verify_gas_chaining(&[output(&[9, 3])], &[]).is_ok());
}

#[test]
fn documented_gas_example_is_combined() {
    let (combined, _, _) = combine_subblock_outputs(&[
        output(&[21000, 42000, 63000]),
        output(&[30000, 51000]),
    ]);
    let gas: Vec<u64> = combined.iter().map(|r| r.cumulative_gas_used).collect();
    assert_eq!(gas, vec![21000, 42000, 63000, 93000, 114000]);
}

#[test]
fn combining_accrues_blooms_and_keeps_the_last_requests() {
    let mut first = output(&[10]);
    first.logs_bloom = bloom_with(3, 0b0101);
    first.requests = Requests { requests: vec![vec![0, 1]] };
    let mut second = output(&[20]);
    second.logs_bloom = bloom_with(3, 0b0011);
    second.requests = Requests { requests: vec![vec![1, 2], vec![2]] };
    let mut third = output(&[]);
    third.logs_bloom = bloom_with(200, 0xff);

    let (combined, bloom, requests) = combine_subblock_outputs(&[first, second, third]);
    assert_eq!(combined.len(), 2);
    assert_eq!(combined[1].cumulative_gas_used, 30);
    assert_eq!(combined[1].tx_type, TxType::Eip1559);
    assert_eq!(bloom.bytes[3], 0b0111);
    assert_eq!(bloom.bytes[200], 0xff);
    assert_eq!(bloom.bytes[0], 0);
    assert_eq!(requests.requests, vec![vec![1, 2], vec![2]]);

    let (none, bloom, requests) = combine_subblock_outputs(&[]);
    assert!(none.is_empty());
    assert_eq!(bloom, Bloom::zero());
    assert!(requests.is_empty());
}

#[test]
fn gas_values_that_do_not_fit_are_found() {
    assert!(gas_values_fit(&[output(&[u64::MAX])]));
    assert!(gas_values_fit(&[output(&[u64::MAX - 1]), output(&[1])]));
    assert!(!gas_values_fit(&[output(&[u64::MAX - 1]), output(&[2])]));
    // The offset fits, but a receipt moved by it does not.
    let mut second = output(&[7]);
    second.cumulative_gas_used = 0;
    assert!(!gas_values_fit(&[output(&[u64::MAX - 6]), second]));
    assert!(gas_values_fit(&[]));
}

#[derive(Clone)]
struct Trie {
    account: Result<Option<TrieAccount>, StatelessValidationError>,
}

impl PreStateAccountProvider for Trie {
    type Error = StatelessValidationError;

    fn account(&self, _address: Address) -> Result<Option<TrieAccount>, StatelessValidationError> {
        self.account.clone()
    }
}

/// A host with fixed answers, which remembers what it was asked.
struct Host {
    recovery: Result<(), StatelessValidationError>,
    post_execution: Result<(), String>,
    trie: Result<Trie, StatelessValidationError>,
    state_root: Result<B256, StatelessValidationError>,
    asked: RefCell<Vec<String>>,
}

impl BlockHost for Host {
    type Trie = Trie;

    fn recover_signers(&self, block: &Block) -> Result<(), StatelessValidationError> {
        self.asked.borrow_mut().push(format!("signers of {}", block.header.number()));
        self.recovery.clone()
    }

    fn build_trie(
        &self,
        _witness: &ExecutionWitness,
        state_root: B256,
    ) -> Result<Trie, StatelessValidationError> {
        self.asked.borrow_mut().push(format!("trie on {}", state_root.bytes[0]));
        self.trie.clone()
    }
}

impl AggregatorHost for Host {
    fn validate_post_execution(
        &self,
        _block: &Block,
        receipts: &Vec<EthereumReceipt>,
        requests: &Requests,
    ) -> Result<(), String> {
        let gas: Vec<u64> = receipts.iter().map(|r| r.cumulative_gas_used).collect();
        self.asked.borrow_mut().push(format!("gas {:?} requests {:?}", gas, requests.requests));
        self.post_execution.clone()
    }

    fn calculate_state_root(
        &self,
        _trie: Trie,
        state: HashedPostState,
    ) -> Result<B256, StatelessValidationError> {
        self.asked.borrow_mut().push(format!("root of {} accounts", state.accounts.len()));
        self.state_root.clone()
    }
}

fn encoded_header(number: u64, root: u8) -> Vec<u8> {
    let header = alloy_consensus::Header {
        number,
        state_root: alloy_primitives::B256::repeat_byte(root),
        parent_hash: alloy_primitives::B256::repeat_byte(0x77),
        ..Default::default()
    };
    alloy_rlp::encode(&header)
}

/// The hash of a block access list without accounts.
fn empty_list_hash() -> B256 {
    FixedBytes { bytes: alloy_eip7928::compute_block_access_list_hash(&[]).0 }
}

fn input() -> AggregationInput<EthereumReceipt> {
    AggregationInput {
        block: Block {
            header: Header::decode(encoded_header(9, 0xaa)).unwrap(),
            amsterdam_active: true,
            block_access_list_hash: Some(empty_list_hash()),
            transactions: vec![vec![1], vec![2], vec![3]],
            ommers: vec![],
            withdrawals: Some(vec![]),
        },
        witness: ExecutionWitness {
            state: vec![],
            codes: vec![],
            keys: vec![],
            headers: vec![encoded_header(8, 0x08), encoded_header(7, 0x07)],
        },
        bal: Arc::new(Bal { accounts: vec![] }),
        chain_config: alloy_genesis::ChainConfig::default(),
        subblock_outputs: vec![output(&[21000, 42000]), output(&[21000])],
        bal_ranges: vec![0..3, 3..5],
    }
}

fn host() -> Host {
    Host {
        recovery: Ok(()),
        post_execution: Ok(()),
        trie: Ok(Trie { account: Ok(None) }),
        state_root: Ok(FixedBytes { bytes: [0xaa; 32] }),
        asked: RefCell::new(vec![]),
    }
}

fn custom(message: &str) -> StatelessValidationError {
    StatelessValidationError::Custom(message.to_owned())
}

#[test]
fn aggregation_returns_the_block_hash() {
    let expected = alloy_primitives::keccak256(encoded_header(9, 0xaa));
    let hash = aggregation_validation(input(), &host()).unwrap();
    assert_eq!(hash.bytes, expected.0);
}

#[test]
fn aggregation_refuses_outputs_and_ranges_first() {
    let failing = || Host { recovery: Err(custom("late")), ..host() };

    let mut none = input();
    none.subblock_outputs = vec![];
    none.bal_ranges = vec![];
    assert_eq!(
        aggregation_validation(none, &failing()),
        Err(AggregationValidationError::NoSubblockOutputs)
    );

    let mut mismatched = input();
    mismatched.bal_ranges = vec![0..5];
    assert_eq!(
        aggregation_validation(mismatched, &failing()),
        Err(AggregationValidationError::MismatchedOutputsAndRanges { outputs: 2, ranges: 1 })
    );

    let mut incomplete = input();
    incomplete.bal_ranges = vec![0..3, 3..4];
    assert_eq!(
        aggregation_validation(incomplete, &failing()),
        Err(AggregationValidationError::IncompleteRanges { covered: 3, tx_count: 3 })
    );

    let mut falling = input();
    falling.subblock_outputs = vec![output(&[42000, 21000]), output(&[21000])];
    assert_eq!(
        aggregation_validation(falling, &failing()),
        Err(AggregationValidationError::GasChainingMismatch {
            index: 0,
            expected: 42000,
            next_index: 0
        })
    );
}

#[test]
fn aggregation_reports_the_first_failing_stage() {
    let recovery = Host { recovery: Err(custom("signer")), ..host() };
    let mut bad_headers = input();
    bad_headers.witness.headers.push(vec![0xc0]);
    assert_eq!(
        aggregation_validation(bad_headers, &recovery),
        Err(AggregationValidationError::StatelessValidation(custom("signer")))
    );

    let mut bad_headers = input();
    bad_headers.witness.headers.push(vec![0xc0]);
    assert_eq!(
        aggregation_validation(bad_headers, &host()),
        Err(AggregationValidationError::StatelessValidation(
            StatelessValidationError::HeaderDeserializationFailed
        ))
    );

    let mut no_headers = input();
    no_headers.witness.headers = vec![];
    let late = Host { post_execution: Err("late".to_owned()), ..host() };
    assert_eq!(
        aggregation_validation(no_headers, &late),
        Err(AggregationValidationError::StatelessValidation(
            StatelessValidationError::MissingAncestorHeader
        ))
    );

    let consensus = Host {
        post_execution: Err("receipts root".to_owned()),
        trie: Err(custom("trie")),
        ..host()
    };
    assert_eq!(
        aggregation_validation(input(), &consensus),
        Err(AggregationValidationError::ConsensusValidation("receipts root".to_owned()))
    );

    let trie = Host {
        trie: Err(custom("trie")),
        state_root: Err(custom("root")),
        ..host()
    };
    assert_eq!(
        aggregation_validation(input(), &trie),
        Err(AggregationValidationError::StatelessValidation(custom("trie")))
    );

    let root = Host { state_root: Err(custom("root")), ..host() };
    assert_eq!(
        aggregation_validation(input(), &root),
        Err(AggregationValidationError::StatelessValidation(custom("root")))
    );

    let mismatch = Host {
        state_root: Ok(FixedBytes { bytes: [0xbb; 32] }),
        ..host()
    };
    assert_eq!(
        aggregation_validation(input(), &mismatch),
        Err(AggregationValidationError::PostStateRootMismatch {
            computed: FixedBytes { bytes: [0xbb; 32] },
            expected: FixedBytes { bytes: [0xaa; 32] },
        })
    );
}

fn balance_write(index: u64) -> AccountBal {
    AccountBal {
        account_info: AccountInfoBal {
            nonce: BalWrites { writes: vec![] },
            balance: BalWrites { writes: vec![(index, FixedBytes { bytes: [1; 32] })] },
            code: BalWrites { writes: vec![] },
        },
        storage: StorageBal { storage: vec![] },
    }
}

#[test]
fn aggregation_sees_the_post_execution_writes() {
    // With 3 transactions the post-execution index is 4; a write there needs the pre-state.
    let incomplete =
        || Host { trie: Ok(Trie { account: Err(custom("account")) }), ..host() };
    let expected: Result<B256, AggregationValidationError> =
        Err(AggregationValidationError::StatelessValidation(
            custom("account"),
        ));

    let mut seen = input();
    seen.bal =
        Arc::new(Bal { accounts: vec![(FixedBytes { bytes: [1; 20] }, balance_write(4))] });
    assert_eq!(aggregation_validation(seen, &incomplete()), expected);

    let mut unseen = input();
    unseen.bal =
        Arc::new(Bal { accounts: vec![(FixedBytes { bytes: [1; 20] }, balance_write(5))] });
    unseen.block.block_access_list_hash = Some(unseen.bal.hash());
    assert!(aggregation_validation(unseen, &incomplete()).is_ok());
}

#[test]
fn stages_hand_out_what_the_next_work_needs() {
    let mut with_requests = input();
    with_requests.subblock_outputs[1].requests = Requests { requests: vec![vec![2, 9]] };
    with_requests.subblock_outputs[0].logs_bloom = bloom_with(1, 4);
    let combined = check_aggregation(with_requests).unwrap().combine(Ok(())).unwrap();
    let gas: Vec<u64> = combined.receipts.iter().map(|r| r.cumulative_gas_used).collect();
    assert_eq!(gas, vec![21000, 42000, 63000]);
    assert_eq!(combined.requests.requests, vec![vec![2, 9]]);
    assert_eq!(combined.logs_bloom, bloom_with(1, 4));
    // The parent is the ancestor with the highest number, wherever it stands in the witness.
    assert_eq!(combined.parent.header.number(), 8);
    assert_eq!(combined.parent.header.state_root().bytes, [0x08; 32]);
    assert_eq!(
        combined.parent.hash.bytes,
        alloy_primitives::keccak256(encoded_header(8, 0x08)).0
    );

    let validated = combined.validated(Ok(())).unwrap();
    let state = validated.post_state(&Trie { account: Ok(None) }).unwrap();
    assert!(state.accounts.is_empty());
    let root = FixedBytes { bytes: [0xaa; 32] };
    assert!(validated.finish(Ok(root)).is_ok());
    assert!(validated.finish(Ok(FixedBytes { bytes: [0xab; 32] })).is_err());
}

#[test]
fn the_host_is_asked_on_what_the_stages_give() {
    let mut asked = input();
    asked.subblock_outputs[1].requests = Requests { requests: vec![vec![2, 9]] };
    asked.bal =
        Arc::new(Bal { accounts: vec![(FixedBytes { bytes: [1; 20] }, balance_write(4))] });
    asked.block.block_access_list_hash = Some(asked.bal.hash());
    let host = host();
    assert!(aggregation_validation(asked, &host).is_ok());
    assert_eq!(
        *host.asked.borrow(),
        vec![
            "signers of 9".to_owned(),
            "gas [21000, 42000, 63000] requests [[2, 9]]".to_owned(),
            "trie on 8".to_owned(),
            "root of 1 accounts".to_owned(),
        ]
    );
}

#[test]
fn a_block_access_list_with_another_hash_is_refused() {
    let mut other = input();
    other.block.block_access_list_hash = Some(FixedBytes { bytes: [0xba; 32] });
    let mismatch = AggregationValidationError::BalHashMismatch {
        computed: empty_list_hash(),
        expected: FixedBytes { bytes: [0xba; 32] },
    };
    assert_eq!(aggregation_validation(other, &host()), Err(mismatch));
    let mut longer = input();
    longer.bal =
        Arc::new(Bal { accounts: vec![(FixedBytes { bytes: [1; 20] }, balance_write(4))] });
    let mismatch = AggregationValidationError::BalHashMismatch {
        computed: longer.bal.hash(),
        expected: empty_list_hash(),
    };
    assert_eq!(aggregation_validation(longer, &host()), Err(mismatch));
    // The state root comes first.
    let mut both = input();
    both.block.block_access_list_hash = Some(FixedBytes { bytes: [0xba; 32] });
    let unrooted = Host { state_root: Err(custom("root")), ..host() };
    assert_eq!(
        aggregation_validation(both, &unrooted),
        Err(AggregationValidationError::StatelessValidation(custom("root")))
    );

    let (a, b) = (FixedBytes { bytes: [1; 32] }, FixedBytes { bytes: [2; 32] });
    for amsterdam_active in [false, true] {
        assert_eq!(verify_bal_hash(a, Some(a), amsterdam_active), Ok(()));
        assert_eq!(
            verify_bal_hash(a, Some(b), amsterdam_active),
            Err(AggregationValidationError::BalHashMismatch { computed: a, expected: b })
        );
    }
}

#[test]
fn a_block_without_the_hash_of_its_access_list_is_refused_from_amsterdam_on() {
    let mut unnamed = input();
    unnamed.block.block_access_list_hash = None;
    assert_eq!(
        aggregation_validation(unnamed.clone(), &host()),
        Err(AggregationValidationError::MissingBalHash { computed: empty_list_hash() })
    );
    unnamed.block.amsterdam_active = false;
    assert!(aggregation_validation(unnamed, &host()).is_ok());

    let a = FixedBytes { bytes: [1; 32] };
    assert_eq!(verify_bal_hash(a, None, false), Ok(()));
    assert_eq!(
        verify_bal_hash(a, None, true),
        Err(AggregationValidationError::MissingBalHash { computed: a })
    );
}

#[test]
fn a_cloned_aggregation_is_validated_alike() {
    let original = input();
    let copy = original.clone();
    assert!(Arc::ptr_eq(&original.bal, &copy.bal));
    assert_eq!(copy.subblock_outputs, original.subblock_outputs);
    assert_eq!(copy.bal_ranges, original.bal_ranges);
    assert_eq!(copy.witness.headers, original.witness.headers);
    assert_eq!(copy.block.transactions, original.block.transactions);
    assert_eq!(copy.block.withdrawals, original.block.withdrawals);
    assert_eq!(copy.chain_config, original.chain_config);
    assert_eq!(aggregation_validation(copy, &host()), aggregation_validation(original, &host()));
}

#[test]
fn gas_that_does_not_fit_matters_only_where_outputs_are_combined() {
    let overflowing = || {
        let mut overflowing = input();
        overflowing.subblock_outputs = vec![output(&[u64::MAX]), output(&[1])];
        overflowing
    };

    let mut mismatched = overflowing();
    mismatched.bal_ranges = vec![0..5];
    assert_eq!(
        aggregation_validation(mismatched, &host()),
        Err(AggregationValidationError::MismatchedOutputsAndRanges { outputs: 2, ranges: 1 })
    );
    let mut late = overflowing();
    late.bal_ranges = vec![1..3, 3..5];
    assert_eq!(
        aggregation_validation(late, &host()),
        Err(AggregationValidationError::RangesNotStartingAtZero { start: 1 })
    );
    let unrecovered = Host { recovery: Err(custom("signer")), ..host() };
    assert_eq!(
        aggregation_validation(overflowing(), &unrecovered),
        Err(AggregationValidationError::StatelessValidation(custom("signer")))
    );
    assert_eq!(
        checked_aggregation_validation(overflowing(), &unrecovered),
        Some(Err(AggregationValidationError::StatelessValidation(custom("signer"))))
    );
    let mut orphan = overflowing();
    orphan.witness.headers = vec![];
    assert_eq!(
        checked_aggregation_validation(orphan, &host()),
        Some(Err(AggregationValidationError::StatelessValidation(
            StatelessValidationError::MissingAncestorHeader
        )))
    );
    assert_eq!(checked_aggregation_validation(overflowing(), &host()), None);
    assert!(matches!(checked_aggregation_validation(input(), &host()), Some(Ok(_))));
}
