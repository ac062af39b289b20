use std::ops::Range;
use std::sync::Arc;

use alloy_eip7928::{
    compute_block_access_list_hash, AccountChanges, BalanceChange, NonceChange, SlotChanges,
    StorageChange,
};
use stateless::bal::{AccountBal, AccountInfoBal, Bal, BalWrites, StorageBal};
use stateless::error::StatelessValidationError;
use stateless::header::Header;
use stateless::primitives::{Address, FixedBytes, B256, U256};
use stateless::receipt::{combined_bloom, EthereumReceipt, Log, TxType};
use stateless::subblock::bal_state::{HashedPostState, PreStateAccountProvider, TrieAccount};
use stateless::subblock::host::{AggregatorHost, BlockHost, WorkerHost};
use stateless::subblock::types::{Block, ExecutionWitness, Requests};
use stateless::subblock::worker::{extract_receipts, Execution, ReadySubblock};
use stateless::subblock::{
    aggregation_validation, subblock_validation, AggregationInput, SubblockInput,
};

fn word(byte: u8) -> U256 {
    FixedBytes { bytes: [byte; 32] }
}

fn receipts() -> Vec<EthereumReceipt> {
    (1..=3u8)
        .map(|i| EthereumReceipt {
            tx_type: TxType::Eip7702,
            success: true,
            cumulative_gas_used: 21000 * i as u64,
            logs: vec![Log {
                address: FixedBytes { bytes: [i; 20] },
                topics: vec![word(i)],
                data: vec![],
            }],
        })
        .collect()
}

fn requests() -> Requests {
    Requests { requests: vec![vec![1, 2, 3]] }
}

fn bal() -> Bal {
    let account = AccountBal {
        account_info: AccountInfoBal {
            nonce: BalWrites { writes: vec![(1, 1), (3, 2)] },
            balance: BalWrites { writes: vec![(2, word(5)), (4, word(6))] },
            code: BalWrites { writes: vec![] },
        },
        storage: StorageBal { storage: vec![(word(9), BalWrites { writes: vec![(0, word(1))] })] },
    };
    Bal { accounts: vec![(FixedBytes { bytes: [7; 20] }, account)] }
}

struct Trie;

impl PreStateAccountProvider for Trie {
    type Error = StatelessValidationError;

    fn account(&self, _address: Address) -> Result<Option<TrieAccount>, StatelessValidationError> {
        Ok(None)
    }
}

/// A host that accepts exactly the block above. It executes subblocks alone or with the whole block.
struct Host {
    alone: bool,
}

impl BlockHost for Host {
    type Trie = Trie;

    fn recover_signers(&self, _block: &Block) -> Result<(), StatelessValidationError> {
        Ok(())
    }

    fn build_trie(
        &self,
        _witness: &ExecutionWitness,
        state_root: B256,
    ) -> Result<Trie, StatelessValidationError> {
        if state_root == word(0x10) {
            Ok(Trie)
        } else {
            Err(StatelessValidationError::Custom("root".to_owned()))
        }
    }
}

impl WorkerHost for Host {
    fn execute(&self, subblock: &ReadySubblock, _trie: &Trie) -> Execution {
        let p = subblock.position;
        if self.alone {
            Execution::Subblock {
                receipts: extract_receipts(&receipts(), p.tx_start, p.tx_end),
                requests: requests(),
                bal: bal(),
            }
        } else {
            Execution::Block { receipts: receipts(), requests: requests(), bal: bal() }
        }
    }
}

impl AggregatorHost for Host {
    fn validate_post_execution(
        &self,
        _block: &Block,
        combined: &Vec<EthereumReceipt>,
        collected: &Requests,
    ) -> Result<(), String> {
        if *combined == receipts() && *collected == requests() {
            Ok(())
        } else {
            Err("receipts root".to_owned())
        }
    }

    fn calculate_state_root(
        &self,
        _trie: Trie,
        state: HashedPostState,
    ) -> Result<B256, StatelessValidationError> {
        let key = FixedBytes { bytes: alloy_primitives::keccak256([7u8; 20]).0 };
        let account = state.accounts.get(&key).unwrap().unwrap();
        let all_writes = account.nonce == 2
            && account.balance == word(6)
            && state.storages.get(&key).unwrap().storage.len() == 1;
        Ok(if all_writes { word(0x20) } else { word(0) })
    }
}

fn header(number: u64, root: u8) -> Vec<u8> {
    alloy_rlp::encode(alloy_consensus::Header {
        number,
        state_root: alloy_primitives::B256::repeat_byte(root),
        ..Default::default()
    })
}

/// The hash of [`bal`], from the list as the network sends it.
fn bal_hash() -> B256 {
    let value = |byte: u8| alloy_primitives::U256::from_be_bytes([byte; 32]);
    let account = AccountChanges {
        address: alloy_primitives::Address::repeat_byte(7),
        storage_changes: vec![SlotChanges::new(value(9), vec![StorageChange::new(0, value(1))])],
        storage_reads: vec![],
        balance_changes: vec![BalanceChange::new(2, value(5)), BalanceChange::new(4, value(6))],
        nonce_changes: vec![NonceChange::new(1, 1), NonceChange::new(3, 2)],
        code_changes: vec![],
    };
    FixedBytes { bytes: compute_block_access_list_hash(&[account]).0 }
}

fn block() -> Block {
    Block {
        header: Header::decode(header(2, 0x20)).unwrap(),
        amsterdam_active: true,
        block_access_list_hash: Some(bal_hash()),
        transactions: vec![vec![0], vec![1], vec![2]],
        ommers: vec![],
        withdrawals: Some(vec![]),
    }
}

fn witness() -> ExecutionWitness {
    ExecutionWitness { state: vec![], codes: vec![], keys: vec![], headers: vec![header(1, 0x10)] }
}

#[test]
fn a_block_is_accepted_however_it_is_split() {
    let splits: Vec<Vec<Range<u64>>> = vec![
        vec![0..5],
        vec![0..1, 1..2, 2..3, 3..4, 4..5],
        vec![0..3, 3..3, 3..5],
        vec![0..4, 4..5],
    ];
    for alone in [false, true] {
        for ranges in &splits {
            let host = Host { alone };
            let outputs = ranges
                .iter()
                .map(|range| {
                    let input = SubblockInput {
                        block: block(),
                        witness: witness(),
                        bal: Arc::new(bal()),
                        bal_range: range.clone(),
                        chain_config: alloy_genesis::ChainConfig::default(),
                    };
                    subblock_validation(input, &host).unwrap()
                })
                .collect::<Vec<_>>();
            let first_blooms = combined_bloom(&outputs[0].receipts);
            assert_eq!(outputs[0].logs_bloom, first_blooms);
            let input = AggregationInput {
                block: block(),
                witness: witness(),
                bal: Arc::new(bal()),
                chain_config: alloy_genesis::ChainConfig::default(),
                subblock_outputs: outputs,
                bal_ranges: ranges.clone(),
            };
            let expected = alloy_primitives::keccak256(header(2, 0x20));
            assert_eq!(aggregation_validation(input, &host).unwrap().bytes, expected.0);
        }
    }
}
