//! What copies and fresh values hold, told by the values themselves.
//!
//! Each law takes a value and a copy of it that the contract of `clone` allows.

use crate::flat_witness::{
    FlatExecutionWitness, NonCapturedStateError, SelfDestructCompatibleFailingDB,
};
use crate::header::Header;
use crate::primitives::{Address, U256};
use crate::receipt::{EthereumReceipt, Log};
use crate::subblock::types::{
    lemma_same_block, lemma_same_witness, same_byte_strings, AggregationInput, Block,
    ExecutionWitness, Requests, SubblockInput, SubblockOutput,
};
use crate::witness::{
    lemma_accessed_view, lemma_same_pre_state, AccessedAccount, Account, FlatPreState,
    FlatWitnessRecord, OrderedSet,
};
use vstd::prelude::*;

verus! {

/// A copy of a header holds the number, the parent hash, the state root and the encoding.
pub proof fn lemma_header_copy(header: Header, r: Header)
    requires
        call_ensures(<Header as Clone>::clone, (&header,), r),
    ensures
        r@.number == header@.number,
        r@.parent_hash == header@.parent_hash,
        r@.state_root == header@.state_root,
        r@.encoded == header@.encoded,
{
}

/// A copy of a log holds its address, topics and data.
pub proof fn lemma_log_copy(log: Log, r: Log)
    requires
        call_ensures(<Log as Clone>::clone, (&log,), r),
    ensures
        r.address == log.address,
        r.topics@ == log.topics@,
        r.data@ == log.data@,
{
}

/// A copy of a receipt holds the type, the outcome, the gas and every log.
pub proof fn lemma_receipt_copy(receipt: EthereumReceipt, r: EthereumReceipt)
    requires
        call_ensures(<EthereumReceipt as Clone>::clone, (&receipt,), r),
    ensures
        r.tx_type == receipt.tx_type,
        r.success == receipt.success,
        r.cumulative_gas_used == receipt.cumulative_gas_used,
        r.logs@.len() == receipt.logs@.len(),
        forall|j: int|
            0 <= j < receipt.logs@.len() ==> {
                &&& (#[trigger] r.logs@[j]).address == receipt.logs@[j].address
                &&& r.logs@[j].topics@ == receipt.logs@[j].topics@
                &&& r.logs@[j].data@ == receipt.logs@[j].data@
            },
{
}

/// A copy of requests holds every request, and requests are empty exactly if there is none.
pub proof fn lemma_requests_copy(requests: Requests, r: Requests, none: Requests, empty: bool)
    requires
        call_ensures(<Requests as Clone>::clone, (&requests,), r),
        call_ensures(Requests::empty, (), none),
        call_ensures(Requests::is_empty, (&requests,), empty),
    ensures
        same_byte_strings(r.requests, requests.requests),
        none.requests@.len() == 0,
        empty <==> requests.requests@.len() == 0,
{
    assert(r@.len() == r.requests@.len() && requests@.len() == requests.requests@.len());
    assert(none@.len() == none.requests@.len());
    assert forall|i: int| 0 <= i < r.requests@.len() implies #[trigger] r.requests@[i]@
        == requests.requests@[i]@ by {
        assert(r@[i] == r.requests@[i]@);
        assert(requests@[i] == requests.requests@[i]@);
    }
}

/// A copy of a block holds the header, the fork flag, the hash of the block access list, the
/// transactions, the ommers and the withdrawals.
pub proof fn lemma_block_copy(block: Block, r: Block)
    requires
        call_ensures(<Block as Clone>::clone, (&block,), r),
    ensures
        block.header@ == r.header@,
        block.amsterdam_active == r.amsterdam_active,
        block.block_access_list_hash == r.block_access_list_hash,
        same_byte_strings(block.transactions, r.transactions),
        same_byte_strings(block.ommers, r.ommers),
        block.withdrawals is Some <==> r.withdrawals is Some,
        block.withdrawals is Some ==> same_byte_strings(block.withdrawals->0, r.withdrawals->0),
{
    lemma_same_block(block, r);
}

/// A copy of a witness holds the nodes, the codes, the keys and the headers.
pub proof fn lemma_witness_copy(witness: ExecutionWitness, r: ExecutionWitness)
    requires
        call_ensures(<ExecutionWitness as Clone>::clone, (&witness,), r),
    ensures
        same_byte_strings(witness.state, r.state),
        same_byte_strings(witness.codes, r.codes),
        same_byte_strings(witness.keys, r.keys),
        same_byte_strings(witness.headers, r.headers),
{
    lemma_same_witness(witness, r);
}

/// A copy of the input of a worker holds the transactions, the headers of the witness, the block
/// access list, the range and the chain configuration.
pub proof fn lemma_subblock_input_copy(input: SubblockInput, r: SubblockInput)
    requires
        call_ensures(<SubblockInput as Clone>::clone, (&input,), r),
    ensures
        input.block.header@ == r.block.header@,
        input.block.amsterdam_active == r.block.amsterdam_active,
        input.block.block_access_list_hash == r.block.block_access_list_hash,
        same_byte_strings(input.block.transactions, r.block.transactions),
        same_byte_strings(input.block.ommers, r.block.ommers),
        input.block.withdrawals is Some <==> r.block.withdrawals is Some,
        input.block.withdrawals is Some ==> same_byte_strings(
            input.block.withdrawals->0,
            r.block.withdrawals->0,
        ),
        same_byte_strings(input.witness.state, r.witness.state),
        same_byte_strings(input.witness.codes, r.witness.codes),
        same_byte_strings(input.witness.keys, r.witness.keys),
        same_byte_strings(input.witness.headers, r.witness.headers),
        input.bal == r.bal,
        input.bal_range.start == r.bal_range.start,
        input.bal_range.end == r.bal_range.end,
        input.chain_config == r.chain_config,
{
    lemma_same_block(input.block, r.block);
    lemma_same_witness(input.witness, r.witness);
}

/// A copy of an output holds copies of all receipts, the bloom, the requests and the gas.
pub proof fn lemma_output_copy(
    output: SubblockOutput<EthereumReceipt>,
    r: SubblockOutput<EthereumReceipt>,
)
    requires
        call_ensures(<SubblockOutput<EthereumReceipt> as Clone>::clone, (&output,), r),
    ensures
        r.receipts@.len() == output.receipts@.len(),
        forall|i: int|
            0 <= i < output.receipts@.len() ==> {
                &&& (#[trigger] r.receipts@[i]).success == output.receipts@[i].success
                &&& r.receipts@[i].tx_type == output.receipts@[i].tx_type
                &&& r.receipts@[i].cumulative_gas_used == output.receipts@[i].cumulative_gas_used
                &&& r.receipts@[i].logs@.len() == output.receipts@[i].logs@.len()
                &&& r.receipts@[i]@ == output.receipts@[i]@
            },
        r.logs_bloom == output.logs_bloom,
        r.requests.requests@.len() == output.requests.requests@.len(),
        forall|i: int|
            0 <= i < output.requests.requests@.len() ==> #[trigger] r.requests.requests@[i]@
                == output.requests.requests@[i]@,
        r.cumulative_gas_used == output.cumulative_gas_used,
{
    assert forall|i: int| 0 <= i < output.receipts@.len() implies {
        &&& (#[trigger] r.receipts@[i]).success == output.receipts@[i].success
        &&& r.receipts@[i].tx_type == output.receipts@[i].tx_type
        &&& r.receipts@[i].cumulative_gas_used == output.receipts@[i].cumulative_gas_used
        &&& r.receipts@[i].logs@.len() == output.receipts@[i].logs@.len()
        &&& r.receipts@[i]@ == output.receipts@[i]@
    } by {
        assert(cloned(output.receipts@[i], r.receipts@[i]));
    }
    let (x, y) = (r.requests, output.requests);
    assert(x@.len() == x.requests@.len() && y@.len() == y.requests@.len());
    assert forall|i: int| 0 <= i < y.requests@.len() implies #[trigger] x.requests@[i]@
        == y.requests@[i]@ by {
        assert(x@[i] == x.requests@[i]@);
        assert(y@[i] == y.requests@[i]@);
    }
}

/// A copy of the input of the aggregator holds copies of all outputs, and the same block, witness,
/// block access list, ranges and chain configuration.
pub proof fn lemma_aggregation_input_copy(
    input: AggregationInput<EthereumReceipt>,
    r: AggregationInput<EthereumReceipt>,
)
    requires
        call_ensures(<AggregationInput<EthereumReceipt> as Clone>::clone, (&input,), r),
    ensures
        input.block.header@ == r.block.header@,
        input.block.amsterdam_active == r.block.amsterdam_active,
        input.block.block_access_list_hash == r.block.block_access_list_hash,
        same_byte_strings(input.block.transactions, r.block.transactions),
        same_byte_strings(input.block.ommers, r.block.ommers),
        input.block.withdrawals is Some <==> r.block.withdrawals is Some,
        input.block.withdrawals is Some ==> same_byte_strings(
            input.block.withdrawals->0,
            r.block.withdrawals->0,
        ),
        same_byte_strings(input.witness.state, r.witness.state),
        same_byte_strings(input.witness.codes, r.witness.codes),
        same_byte_strings(input.witness.keys, r.witness.keys),
        same_byte_strings(input.witness.headers, r.witness.headers),
        input.bal == r.bal,
        input.chain_config == r.chain_config,
        r.bal_ranges@ == input.bal_ranges@,
        r.subblock_outputs@.len() == input.subblock_outputs@.len(),
        forall|i: int|
            0 <= i < input.subblock_outputs@.len() ==> {
                &&& (#[trigger] r.subblock_outputs@[i]).receipts@.len()
                    == input.subblock_outputs@[i].receipts@.len()
                &&& r.subblock_outputs@[i].logs_bloom == input.subblock_outputs@[i].logs_bloom
                &&& r.subblock_outputs@[i].requests@ == input.subblock_outputs@[i].requests@
                &&& r.subblock_outputs@[i].cumulative_gas_used
                    == input.subblock_outputs@[i].cumulative_gas_used
            },
{
    lemma_same_block(input.block, r.block);
    lemma_same_witness(input.witness, r.witness);
    assert forall|i: int| 0 <= i < input.subblock_outputs@.len() implies {
        &&& (#[trigger] r.subblock_outputs@[i]).receipts@.len()
            == input.subblock_outputs@[i].receipts@.len()
        &&& r.subblock_outputs@[i].logs_bloom == input.subblock_outputs@[i].logs_bloom
        &&& r.subblock_outputs@[i].requests@ == input.subblock_outputs@[i].requests@
        &&& r.subblock_outputs@[i].cumulative_gas_used
            == input.subblock_outputs@[i].cumulative_gas_used
    } by {
        assert(cloned(input.subblock_outputs@[i], r.subblock_outputs@[i]));
    }
}

/// A fresh output has no receipts and no requests, an empty bloom and no gas.
pub proof fn lemma_fresh_output(r: SubblockOutput<EthereumReceipt>)
    requires
        call_ensures(<SubblockOutput<EthereumReceipt> as Default>::default, (), r),
    ensures
        r.receipts@.len() == 0,
        forall|i: int| 0 <= i < 256 ==> #[trigger] r.logs_bloom.bytes@[i] == 0,
        r.requests@.len() == 0,
        r.cumulative_gas_used == 0,
{
}

/// A copy of an account holds the information, the flag and every storage slot.
pub proof fn lemma_account_copy(account: Account, r: Account)
    requires
        call_ensures(<Account as Clone>::clone, (&account,), r),
    ensures
        r.info == account.info,
        r.account_state == account.account_state,
        r.storage@ == account.storage@,
{
}

/// A copy of a pre-state holds, for every key, the account, the code and the mark of destruction.
pub proof fn lemma_pre_state_copy(state: FlatPreState, r: FlatPreState, k: Seq<u8>)
    requires
        call_ensures(<FlatPreState as Clone>::clone, (&state,), r),
    ensures
        state.accounts@.contains_key(k) <==> r.accounts@.contains_key(k),
        state.accounts@.contains_key(k) ==> {
            &&& state.accounts@[k].info == r.accounts@[k].info
            &&& state.accounts@[k].account_state == r.accounts@[k].account_state
            &&& state.accounts@[k].storage@ == r.accounts@[k].storage@
        },
        state.contracts@.contains_key(k) <==> r.contracts@.contains_key(k),
        state.contracts@.contains_key(k) ==> state.contracts@[k]@ == r.contracts@[k]@,
        state.destructed_addresses@.contains_key(k) <==> r.destructed_addresses@.contains_key(k),
{
    lemma_same_pre_state(state, r, k);
}

/// A copy of a flat witness holds the pre-state, the block hashes and the parent header.
pub proof fn lemma_flat_witness_copy(
    witness: FlatExecutionWitness,
    r: FlatExecutionWitness,
    k: Seq<u8>,
)
    requires
        call_ensures(<FlatExecutionWitness as Clone>::clone, (&witness,), r),
    ensures
        witness.pre_state.accounts@.contains_key(k) <==> r.pre_state.accounts@.contains_key(k),
        witness.pre_state.accounts@.contains_key(k) ==> {
            let (a, b) = (witness.pre_state.accounts@[k], r.pre_state.accounts@[k]);
            &&& a.info == b.info
            &&& a.account_state == b.account_state
            &&& a.storage@ == b.storage@
        },
        witness.pre_state.contracts@.contains_key(k) <==> r.pre_state.contracts@.contains_key(k),
        witness.pre_state.contracts@.contains_key(k) ==> witness.pre_state.contracts@[k]@
            == r.pre_state.contracts@[k]@,
        witness.pre_state.destructed_addresses@.contains_key(k)
            <==> r.pre_state.destructed_addresses@.contains_key(k),
        r.block_hashes@ == witness.block_hashes@,
        r.parent_header@ == witness.parent_header@,
{
    lemma_same_pre_state(witness.pre_state, r.pre_state, k);
}

/// A fresh pre-state and a fresh flat witness hold nothing.
pub proof fn lemma_fresh_witness(state: FlatPreState, witness: FlatExecutionWitness, k: Seq<u8>)
    requires
        call_ensures(<FlatPreState as Default>::default, (), state),
        call_ensures(<FlatExecutionWitness as Default>::default, (), witness),
    ensures
        !state.accounts@.contains_key(k),
        !state.contracts@.contains_key(k),
        !state.destructed_addresses@.contains_key(k),
        !witness.pre_state.accounts@.contains_key(k),
        !witness.pre_state.contracts@.contains_key(k),
        !witness.pre_state.destructed_addresses@.contains_key(k),
        !witness.block_hashes@.contains_key(k),
        witness.parent_header@.len() == 0,
{
}

/// A copy of a record holds every account as it was accessed and every code.
pub proof fn lemma_record_copy(record: FlatWitnessRecord, r: FlatWitnessRecord, k: Seq<u8>)
    requires
        call_ensures(<FlatWitnessRecord as Clone>::clone, (&record,), r),
    ensures
        record.accounts@.contains_key(k) <==> r.accounts@.contains_key(k),
        record.accounts@.contains_key(k) ==> {
            &&& record.accounts@[k] is Destroyed <==> r.accounts@[k] is Destroyed
            &&& record.accounts@[k] is StorageKeys ==> record.accounts@[k]->StorageKeys_0@.dom()
                == r.accounts@[k]->StorageKeys_0@.dom()
        },
        r.contracts@ == record.contracts@,
{
    assert(record@.accounts.contains_key(k) <==> record.accounts@.contains_key(k));
    assert(r@.accounts.contains_key(k) <==> r.accounts@.contains_key(k));
    if record.accounts@.contains_key(k) {
        assert(record@.accounts[k] == record.accounts@[k]@);
        assert(r@.accounts[k] == r.accounts@[k]@);
        lemma_accessed_view(record.accounts@[k]);
        lemma_accessed_view(r.accounts@[k]);
    }
}

/// A copy of an accessed account is destroyed exactly if the account is, and else holds its keys.
pub proof fn lemma_accessed_copy(account: AccessedAccount, r: AccessedAccount)
    requires
        call_ensures(<AccessedAccount as Clone>::clone, (&account,), r),
    ensures
        account is Destroyed <==> r is Destroyed,
        account is StorageKeys ==> account->StorageKeys_0@.dom() == r->StorageKeys_0@.dom(),
{
    lemma_accessed_view(account);
    lemma_accessed_view(r);
}

/// A fresh record holds nothing.
pub proof fn lemma_fresh_record(r: FlatWitnessRecord, k: Seq<u8>)
    requires
        call_ensures(<FlatWitnessRecord as Default>::default, (), r),
    ensures
        !r.accounts@.contains_key(k),
        !r.contracts@.contains_key(k),
{
    assert(r@.accounts.contains_key(k) <==> r.accounts@.contains_key(k));
}

/// A database that is made with destructed addresses, and a copy of it, read the storage of exactly
/// those as zero.
pub proof fn lemma_failing_db(
    addresses: OrderedSet<20>,
    db: SelfDestructCompatibleFailingDB,
    copy: SelfDestructCompatibleFailingDB,
    address: Address,
    index: U256,
    value: Result<U256, NonCapturedStateError>,
    copied: Result<U256, NonCapturedStateError>,
)
    requires
        call_ensures(SelfDestructCompatibleFailingDB::new, (addresses,), db),
        call_ensures(<SelfDestructCompatibleFailingDB as Clone>::clone, (&db,), copy),
        call_ensures(SelfDestructCompatibleFailingDB::storage_ref, (&db, address, index), value),
        call_ensures(SelfDestructCompatibleFailingDB::storage_ref, (&copy, address, index), copied),
    ensures
        value is Ok <==> addresses@.contains_key(address.bytes@),
        copied is Ok <==> addresses@.contains_key(address.bytes@),
{
}

} // verus!
