//! What the operations of the library do, told by what they are given and what they return.
//!
//! Each law takes the arguments of an operation and a result that its contract allows.

use crate::bal::{
    bal_contents, bal_list_hash, changes_views, lemma_looked_up_account, lemma_looked_up_slots,
    lemma_lookup, lookup_result, AccountChanges, Bal, BalWrites,
};
use crate::bytecode::{check_contract_code, executable_code, is_contract_code, original_code};
use crate::error::StatelessValidationError;
use crate::flat_witness::{
    CacheDB, FlatExecutionWitness, NonCapturedStateError, SelfDestructCompatibleFailingDB,
};
use crate::hash::keccak256_digest;
use crate::header::{
    ancestor_hashes, byte_views, decoded_header, header_views, headers_of, lemma_hash_map_view,
    lemma_parent, lemma_recorded_hash, lemma_sealed, lemma_sorted, parent_verdict, sort_by_number,
    witness_ancestors, Header, HeaderView, SealedHeader,
};
use crate::primitives::{Address, Bloom, B256, U256};
use crate::receipt::{
    combined_bloom, lemma_receipts_bloom_bits, logs_bloom_bits, receipt_views, EthereumReceipt, Log,
    LogView,
};
use crate::runner::{report_single_file, TestReport, TestRun, TestRunnerCommand};
use crate::subblock::bal_state::lemma_changes_views;
use std::collections::BTreeMap;
use vstd::prelude::*;

verus! {

/// The parts of logs that enter a bloom filter: the address and the topics of each.
pub open spec fn bloom_parts(logs: Seq<Log>) -> Seq<(Seq<u8>, Seq<Seq<u8>>)> {
    logs.map_values(|l: Log| (l.address@, l.topics@.map_values(|t: B256| t@)))
}

/// The bloom of receipts has a bit set exactly if the filter of the logs of one of them has it set,
/// whatever the number of receipts and of their logs. `mask` selects the bits that are looked at.
pub proof fn lemma_combined_bloom(receipts: &[EthereumReceipt], r: Bloom, at: int, mask: u8)
    requires
        call_ensures(combined_bloom, (receipts,), r),
        0 <= at < 256,
    ensures
        r.bytes@[at] & mask != 0 <==> exists|i: int|
            0 <= i < receipts@.len() && logs_bloom_bits(
                bloom_parts((#[trigger] receipts@[i]).logs@),
            )[at] & mask != 0,
{
    let views = receipt_views(receipts@);
    lemma_receipts_bloom_bits(views, at, mask);
    assert forall|i: int| 0 <= i < receipts@.len() implies bloom_parts(
        (#[trigger] receipts@[i]).logs@,
    ) == views[i].logs.map_values(|l: LogView| (l.address, l.topics)) by {
        assert(bloom_parts(receipts@[i].logs@) =~= views[i].logs.map_values(
            |l: LogView| (l.address, l.topics),
        ));
    }
    if r.bytes@[at] & mask != 0 {
        let i = choose|i: int|
            0 <= i < views.len() && logs_bloom_bits(
                (#[trigger] views[i]).logs.map_values(|l: LogView| (l.address, l.topics)),
            )[at] & mask != 0;
        assert(logs_bloom_bits(bloom_parts(receipts@[i].logs@))[at] & mask != 0);
    }
    if exists|i: int|
        0 <= i < receipts@.len() && logs_bloom_bits(bloom_parts((#[trigger] receipts@[i]).logs@))[at]
            & mask != 0 {
        let i = choose|i: int|
            0 <= i < receipts@.len() && logs_bloom_bits(
                bloom_parts((#[trigger] receipts@[i]).logs@),
            )[at] & mask != 0;
        assert(views[i].logs == views[i].logs);
    }
}

/// A read at `bal_index` of these writes has one outcome only: they are fewer than five, or in the
/// order of their indices with at most one at `bal_index`.
pub open spec fn readable<T>(writes: Seq<(u64, T)>, bal_index: u64) -> bool {
    writes.len() < 5 || forall|i: int, j: int|
        0 <= i < j < writes.len() ==> (#[trigger] writes[i]).0 <= (#[trigger] writes[j]).0 && !(
        writes[i].0 == bal_index && writes[j].0 == bal_index)
}

/// The first `n` writes have indices below `bal_index`, and the next one, if there is one, has not.
pub open spec fn below<T>(writes: Seq<(u64, T)>, bal_index: u64, n: int) -> bool {
    &&& 0 <= n <= writes.len()
    &&& forall|i: int| 0 <= i < n ==> (#[trigger] writes[i]).0 < bal_index
    &&& n < writes.len() ==> writes[n].0 >= bal_index
}

/// A read sees the last of the leading writes below its BAL index, and nothing where there is none.
pub proof fn lemma_get<T>(writes: BalWrites<T>, bal_index: u64, r: Option<&T>, n: int)
    requires
        call_ensures(BalWrites::<T>::get, (&writes, bal_index), r),
        readable(writes.writes@, bal_index),
        below(writes.writes@, bal_index, n),
    ensures
        n == 0 ==> r is None,
        n > 0 ==> r is Some && *r->0 == writes.writes@[n - 1].1,
{
    let value = match r {
        Some(v) => Some(*v),
        None => None,
    };
    lemma_lookup(writes.writes@, bal_index, value, n);
}

/// The changes of a block access list at an index are those of its accounts, in order. For nonce,
/// balance and code they hold the last of the leading writes below the index, and nothing where there
/// is none.
pub proof fn lemma_changes_at(
    bal: Bal,
    bal_index: u64,
    r: Vec<(Address, AccountChanges)>,
    i: int,
    nonces: int,
    balances: int,
    codes: int,
)
    requires
        call_ensures(Bal::changes_at, (&bal, bal_index), r),
        0 <= i < bal.accounts@.len(),
        readable(bal.accounts@[i].1.account_info.nonce.writes@, bal_index),
        readable(bal.accounts@[i].1.account_info.balance.writes@, bal_index),
        readable(bal.accounts@[i].1.account_info.code.writes@, bal_index),
        below(bal.accounts@[i].1.account_info.nonce.writes@, bal_index, nonces),
        below(bal.accounts@[i].1.account_info.balance.writes@, bal_index, balances),
        below(bal.accounts@[i].1.account_info.code.writes@, bal_index, codes),
    ensures
        r@.len() == bal.accounts@.len(),
        r@[i].0 == bal.accounts@[i].0,
        nonces == 0 ==> r@[i].1.nonce is None,
        nonces > 0 ==> r@[i].1.nonce == Some(
            bal.accounts@[i].1.account_info.nonce.writes@[nonces - 1].1,
        ),
        balances == 0 ==> r@[i].1.balance is None,
        balances > 0 ==> r@[i].1.balance == Some(
            bal.accounts@[i].1.account_info.balance.writes@[balances - 1].1,
        ),
        codes == 0 ==> r@[i].1.code_hash is None,
        codes > 0 ==> r@[i].1.code_hash == Some(
            bal.accounts@[i].1.account_info.code.writes@[codes - 1].1.0,
        ),
{
    let changes = changes_views(r@);
    let info = bal.accounts@[i].1.account_info;
    lemma_looked_up_account(bal.accounts@, bal_index, changes, i);
    lemma_changes_views(r@, i);
    lemma_lookup(info.nonce.writes@, bal_index, changes[i].1.nonce, nonces);
    lemma_lookup(info.balance.writes@, bal_index, changes[i].1.balance, balances);
    let writes = info.code.writes@;
    let hashes = writes.map_values(|w: (u64, (B256, Vec<u8>))| (w.0, w.1.0));
    assert forall|p: int| 0 <= p < codes implies (#[trigger] hashes[p]).0 < bal_index by {
        assert(hashes[p].0 == writes[p].0);
    }
    if hashes.len() >= 5 {
        assert forall|p: int, q: int| 0 <= p < q < hashes.len() implies (#[trigger] hashes[p]).0
            <= (#[trigger] hashes[q]).0 && !(hashes[p].0 == bal_index && hashes[q].0
            == bal_index) by {
            assert(writes[p].0 <= writes[q].0);
        }
    }
    lemma_lookup(hashes, bal_index, changes[i].1.code_hash, codes);
}

/// The changed slots of an account at an index are the slots with a leading write below the index,
/// each with the last such write, and no others. Here no other slot has the key of slot `s`.
pub proof fn lemma_slots_at(
    bal: Bal,
    bal_index: u64,
    r: Vec<(Address, AccountChanges)>,
    i: int,
    s: int,
    n: int,
)
    requires
        call_ensures(Bal::changes_at, (&bal, bal_index), r),
        0 <= i < bal.accounts@.len(),
        0 <= s < bal.accounts@[i].1.storage.storage@.len(),
        readable(bal.accounts@[i].1.storage.storage@[s].1.writes@, bal_index),
        below(bal.accounts@[i].1.storage.storage@[s].1.writes@, bal_index, n),
        forall|t: int|
            0 <= t < bal.accounts@[i].1.storage.storage@.len() && t != s ==> (
            #[trigger] bal.accounts@[i].1.storage.storage@[t]).0
                != bal.accounts@[i].1.storage.storage@[s].0,
    ensures
        n > 0 ==> r@[i].1.storage@.contains(
            (
                bal.accounts@[i].1.storage.storage@[s].0,
                bal.accounts@[i].1.storage.storage@[s].1.writes@[n - 1].1,
            ),
        ),
        forall|q: int|
            0 <= q < r@[i].1.storage@.len() && (#[trigger] r@[i].1.storage@[q]).0
                == bal.accounts@[i].1.storage.storage@[s].0 ==> n > 0 && r@[i].1.storage@[q].1
                == bal.accounts@[i].1.storage.storage@[s].1.writes@[n - 1].1,
{
    let changes = changes_views(r@);
    let slots = bal.accounts@[i].1.storage.storage@;
    let writes = slots[s].1.writes@;
    let values = r@[i].1.storage@;
    lemma_looked_up_account(bal.accounts@, bal_index, changes, i);
    lemma_changes_views(r@, i);
    assert(changes[i].0 == bal.accounts@[i].0);
    lemma_looked_up_slots(slots, bal_index, values);
    if n > 0 {
        if lookup_result(writes, bal_index, None) {
            lemma_lookup(writes, bal_index, None, n);
        } else {
            let q = choose|q: int|
                0 <= q < values.len() && (#[trigger] values[q]).0 == slots[s].0 && lookup_result(
                    writes,
                    bal_index,
                    Some(values[q].1),
                );
            lemma_lookup(writes, bal_index, Some(values[q].1), n);
            assert(values[q] == (slots[s].0, writes[n - 1].1));
        }
    }
    assert forall|q: int|
        0 <= q < values.len() && (#[trigger] values[q]).0 == slots[s].0 implies n > 0
        && values[q].1 == writes[n - 1].1 by {
        let t = choose|t: int|
            0 <= t < slots.len() && (#[trigger] slots[t]).0 == values[q].0 && lookup_result(
                slots[t].1.writes@,
                bal_index,
                Some(values[q].1),
            );
        assert(t == s);
        lemma_lookup(writes, bal_index, Some(values[q].1), n);
    }
}

/// The hash of a block access list is that of all its contents.
pub proof fn lemma_hash(bal: Bal, r: B256)
    requires
        call_ensures(Bal::hash, (&bal,), r),
    ensures
        r@ == bal_list_hash(bal_contents(bal.accounts@)),
{
}

/// Bytes are taken for contract code exactly if they do not start with the magic number of EIP-7702,
/// or are 23 bytes long and name version 0 behind it.
pub proof fn lemma_check_contract_code(bytes: Vec<u8>, r: bool)
    requires
        call_ensures(check_contract_code, (&bytes,), r),
    ensures
        r <==> (bytes@.len() >= 2 && bytes@[0] == 0xef && bytes@[1] == 0x01 ==> bytes@.len() == 23
            && bytes@[2] == 0),
{
}

/// A header is read exactly if the bytes encode one. It has the fields that they encode, and its hash
/// is that of the bytes.
pub proof fn lemma_decode(encoded: Vec<u8>, r: Result<Header, StatelessValidationError>)
    requires
        call_ensures(Header::decode, (encoded,), r),
    ensures
        r is Ok <==> decoded_header(encoded@) is Some,
        r matches Ok(h) ==> decoded_header(encoded@) == Some(
            (h@.number, h@.parent_hash, h@.state_root),
        ) && h@.encoded == encoded@ && h@.hash() == keccak256_digest(encoded@),
        r matches Err(e) ==> e == StatelessValidationError::HeaderDeserializationFailed,
{
}

/// A header gives its number, its parent hash, its state root and the hash of its encoding.
pub proof fn lemma_header_fields(
    header: Header,
    number: u64,
    parent_hash: B256,
    state_root: B256,
    hash: B256,
)
    requires
        call_ensures(Header::number, (&header,), number),
        call_ensures(Header::parent_hash, (&header,), parent_hash),
        call_ensures(Header::state_root, (&header,), state_root),
        call_ensures(Header::hash_slow, (&header,), hash),
    ensures
        number == header@.number,
        parent_hash@ == header@.parent_hash,
        state_root@ == header@.state_root,
        hash@ == keccak256_digest(header@.encoded),
{
}

/// The ancestors of a witness are found exactly if it holds any and all of them can be read. The last
/// of them is the one with the highest number, and of several such the one that stands last in the
/// witness. Each has the hash of its encoding, and their numbers never fall.
pub proof fn lemma_witness_ancestors(
    headers: Vec<Vec<u8>>,
    r: Result<Vec<SealedHeader>, StatelessValidationError>,
)
    requires
        call_ensures(witness_ancestors, (&headers,), r),
    ensures
        r is Ok <==> headers@.len() > 0 && forall|i: int|
            0 <= i < headers@.len() ==> decoded_header(#[trigger] headers@[i]@) is Some,
        headers@.len() == 0 ==> r == Err::<Vec<SealedHeader>, StatelessValidationError>(
            StatelessValidationError::MissingAncestorHeader,
        ),
        headers@.len() > 0 && r is Err ==> r->Err_0
            == StatelessValidationError::HeaderDeserializationFailed,
        r matches Ok(v) ==> {
            &&& v@.len() == headers@.len()
            &&& forall|i: int|
                0 <= i < v@.len() ==> (#[trigger] v@[i]).hash@ == keccak256_digest(
                    v@[i].header@.encoded,
                )
            &&& forall|i: int, j: int|
                0 <= i <= j < v@.len() ==> (#[trigger] v@[i]).header@.number <= (
                #[trigger] v@[j]).header@.number
            &&& exists|i: int|
                0 <= i < headers@.len() && v@[v@.len() - 1].header@ == HeaderView::of(
                    #[trigger] headers@[i]@,
                ) && forall|j: int|
                    i < j < headers@.len() ==> HeaderView::of(#[trigger] headers@[j]@).number
                        < HeaderView::of(headers@[i]@).number
        },
{
    let s = byte_views(headers@);
    lemma_parent(s);
    assert forall|i: int| 0 <= i < headers@.len() implies #[trigger] headers@[i]@ == s[i] by {}
    if headers@.len() > 0 && (forall|i: int|
        0 <= i < headers@.len() ==> decoded_header(#[trigger] headers@[i]@) is Some) {
        assert forall|i: int| 0 <= i < s.len() implies decoded_header(#[trigger] s[i]) is Some by {
            assert(decoded_header(headers@[i]@) is Some);
        }
    }
    if r is Ok {
        let v = r->Ok_0@;
        let sorted = sort_by_number(headers_of(s));
        lemma_sorted(headers_of(s));
        assert forall|i: int| 0 <= i < v.len() implies (#[trigger] v[i]).header@ == sorted[i] by {
            lemma_sealed(v, i);
        }
        assert forall|i: int| 0 <= i < headers@.len() implies decoded_header(
            #[trigger] headers@[i]@,
        ) is Some by {
            if decoded_header(headers@[i]@) is None {
                assert(decoded_header(s[i]) is None);
            }
        }
        let i = choose|i: int|
            0 <= i < s.len() && parent_verdict(s)->Ok_0 == HeaderView::of(
                #[trigger] s[i],
            ) && (forall|j: int|
                0 <= j < s.len() ==> HeaderView::of(#[trigger] s[j]).number <= HeaderView::of(
                    s[i],
                ).number) && (forall|j: int|
                i < j < s.len() ==> HeaderView::of(#[trigger] s[j]).number < HeaderView::of(
                    s[i],
                ).number);
        assert forall|j: int| i < j < headers@.len() implies HeaderView::of(
            #[trigger] headers@[j]@,
        ).number < HeaderView::of(headers@[i]@).number by {
            assert(HeaderView::of(s[j]).number < HeaderView::of(s[i]).number);
        }
        assert(v[v.len() - 1].header@ == HeaderView::of(headers@[i]@));
    }
}

/// The hash of an ancestor is the one that the next header names as its parent, or that the block
/// names where the ancestor is the last. Here `i` is the first header with its number.
pub proof fn lemma_ancestor_hashes(
    headers: &[SealedHeader],
    parent_hash: B256,
    r: BTreeMap<u64, B256>,
    i: int,
)
    requires
        call_ensures(ancestor_hashes, (headers, parent_hash), r),
        0 <= i < headers@.len(),
        forall|j: int|
            0 <= j < i ==> (#[trigger] headers@[j]).header@.number != headers@[i].header@.number,
    ensures
        r@.contains_key(headers@[i].header@.number),
        i < headers@.len() - 1 ==> r@[headers@[i].header@.number]@ == headers@[i
            + 1].header@.parent_hash,
        i == headers@.len() - 1 ==> r@[headers@[i].header@.number]@ == parent_hash@,
{
    let views = header_views(headers@);
    assert forall|j: int| 0 <= j < i implies (#[trigger] views[j]).number != views[i].number by {
        assert(headers@[j].header@.number != headers@[i].header@.number);
    }
    lemma_recorded_hash(views, parent_hash@, i);
    lemma_hash_map_view(r@, views[i].number);
}

/// A database that is made of a witness holds the accounts, the contracts, the block hashes and the
/// destructed addresses of the witness, and nothing else.
pub proof fn lemma_create_db(
    witness: FlatExecutionWitness,
    r: CacheDB<SelfDestructCompatibleFailingDB>,
    k: Seq<u8>,
)
    requires
        call_ensures(FlatExecutionWitness::create_db, (witness,), r),
    ensures
        r.cache.accounts@.contains_key(k) <==> witness.pre_state.accounts@.contains_key(k),
        r.cache.accounts@.contains_key(k) ==> {
            &&& r.cache.accounts@[k].info == witness.pre_state.accounts@[k].info
            &&& r.cache.accounts@[k].account_state == witness.pre_state.accounts@[k].account_state
            &&& r.cache.accounts@[k].storage@ == witness.pre_state.accounts@[k].storage@
        },
        r.cache.contracts@.contains_key(k) <==> witness.pre_state.contracts@.contains_key(k),
        r.cache.contracts@.contains_key(k) ==> r.cache.contracts@[k] == executable_code(
            witness.pre_state.contracts@[k]@,
        ) && original_code(r.cache.contracts@[k]) == witness.pre_state.contracts@[k]@,
        r.cache.block_hashes@ == witness.block_hashes@,
        r.cache.logs@.len() == 0,
        r.db@.contains(k) <==> witness.pre_state.destructed_addresses@.contains_key(k),
{
}

/// The contracts of a witness are accepted exactly if each of them is contract code.
pub proof fn lemma_check_contracts(witness: FlatExecutionWitness, r: bool)
    requires
        call_ensures(FlatExecutionWitness::check_contracts, (&witness,), r),
    ensures
        r <==> forall|k: Seq<u8>| #[trigger]
            witness.pre_state.contracts@.contains_key(k) ==> is_contract_code(
                witness.pre_state.contracts@[k]@,
            ),
{
}

/// Storage is read as zero, for every slot, exactly if the account is one of those destructed.
pub proof fn lemma_storage_ref(
    db: SelfDestructCompatibleFailingDB,
    address: Address,
    index: U256,
    r: Result<U256, NonCapturedStateError>,
)
    requires
        call_ensures(SelfDestructCompatibleFailingDB::storage_ref, (&db, address, index), r),
    ensures
        r is Ok <==> db@.contains(address@),
        r matches Ok(value) ==> forall|i: int| 0 <= i < 32 ==> #[trigger] value.bytes@[i] == 0,
{
}

/// Accounts, codes and block hashes are never found behind the cache.
pub proof fn lemma_nothing_captured(
    db: SelfDestructCompatibleFailingDB,
    address: Address,
    code_hash: B256,
    number: u64,
    account: Result<Option<revm::state::AccountInfo>, NonCapturedStateError>,
    code: Result<revm::state::Bytecode, NonCapturedStateError>,
    block_hash: Result<B256, NonCapturedStateError>,
)
    requires
        call_ensures(SelfDestructCompatibleFailingDB::basic_ref, (&db, address), account),
        call_ensures(SelfDestructCompatibleFailingDB::code_by_hash_ref, (&db, code_hash), code),
        call_ensures(SelfDestructCompatibleFailingDB::block_hash_ref, (&db, number), block_hash),
    ensures
        account is Err,
        code is Err,
        block_hash is Err,
{
}

/// A single file is run exactly if the path is a file with the extension `json`; else the suite of
/// the blockchain tests below the path.
pub proof fn lemma_test_run<P>(
    command: TestRunnerCommand<P>,
    is_file: bool,
    extension: Option<String>,
    r: TestRun<P>,
)
    requires
        call_ensures(TestRunnerCommand::<P>::test_run, (command, is_file, extension), r),
    ensures
        r is SingleFile <==> is_file && extension is Some && extension->0@ == "json"@,
        r matches TestRun::SingleFile { path } ==> path == command.path,
        r matches TestRun::Suite { path, subdirectory } ==> path == command.path && subdirectory@
            == "blockchain_tests"@,
{
}

/// The process fails exactly if the test does.
pub proof fn lemma_report(passed: bool, r: TestReport)
    requires
        call_ensures(report_single_file, (passed,), r),
    ensures
        r.exit_code == 0 <==> passed,
        !passed ==> r.exit_code == 1,
{
}

} // verus!
