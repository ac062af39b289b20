//! Block headers, and the ancestor headers of a witness.

use crate::error::StatelessValidationError;
use crate::hash::{keccak256, keccak256_digest};
use crate::primitives::{FixedBytes, B256};
use std::collections::BTreeMap;
use vstd::prelude::*;

verus! {

/// The error type of `alloy_rlp`, carried from the decoder to its caller.
#[verifier::external_type_specification]
#[verifier::external_body]
pub struct ExRlpError(alloy_rlp::Error);

/// The number, the parent hash and the state root of the header that
/// `alloy_rlp::decode_exact::<alloy_consensus::Header>` reads from `bytes`, or `None` where it
/// refuses them.
pub uninterp spec fn decoded_header(bytes: Seq<u8>) -> Option<(u64, Seq<u8>, Seq<u8>)>;

/// Calls `alloy_rlp::decode_exact::<alloy_consensus::Header>`, a function of the bytes alone, and
/// takes three fields of the header that it reads; these are named [`decoded_header`].
#[verifier::external_body]
fn decode_header(bytes: &[u8]) -> (r: Result<(u64, B256, B256), alloy_rlp::Error>)
    ensures
        match r {
            Ok(h) => decoded_header(bytes@) == Some((h.0, h.1@, h.2@)),
            Err(_) => decoded_header(bytes@) is None,
        },
{
    alloy_rlp::decode_exact::<alloy_consensus::Header>(bytes).map(
        |h|
            (
                h.number,
                FixedBytes { bytes: h.parent_hash.0 },
                FixedBytes { bytes: h.state_root.0 },
            ),
    )
}

/// A block header: its RLP encoding, and the decoded fields that validation reads.
#[derive(Debug)]
pub struct Header {
    number: u64,
    parent_hash: B256,
    state_root: B256,
    encoded: Vec<u8>,
}

/// What a [`Header`] holds.
#[verifier::ext_equal]
pub struct HeaderView {
    pub number: u64,
    pub parent_hash: Seq<u8>,
    pub state_root: Seq<u8>,
    pub encoded: Seq<u8>,
}

impl HeaderView {
    /// The header that the encoding `bytes` stands for.
    pub open spec fn of(bytes: Seq<u8>) -> HeaderView {
        let fields = decoded_header(bytes)->0;
        HeaderView {
            number: fields.0,
            parent_hash: fields.1,
            state_root: fields.2,
            encoded: bytes,
        }
    }

    /// The block hash.
    pub open spec fn hash(self) -> Seq<u8> {
        keccak256_digest(self.encoded)
    }
}

impl View for Header {
    type V = HeaderView;

    closed spec fn view(&self) -> HeaderView {
        HeaderView {
            number: self.number,
            parent_hash: self.parent_hash@,
            state_root: self.state_root@,
            encoded: self.encoded@,
        }
    }
}

impl Clone for Header {
    fn clone(&self) -> (r: Self)
        ensures
            r@ == self@,
    {
        proof {
            use_type_invariant(self);
        }
        let encoded: Vec<u8> = self.encoded.clone();
        assert(encoded@ =~= self.encoded@);
        Header {
            number: self.number,
            parent_hash: self.parent_hash,
            state_root: self.state_root,
            encoded,
        }
    }
}

impl Header {
    /// The fields are those that the encoding holds.
    #[verifier::type_invariant]
    spec fn well_formed(self) -> bool {
        decoded_header(self.encoded@) == Some(
            (self.number, self.parent_hash@, self.state_root@),
        )
    }

    /// Reads a header from its RLP encoding.
    pub fn decode(encoded: Vec<u8>) -> (r: Result<Header, StatelessValidationError>)
        ensures
            match r {
                Ok(h) => {
                    &&& decoded_header(encoded@) is Some
                    &&& h@ == HeaderView::of(encoded@)
                    &&& decoded_header(encoded@) == Some(
                        (h@.number, h@.parent_hash, h@.state_root),
                    )
                    &&& h@.encoded == encoded@
                },
                Err(e) => {
                    &&& decoded_header(encoded@) is None
                    &&& e == StatelessValidationError::HeaderDeserializationFailed
                },
            },
    {
        match decode_header(encoded.as_slice()) {
            Ok((number, parent_hash, state_root)) => {
                Ok(Header { number, parent_hash, state_root, encoded })
            },
            Err(_) => Err(StatelessValidationError::HeaderDeserializationFailed),
        }
    }

    /// The block number.
    pub fn number(&self) -> (r: u64)
        ensures
            r == self@.number,
    {
        self.number
    }

    /// The hash of the parent block's header.
    pub fn parent_hash(&self) -> (r: B256)
        ensures
            r@ == self@.parent_hash,
    {
        self.parent_hash
    }

    /// The state root after the block.
    pub fn state_root(&self) -> (r: B256)
        ensures
            r@ == self@.state_root,
    {
        self.state_root
    }

    /// The block hash: the Keccak-256 digest of the header's encoding.
    pub fn hash_slow(&self) -> (r: B256)
        ensures
            r@ == self@.hash(),
            r@ == keccak256_digest(self@.encoded),
    {
        keccak256(self.encoded.as_slice())
    }
}

/// A header together with the hash of its encoding.
#[derive(Clone, Debug)]
pub struct SealedHeader {
    /// The header.
    pub header: Header,
    /// Its hash.
    pub hash: B256,
}

/// The headers that a sequence of sealed headers holds.
pub open spec fn header_views(s: Seq<SealedHeader>) -> Seq<HeaderView> {
    s.map_values(|h: SealedHeader| h.header@)
}

/// Every sealed header holds its own hash.
pub open spec fn hashes_match(s: Seq<SealedHeader>) -> bool {
    forall|i: int| 0 <= i < s.len() ==> (#[trigger] s[i]).hash@ == s[i].header@.hash()
}

/// The views of a sequence of byte strings.
pub open spec fn byte_views(s: Seq<Vec<u8>>) -> Seq<Seq<u8>> {
    s.map_values(|b: Vec<u8>| b@)
}

/// Every byte string of `s` is the encoding of a header.
pub open spec fn all_headers(s: Seq<Seq<u8>>) -> bool {
    forall|i: int| 0 <= i < s.len() ==> decoded_header(#[trigger] s[i]) is Some
}

/// The headers that the byte strings of `s` encode.
pub open spec fn headers_of(s: Seq<Seq<u8>>) -> Seq<HeaderView> {
    s.map_values(|b: Seq<u8>| HeaderView::of(b))
}

/// The numbers never fall from one header to a later one.
pub open spec fn ascends_by_number(s: Seq<HeaderView>) -> bool {
    forall|i: int, j: int|
        0 <= i <= j < s.len() ==> (#[trigger] s[i]).number <= (#[trigger] s[j]).number
}

/// `s` with `h` put in behind every header whose number is not above that of `h`, counted from the
/// end.
pub open spec fn insert_by_number(s: Seq<HeaderView>, h: HeaderView) -> Seq<HeaderView>
    decreases s.len(),
{
    if s.len() == 0 || s.last().number <= h.number {
        s.push(h)
    } else {
        insert_by_number(s.drop_last(), h).push(s.last())
    }
}

/// The headers of `s` in ascending order of their numbers, where those with equal numbers keep
/// their order.
pub open spec fn sort_by_number(s: Seq<HeaderView>) -> Seq<HeaderView>
    decreases s.len(),
{
    if s.len() == 0 {
        s
    } else {
        insert_by_number(sort_by_number(s.drop_last()), s.last())
    }
}

/// The headers of `s` with number `n`, in order.
pub open spec fn with_number(s: Seq<HeaderView>, n: u64) -> Seq<HeaderView>
    decreases s.len(),
{
    if s.len() == 0 {
        s
    } else if s.last().number == n {
        with_number(s.drop_last(), n).push(s.last())
    } else {
        with_number(s.drop_last(), n)
    }
}

proof fn lemma_insert_ascends(s: Seq<HeaderView>, h: HeaderView)
    requires
        ascends_by_number(s),
    ensures
        ascends_by_number(insert_by_number(s, h)),
        insert_by_number(s, h).len() == s.len() + 1,
        forall|i: int|
            0 <= i <= s.len() ==> (#[trigger] insert_by_number(s, h)[i]).number <= h.number || (
            s.len() > 0 && insert_by_number(s, h)[i].number <= s.last().number),
    decreases s.len(),
{
    if s.len() > 0 && s.last().number > h.number {
        let rest = s.drop_last();
        lemma_insert_ascends(rest, h);
        let t = insert_by_number(rest, h);
        let r = t.push(s.last());
        assert(insert_by_number(s, h) == r);
        assert forall|i: int| 0 <= i < r.len() implies (#[trigger] r[i]).number
            <= s.last().number by {
            if i < t.len() {
                assert(r[i] == t[i]);
                if rest.len() > 0 {
                    assert(rest.last() == s[s.len() - 2]);
                }
            }
        }
        assert forall|i: int, j: int| 0 <= i <= j < r.len() implies (#[trigger] r[i]).number <= (
        #[trigger] r[j]).number by {
            if j < t.len() {
                assert(r[i] == t[i] && r[j] == t[j]);
            }
        }
    }
}

proof fn lemma_insert_multiset(s: Seq<HeaderView>, h: HeaderView)
    ensures
        insert_by_number(s, h).to_multiset() == s.to_multiset().insert(h),
    decreases s.len(),
{
    broadcast use vstd::seq_lib::group_to_multiset_ensures;

    if s.len() > 0 && s.last().number > h.number {
        let rest = s.drop_last();
        lemma_insert_multiset(rest, h);
        assert(s =~= rest.push(s.last()));
        assert(s.to_multiset() =~= rest.to_multiset().insert(s.last()));
        assert(insert_by_number(s, h).to_multiset() =~= s.to_multiset().insert(h));
    }
}

proof fn lemma_insert_with_number(s: Seq<HeaderView>, h: HeaderView, n: u64)
    requires
        ascends_by_number(s),
    ensures
        with_number(insert_by_number(s, h), n) == if h.number == n {
            with_number(s, n).push(h)
        } else {
            with_number(s, n)
        },
    decreases s.len(),
{
    if s.len() == 0 || s.last().number <= h.number {
        assert(s.push(h).drop_last() =~= s);
    } else {
        let rest = s.drop_last();
        let t = insert_by_number(rest, h);
        lemma_insert_with_number(rest, h, n);
        assert(t.push(s.last()).drop_last() =~= t);
    }
}

/// Sorting headers by number puts the numbers in ascending order, keeps every header with its
/// multiplicity, and leaves headers of one number in the order that they had.
pub proof fn lemma_sort_by_number(s: Seq<HeaderView>)
    ensures
        ascends_by_number(sort_by_number(s)),
        sort_by_number(s).len() == s.len(),
        sort_by_number(s).to_multiset() == s.to_multiset(),
        forall|n: u64| #[trigger] with_number(sort_by_number(s), n) == with_number(s, n),
    decreases s.len(),
{
    broadcast use vstd::seq_lib::group_to_multiset_ensures;

    if s.len() > 0 {
        let rest = s.drop_last();
        lemma_sort_by_number(rest);
        lemma_insert_ascends(sort_by_number(rest), s.last());
        lemma_insert_multiset(sort_by_number(rest), s.last());
        assert(s =~= rest.push(s.last()));
        assert forall|n: u64| #[trigger]
            with_number(sort_by_number(s), n) == with_number(s, n) by {
            lemma_insert_with_number(sort_by_number(rest), s.last(), n);
        }
    }
}

/// Where the place for `h` is known, putting it in there is the sorted insertion.
proof fn lemma_insert_at(s: Seq<HeaderView>, h: HeaderView, p: int)
    requires
        0 <= p <= s.len(),
        p > 0 ==> s[p - 1].number <= h.number,
        forall|i: int| p <= i < s.len() ==> (#[trigger] s[i]).number > h.number,
    ensures
        s.insert(p, h) == insert_by_number(s, h),
    decreases s.len(),
{
    if p == s.len() {
        assert(s.insert(p, h) =~= s.push(h));
    } else {
        lemma_insert_at(s.drop_last(), h, p);
        assert(s.insert(p, h) =~= s.drop_last().insert(p, h).push(s.last()));
    }
}

/// Puts a header into headers sorted by number, behind those with the same number.
fn insert_sorted(headers: &mut Vec<SealedHeader>, header: SealedHeader)
    requires
        hashes_match(old(headers)@),
        header.hash@ == header.header@.hash(),
    ensures
        hashes_match(final(headers)@),
        header_views(final(headers)@) == insert_by_number(
            header_views(old(headers)@),
            header.header@,
        ),
{
    let mut p: usize = headers.len();
    while p > 0 && headers[p - 1].header.number() > header.header.number()
        invariant
            p <= headers.len(),
            forall|i: int|
                p <= i < headers.len() ==> (#[trigger] headers@[i]).header@.number
                    > header.header@.number,
        decreases p,
    {
        p -= 1;
    }
    proof {
        let views = header_views(headers@);
        assert forall|i: int| p <= i < views.len() implies (#[trigger] views[i]).number
            > header.header@.number by {
            assert(headers@[i].header@.number > header.header@.number);
        }
        lemma_insert_at(views, header.header@, p as int);
        assert(header_views(headers@.insert(p as int, header)) =~= views.insert(
            p as int,
            header.header@,
        ));
        assert(hashes_match(headers@.insert(p as int, header))) by {
            let t = headers@.insert(p as int, header);
            assert forall|i: int| 0 <= i < t.len() implies (#[trigger] t[i]).hash@
                == t[i].header@.hash() by {
                if i < p {
                    assert(t[i] == headers@[i]);
                } else if i > p {
                    assert(t[i] == headers@[i - 1]);
                }
            }
        }
    }
    headers.insert(p, header);
}

/// Parses the ancestor headers of a witness and sorts them by number.
pub fn parse_ancestor_headers(headers: &Vec<Vec<u8>>) -> (r: Result<
    Vec<SealedHeader>,
    StatelessValidationError,
>)
    ensures
        match r {
            Ok(v) => {
                &&& all_headers(byte_views(headers@))
                &&& header_views(v@) == sort_by_number(headers_of(byte_views(headers@)))
                &&& hashes_match(v@)
            },
            Err(e) => {
                &&& !all_headers(byte_views(headers@))
                &&& e == StatelessValidationError::HeaderDeserializationFailed
            },
        },
{
    let ghost bytes = byte_views(headers@);
    let mut sorted: Vec<SealedHeader> = Vec::new();
    let mut i: usize = 0;
    proof {
        assert(header_views(sorted@) =~= sort_by_number(headers_of(bytes).take(0)));
    }
    while i < headers.len()
        invariant
            i <= headers.len(),
            bytes == byte_views(headers@),
            forall|j: int| 0 <= j < i ==> decoded_header(#[trigger] bytes[j]) is Some,
            header_views(sorted@) == sort_by_number(headers_of(bytes).take(i as int)),
            hashes_match(sorted@),
        decreases headers.len() - i,
    {
        let encoded: Vec<u8> = headers[i].clone();
        proof {
            assert(encoded@ =~= bytes[i as int]);
        }
        let hash: B256 = keccak256(encoded.as_slice());
        match Header::decode(encoded) {
            Ok(header) => {
                insert_sorted(&mut sorted, SealedHeader { header, hash });
                proof {
                    let all = headers_of(bytes);
                    assert(all.take(i + 1).drop_last() =~= all.take(i as int));
                    assert(all.take(i + 1).last() == header@);
                }
            },
            Err(e) => {
                return Err(e);
            },
        }
        i += 1;
    }
    proof {
        assert(headers_of(bytes).take(i as int) =~= headers_of(bytes));
    }
    Ok(sorted)
}

/// The parent of a block whose witness holds the encoded ancestor headers `s`: the header with the
/// highest number, and of several such the last.
pub open spec fn parent_verdict(s: Seq<Seq<u8>>) -> Result<HeaderView, StatelessValidationError> {
    if !all_headers(s) {
        Err(StatelessValidationError::HeaderDeserializationFailed)
    } else if s.len() == 0 {
        Err(StatelessValidationError::MissingAncestorHeader)
    } else {
        Ok(sort_by_number(headers_of(s)).last())
    }
}

/// The parent that is found is one of the ancestors, and none of them has a higher number.
pub proof fn lemma_parent_is_highest(s: Seq<Seq<u8>>)
    requires
        parent_verdict(s) is Ok,
    ensures
        headers_of(s).contains(parent_verdict(s)->Ok_0),
        forall|i: int|
            0 <= i < s.len() ==> (#[trigger] headers_of(s)[i]).number
                <= parent_verdict(s)->Ok_0.number,
{
    broadcast use vstd::seq_lib::group_to_multiset_ensures;

    let headers = headers_of(s);
    let sorted = sort_by_number(headers);
    lemma_sort_by_number(headers);
    assert(sorted.contains(sorted[sorted.len() - 1]));
    assert(headers.to_multiset().count(sorted.last()) > 0);
    assert forall|i: int| 0 <= i < s.len() implies (#[trigger] headers[i]).number
        <= sorted.last().number by {
        assert(headers.contains(headers[i]));
        assert(sorted.to_multiset().count(headers[i]) > 0);
        let j = choose|j: int| 0 <= j < sorted.len() && sorted[j] == headers[i];
        assert(sorted[j].number <= sorted[sorted.len() - 1].number);
    }
}

/// The ancestors of a block, from its witness, sorted by number. The last is the parent.
pub fn witness_ancestors(headers: &Vec<Vec<u8>>) -> (r: Result<
    Vec<SealedHeader>,
    StatelessValidationError,
>)
    ensures
        match r {
            Ok(v) => {
                &&& v@.len() > 0
                &&& header_views(v@) == sort_by_number(headers_of(byte_views(headers@)))
                &&& hashes_match(v@)
                &&& parent_verdict(byte_views(headers@)) == Ok::<
                    HeaderView,
                    StatelessValidationError,
                >(v@.last().header@)
            },
            Err(e) => parent_verdict(byte_views(headers@)) == Err::<
                HeaderView,
                StatelessValidationError,
            >(e),
        },
{
    match parse_ancestor_headers(headers) {
        Ok(v) => {
            proof {
                lemma_sort_by_number(headers_of(byte_views(headers@)));
            }
            if v.len() == 0 {
                Err(StatelessValidationError::MissingAncestorHeader)
            } else {
                Ok(v)
            }
        },
        Err(e) => Err(e),
    }
}

/// The block hashes that a chain of headers names, keyed by block number: each header names the
/// hash of the one before it, and `child` is the hash that the block after the last one names.
/// Where a number occurs twice, the first header with it decides.
pub open spec fn hashes_by_number(s: Seq<HeaderView>, child: Seq<u8>) -> Map<u64, Seq<u8>>
    decreases s.len(),
{
    if s.len() == 0 {
        Map::empty()
    } else {
        let earlier = hashes_by_number(s.drop_last(), s.last().parent_hash);
        if earlier.contains_key(s.last().number) {
            earlier
        } else {
            earlier.insert(s.last().number, child)
        }
    }
}

/// What a map from block numbers to hashes holds.
pub open spec fn hash_map_view(m: Map<u64, B256>) -> Map<u64, Seq<u8>> {
    m.map_values(|h: B256| h@)
}

/// The order of `u64` is one that a `BTreeMap` can rely on.
proof fn lemma_number_keys()
    ensures
        vstd::laws_cmp::obeys_cmp::<u64>(),
{
    broadcast use vstd::laws_cmp::group_laws_cmp;

}

/// Builds the map of ancestor block hashes: the hash of each ancestor is the one that the next
/// header names as its parent, and `parent_hash` is what the block itself names.
pub fn ancestor_hashes(headers: &[SealedHeader], parent_hash: B256) -> (r: BTreeMap<u64, B256>)
    ensures
        hash_map_view(r@) == hashes_by_number(header_views(headers@), parent_hash@),
{
    proof {
        lemma_number_keys();
    }
    let ghost views = header_views(headers@);
    let ghost all = hashes_by_number(views, parent_hash@);
    let mut hashes: BTreeMap<u64, B256> = BTreeMap::new();
    let mut child: B256 = parent_hash;
    let mut i: usize = headers.len();
    proof {
        assert(views.take(i as int) =~= views);
        assert(hash_map_view(hashes@) =~= Map::empty());
        assert(all =~= hash_map_view(hashes@).union_prefer_right(
            hashes_by_number(views.take(i as int), child@),
        ));
    }
    while i > 0
        invariant
            i <= headers.len(),
            views == header_views(headers@),
            all == hash_map_view(hashes@).union_prefer_right(
                hashes_by_number(views.take(i as int), child@),
            ),
        decreases i,
    {
        proof {
            lemma_number_keys();
        }
        i -= 1;
        let header = &headers[i].header;
        let number: u64 = header.number();
        let ghost before = hashes@;
        let ghost named = child@;
        hashes.insert(number, child);
        child = header.parent_hash();
        proof {
            let t = views.take(i + 1);
            assert(t.drop_last() =~= views.take(i as int));
            assert(t.last() == header@);
            let earlier = hashes_by_number(views.take(i as int), child@);
            assert(hash_map_view(hashes@) =~= hash_map_view(before).insert(number, named));
            assert(hash_map_view(before).union_prefer_right(hashes_by_number(t, named))
                =~= hash_map_view(hashes@).union_prefer_right(earlier));
        }
    }
    proof {
        assert(views.take(0) =~= Seq::empty());
        assert(hash_map_view(hashes@).union_prefer_right(Map::empty()) =~= hash_map_view(hashes@));
    }
    hashes
}

/// Each header names the hash of the one before it as its parent, and their numbers strictly
/// ascend.
pub open spec fn linked(s: Seq<HeaderView>) -> bool {
    &&& forall|i: int|
        #![trigger s[i]]
        0 <= i < s.len() - 1 ==> s[i + 1].parent_hash == s[i].hash()
    &&& forall|i: int, j: int|
        0 <= i < j < s.len() ==> (#[trigger] s[i]).number < (#[trigger] s[j]).number
}

/// In a chain of linked headers under a block that names the last of them as its parent, the hash
/// recorded for a number is the hash of the header with that number.
pub proof fn lemma_linked_hashes(s: Seq<HeaderView>, child: Seq<u8>, i: int)
    requires
        linked(s),
        0 <= i < s.len(),
        child == s.last().hash(),
    ensures
        hashes_by_number(s, child).contains_key(s[i].number),
        hashes_by_number(s, child)[s[i].number] == s[i].hash(),
    decreases s.len(),
{
    let rest = s.drop_last();
    let earlier = hashes_by_number(rest, s.last().parent_hash);
    if i < s.len() - 1 {
        assert(linked(rest)) by {
            assert forall|k: int| #![trigger rest[k]] 0 <= k < rest.len() - 1 implies rest[k
                + 1].parent_hash == rest[k].hash() by {
                assert(s[k + 1].parent_hash == s[k].hash());
            }
        }
        assert(rest.last() == s[s.len() - 2]);
        assert(s[s.len() - 2 + 1].parent_hash == s[s.len() - 2].hash());
        lemma_linked_hashes(rest, s.last().parent_hash, i);
        assert(s[i].number < s[s.len() - 1].number);
    } else {
        lemma_hash_numbers(rest, s.last().parent_hash, s.last().number);
        if earlier.contains_key(s.last().number) {
            let k = choose|k: int|
                0 <= k < rest.len() && (#[trigger] rest[k]).number == s.last().number;
            assert(s[k].number < s[s.len() - 1].number);
        }
    }
}

/// A hash is recorded for a number exactly if an ancestor has it.
pub proof fn lemma_hash_numbers(s: Seq<HeaderView>, child: Seq<u8>, number: u64)
    ensures
        hashes_by_number(s, child).contains_key(number) <==> exists|k: int|
            0 <= k < s.len() && (#[trigger] s[k]).number == number,
    decreases s.len(),
{
    if s.len() > 0 {
        let rest = s.drop_last();
        lemma_hash_numbers(rest, s.last().parent_hash, number);
        if exists|k: int| 0 <= k < s.len() && (#[trigger] s[k]).number == number {
            let k = choose|k: int| 0 <= k < s.len() && (#[trigger] s[k]).number == number;
            if k < s.len() - 1 {
                assert(rest[k].number == number);
            }
        }
        if exists|k: int| 0 <= k < rest.len() && (#[trigger] rest[k]).number == number {
            let k = choose|k: int| 0 <= k < rest.len() && (#[trigger] rest[k]).number == number;
            assert(s[k].number == number);
        }
        assert(s[s.len() - 1] == s.last());
    }
}

/// A header that is read from bytes has the number, the parent hash and the state root that the bytes
/// encode, and its hash is that of the bytes.
pub proof fn lemma_header_of(bytes: Seq<u8>)
    ensures
        decoded_header(bytes) matches Some(fields) ==> {
            &&& HeaderView::of(bytes).number == fields.0
            &&& HeaderView::of(bytes).parent_hash == fields.1
            &&& HeaderView::of(bytes).state_root == fields.2
        },
        HeaderView::of(bytes).encoded == bytes,
        HeaderView::of(bytes).hash() == keccak256_digest(bytes),
{
}

/// Sealed headers whose hashes match hold the hashes of their encodings.
pub proof fn lemma_sealed(s: Seq<SealedHeader>, i: int)
    requires
        hashes_match(s),
        0 <= i < s.len(),
    ensures
        s[i].hash@ == keccak256_digest(s[i].header@.encoded),
        header_views(s).len() == s.len(),
        header_views(s)[i] == s[i].header@,
{
}

/// The headers of byte strings are those that each of them encodes, in order.
pub proof fn lemma_headers_of(s: Seq<Vec<u8>>, i: int)
    requires
        0 <= i < s.len(),
    ensures
        byte_views(s).len() == s.len(),
        byte_views(s)[i] == s[i]@,
        headers_of(byte_views(s)).len() == s.len(),
        headers_of(byte_views(s))[i] == HeaderView::of(s[i]@),
{
}

/// The headers of one number can be picked in parts.
pub proof fn lemma_with_number_parts(
    a: Seq<HeaderView>,
    b: Seq<HeaderView>,
    h: HeaderView,
    n: u64,
)
    ensures
        with_number(a + b, n) == with_number(a, n) + with_number(b, n),
        h.number == n ==> with_number(seq![h], n) == seq![h],
        h.number != n ==> with_number(seq![h], n) == Seq::<HeaderView>::empty(),
    decreases b.len(),
{
    assert(seq![h].drop_last() =~= Seq::empty());
    assert(with_number(Seq::empty(), n) =~= Seq::empty());
    assert(h.number == n ==> with_number(seq![h], n) =~= seq![h]);
    if b.len() == 0 {
        assert(a + b =~= a);
        assert(with_number(a, n) + with_number(b, n) =~= with_number(a, n));
    } else {
        lemma_with_number_parts(a, b.drop_last(), h, n);
        assert((a + b).drop_last() =~= a + b.drop_last());
        assert(with_number(a + b, n) =~= with_number(a, n) + with_number(b, n));
    }
}

/// The last header of a number.
proof fn lemma_with_number_last(s: Seq<HeaderView>, n: u64) -> (i: int)
    requires
        with_number(s, n).len() > 0,
    ensures
        0 <= i < s.len(),
        s[i].number == n,
        with_number(s, n).last() == s[i],
        forall|j: int| i < j < s.len() ==> (#[trigger] s[j]).number != n,
    decreases s.len(),
{
    if s.last().number == n {
        s.len() - 1
    } else {
        let rest = s.drop_last();
        let i = lemma_with_number_last(rest, n);
        assert forall|j: int| i < j < s.len() implies (#[trigger] s[j]).number != n by {
            if j < rest.len() {
                assert(rest[j] == s[j]);
            }
        }
        i
    }
}

/// Sorting gives the same headers in ascending order of their numbers.
pub proof fn lemma_sorted(s: Seq<HeaderView>)
    ensures
        sort_by_number(s).len() == s.len(),
        sort_by_number(s).to_multiset() == s.to_multiset(),
        forall|i: int, j: int|
            0 <= i <= j < s.len() ==> (#[trigger] sort_by_number(s)[i]).number <= (
            #[trigger] sort_by_number(s)[j]).number,
{
    lemma_sort_by_number(s);
}

/// The parent of a block is found exactly if there are ancestor headers and all of them can be read;
/// what stands in the way otherwise is reported. The parent is the ancestor with the highest number,
/// and of several such the one that stands last in the witness.
pub proof fn lemma_parent(s: Seq<Seq<u8>>)
    ensures
        (exists|i: int| 0 <= i < s.len() && decoded_header(#[trigger] s[i]) is None)
            ==> parent_verdict(s) == Err::<HeaderView, StatelessValidationError>(
            StatelessValidationError::HeaderDeserializationFailed,
        ),
        s.len() == 0 ==> parent_verdict(s) == Err::<HeaderView, StatelessValidationError>(
            StatelessValidationError::MissingAncestorHeader,
        ),
        s.len() > 0 && (forall|i: int|
            0 <= i < s.len() ==> decoded_header(#[trigger] s[i]) is Some) ==> parent_verdict(
            s,
        ) is Ok && exists|i: int|
            0 <= i < s.len() && parent_verdict(s)->Ok_0 == HeaderView::of(#[trigger] s[i]) && (
            forall|j: int|
                0 <= j < s.len() ==> HeaderView::of(#[trigger] s[j]).number <= HeaderView::of(
                    s[i],
                ).number) && (forall|j: int|
                i < j < s.len() ==> HeaderView::of(#[trigger] s[j]).number < HeaderView::of(
                    s[i],
                ).number),
{
    if s.len() > 0 && (forall|i: int| 0 <= i < s.len() ==> decoded_header(#[trigger] s[i]) is Some) {
        let headers = headers_of(s);
        let sorted = sort_by_number(headers);
        lemma_sort_by_number(headers);
        lemma_parent_is_highest(s);
        let n = sorted.last().number;
        assert(with_number(sorted, n) == with_number(headers, n));
        assert(with_number(sorted, n).last() == sorted.last());
        let i = lemma_with_number_last(headers, n);
        assert(headers[i] == HeaderView::of(s[i]));
        assert forall|j: int| 0 <= j < s.len() implies HeaderView::of(#[trigger] s[j]).number
            <= HeaderView::of(s[i]).number by {
            assert(headers[j] == HeaderView::of(s[j]));
        }
        assert forall|j: int| i < j < s.len() implies HeaderView::of(#[trigger] s[j]).number
            < HeaderView::of(s[i]).number by {
            assert(headers[j] == HeaderView::of(s[j]));
            assert(headers[j].number != n);
        }
    }
}

/// The hash recorded for a number is the one that the header behind the first header with that number
/// names as its parent, or `child` where that header is the last, whether or not the headers are
/// linked.
pub proof fn lemma_recorded_hash(s: Seq<HeaderView>, child: Seq<u8>, i: int)
    requires
        0 <= i < s.len(),
        forall|j: int| 0 <= j < i ==> (#[trigger] s[j]).number != s[i].number,
    ensures
        hashes_by_number(s, child).contains_key(s[i].number),
        i < s.len() - 1 ==> hashes_by_number(s, child)[s[i].number] == s[i + 1].parent_hash,
        i == s.len() - 1 ==> hashes_by_number(s, child)[s[i].number] == child,
    decreases s.len(),
{
    let rest = s.drop_last();
    let earlier = hashes_by_number(rest, s.last().parent_hash);
    if i < s.len() - 1 {
        assert forall|j: int| 0 <= j < i implies (#[trigger] rest[j]).number != rest[i].number by {
            assert(s[j].number != s[i].number);
        }
        lemma_recorded_hash(rest, s.last().parent_hash, i);
        assert(rest[i] == s[i]);
        if i < rest.len() - 1 {
            assert(rest[i + 1] == s[i + 1]);
        }
    } else {
        lemma_hash_numbers(rest, s.last().parent_hash, s.last().number);
        if earlier.contains_key(s.last().number) {
            let k = choose|k: int|
                0 <= k < rest.len() && (#[trigger] rest[k]).number == s.last().number;
            assert(s[k].number == s[i].number);
        }
    }
}

/// A map of hashes is seen with all its entries.
pub proof fn lemma_hash_map_view(m: Map<u64, B256>, number: u64)
    ensures
        hash_map_view(m).contains_key(number) <==> m.contains_key(number),
        m.contains_key(number) ==> hash_map_view(m)[number] == m[number]@,
{
}

} // verus!
