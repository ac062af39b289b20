use stateless::error::StatelessValidationError;
use stateless::header::{
    ancestor_hashes, parse_ancestor_headers, witness_ancestors, Header, SealedHeader,
};
use stateless::primitives::{FixedBytes, B256};

fn outside_header(number: u64, parent: alloy_primitives::B256, extra: u8) -> alloy_consensus::Header {
    alloy_consensus::Header {
        number,
        parent_hash: parent,
        state_root: alloy_primitives::B256::repeat_byte(extra),
        ..Default::default()
    }
}

fn encoded(number: u64, extra: u8) -> Vec<u8> {
    alloy_rlp::encode(outside_header(number, alloy_primitives::B256::repeat_byte(0x11), extra))
}

#[test]
fn a_header_is_decoded_with_its_hash() {
    let outside = outside_header(77, alloy_primitives::B256::repeat_byte(0x22), 0x33);
    let header = Header::decode(alloy_rlp::encode(&outside)).unwrap();
    assert_eq!(header.number(), 77);
    assert_eq!(header.parent_hash().bytes, [0x22; 32]);
    assert_eq!(header.state_root().bytes, [0x33; 32]);
    assert_eq!(header.hash_slow().bytes, outside.hash_slow().0);
    assert_eq!(header.clone().hash_slow().bytes, outside.hash_slow().0);
}

#[test]
fn bytes_that_are_no_header_are_refused() {
    let refused = Some(StatelessValidationError::HeaderDeserializationFailed);
    assert_eq!(Header::decode(vec![]).err(), refused);
    assert_eq!(Header::decode(vec![0xc0]).err(), refused);
    let mut trailing = encoded(1, 1);
    trailing.push(0);
    assert_eq!(Header::decode(trailing).err(), refused);
}

fn numbers(headers: &[SealedHeader]) -> Vec<(u64, u8)> {
    headers.iter().map(|h| (h.header.number(), h.header.state_root().bytes[0])).collect()
}

#[test]
fn ancestors_are_sorted_by_number_and_keep_their_order() {
    let witness = vec![encoded(5, 1), encoded(3, 2), encoded(5, 3), encoded(4, 4), encoded(3, 5)];
    let sorted = parse_ancestor_headers(&witness).unwrap();
    assert_eq!(numbers(&sorted), vec![(3, 2), (3, 5), (4, 4), (5, 1), (5, 3)]);
    for ancestor in &sorted {
        assert_eq!(ancestor.hash, ancestor.header.hash_slow());
    }
    assert_eq!(sorted[0].hash.bytes, alloy_primitives::keccak256(encoded(3, 2)).0);
}

#[test]
fn one_bad_header_spoils_the_witness() {
    let witness = vec![encoded(5, 1), vec![1, 2, 3], encoded(3, 2)];
    assert_eq!(
        parse_ancestor_headers(&witness).err(),
        Some(StatelessValidationError::HeaderDeserializationFailed)
    );
}

#[test]
fn a_witness_without_headers_has_no_parent() {
    assert!(parse_ancestor_headers(&vec![]).unwrap().is_empty());
    assert_eq!(
        witness_ancestors(&vec![]).err(),
        Some(StatelessValidationError::MissingAncestorHeader)
    );
    let ancestors = witness_ancestors(&vec![encoded(8, 1), encoded(2, 2)]).unwrap();
    assert_eq!(numbers(&ancestors), vec![(2, 2), (8, 1)]);
}

fn b256(byte: u8) -> B256 {
    FixedBytes { bytes: [byte; 32] }
}

#[test]
fn each_ancestor_gets_the_hash_that_its_child_names() {
    let ancestors = witness_ancestors(&vec![encoded(8, 1), encoded(7, 2)]).unwrap();
    let hashes = ancestor_hashes(&ancestors, b256(0x99));
    assert_eq!(hashes.len(), 2);
    assert_eq!(hashes.get(&8), Some(&b256(0x99)));
    assert_eq!(hashes.get(&7), Some(&b256(0x11)));
    assert!(ancestor_hashes(&[], b256(1)).is_empty());
}

#[test]
fn of_two_ancestors_with_one_number_the_first_decides() {
    let first = alloy_rlp::encode(outside_header(7, alloy_primitives::B256::repeat_byte(0xa1), 1));
    let second = alloy_rlp::encode(outside_header(7, alloy_primitives::B256::repeat_byte(0xa2), 2));
    let ancestors = witness_ancestors(&vec![first, second]).unwrap();
    let hashes = ancestor_hashes(&ancestors, b256(0x99));
    assert_eq!(hashes.len(), 1);
    assert_eq!(hashes.get(&7), Some(&b256(0xa2)));
}

#[test]
fn a_linked_chain_gives_the_hash_of_each_header() {
    let grandparent = outside_header(10, alloy_primitives::B256::ZERO, 1);
    let parent = outside_header(11, grandparent.hash_slow(), 2);
    let child = outside_header(12, parent.hash_slow(), 3);
    let witness = vec![
        alloy_rlp::encode(&child),
        alloy_rlp::encode(&grandparent),
        alloy_rlp::encode(&parent),
    ];
    let ancestors = witness_ancestors(&witness).unwrap();
    let hashes =
        ancestor_hashes(&ancestors, FixedBytes { bytes: child.hash_slow().0 });
    for ancestor in &ancestors {
        assert_eq!(hashes.get(&ancestor.header.number()), Some(&ancestor.hash));
    }
}
