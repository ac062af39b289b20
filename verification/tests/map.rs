use stateless::map::OrderedMap;
use stateless::primitives::FixedBytes;

fn key(bytes: [u8; 2]) -> FixedBytes<2> {
    FixedBytes { bytes }
}

#[test]
fn keys_are_held_in_order_and_later_values_replace_earlier_ones() {
    let mut map: OrderedMap<2, u32> = OrderedMap::new();
    assert!(map.is_empty());
    for (i, bytes) in [[5, 1], [0, 9], [5, 0], [0, 9], [255, 255], [0, 0]].into_iter().enumerate() {
        map.insert(key(bytes), i as u32);
    }
    assert_eq!(map.len(), 5);
    assert!(!map.is_empty());
    assert_eq!(map.get(&key([0, 9])), Some(&3));
    assert_eq!(map.get(&key([5, 1])), Some(&0));
    assert_eq!(map.get(&key([5, 2])), None);
    assert!(map.contains_key(&key([255, 255])));
    assert!(!map.contains_key(&key([255, 254])));
    let keys: Vec<[u8; 2]> = map.as_slice().iter().map(|(k, _)| k.bytes).collect();
    assert_eq!(keys, vec![[0, 0], [0, 9], [5, 0], [5, 1], [255, 255]]);
    let values: Vec<u32> = map.into_entries().into_iter().map(|(_, v)| v).collect();
    assert_eq!(values, vec![5, 3, 2, 0, 4]);
}

#[test]
fn byte_strings_are_equal_if_their_bytes_are() {
    assert!(key([1, 2]) == key([1, 2]));
    assert!(key([1, 2]) != key([1, 3]));
    assert_eq!(FixedBytes::<3>::zero().bytes, [0, 0, 0]);
}
