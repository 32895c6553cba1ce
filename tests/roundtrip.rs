use ordered_codec::error::CodecError;
use ordered_codec::field::Nothing;
use ordered_codec::guard::check_zst;
use ordered_codec::map::OrderedMap;
use ordered_codec::set::OrderedSet;

#[test]
fn map_borsh_roundtrip() {
    let original_map: OrderedMap<i32, i32> = {
        let mut map = OrderedMap::new();
        map.insert(1, 2);
        map.insert(3, 4);
        map.insert(5, 6);
        map
    };
    let serialized_map = original_map.to_bytes().unwrap();
    let deserialized_map: OrderedMap<i32, i32> =
        OrderedMap::try_from_slice(&serialized_map).unwrap();
    assert_eq!(original_map.to_vec(), deserialized_map.to_vec());
}

#[test]
fn set_borsh_roundtrip() {
    let mut original_map: OrderedSet<i32> = OrderedSet::new();
    for x in [1, 2, 3, 4, 5, 6] {
        original_map.insert(x);
    }
    let serialized_map = original_map.to_bytes().unwrap();
    let deserialized_map: OrderedSet<i32> = OrderedSet::try_from_slice(&serialized_map).unwrap();
    assert_eq!(original_map.to_vec(), deserialized_map.to_vec());
}

#[test]
fn map_encodes_in_insertion_order() {
    let mut map: OrderedMap<i32, i32> = OrderedMap::new();
    map.insert(1, 2);
    map.insert(3, 4);
    map.insert(5, 6);
    let bytes = map.to_bytes().unwrap();
    assert_eq!(
        bytes,
        vec![
            3, 0, 0, 0, 1, 0, 0, 0, 2, 0, 0, 0, 3, 0, 0, 0, 4, 0, 0, 0, 5, 0, 0, 0, 6, 0, 0, 0
        ]
    );
    let back: OrderedMap<i32, i32> = OrderedMap::try_from_slice(&bytes).unwrap();
    assert_eq!(back.to_vec(), vec![(1, 2), (3, 4), (5, 6)]);
}

#[test]
fn map_keeps_unsorted_insertion_order() {
    let mut map: OrderedMap<i32, i32> = OrderedMap::new();
    map.insert(5, 6);
    map.insert(1, 2);
    map.insert(3, 4);
    let bytes = map.to_bytes().unwrap();
    let back: OrderedMap<i32, i32> = OrderedMap::try_from_slice(&bytes).unwrap();
    assert_eq!(back.to_vec(), vec![(5, 6), (1, 2), (3, 4)]);
    assert_eq!(&bytes[0..8], &[3, 0, 0, 0, 5, 0, 0, 0]);
}

#[test]
fn set_canonical_bytes_ignore_insertion_order() {
    let expected: Vec<u8> = vec![
        6, 0, 0, 0, 1, 0, 0, 0, 2, 0, 0, 0, 3, 0, 0, 0, 4, 0, 0, 0, 5, 0, 0, 0, 6, 0, 0, 0,
    ];
    for order in [[1, 2, 3, 4, 5, 6], [6, 5, 4, 3, 2, 1], [3, 1, 6, 2, 5, 4], [2, 4, 6, 1, 3, 5]] {
        let mut set: OrderedSet<i32> = OrderedSet::new();
        for x in order {
            set.insert(x);
        }
        assert_eq!(set.to_canonical_bytes().unwrap(), expected);
        let back: OrderedSet<i32> = OrderedSet::try_from_slice(&expected).unwrap();
        assert_eq!(back.to_vec(), vec![1, 2, 3, 4, 5, 6]);
    }
}

#[test]
fn set_canonical_collapses_repeats() {
    let mut a: OrderedSet<u32> = OrderedSet::new();
    for x in [7, 3, 7, 3, 9] {
        a.insert(x);
    }
    let mut b: OrderedSet<u32> = OrderedSet::new();
    for x in [9, 3, 7] {
        b.insert(x);
    }
    assert_eq!(a.len(), 3);
    assert_eq!(a.to_canonical_bytes().unwrap(), b.to_canonical_bytes().unwrap());
    assert_eq!(
        a.to_canonical_bytes().unwrap(),
        vec![3, 0, 0, 0, 3, 0, 0, 0, 7, 0, 0, 0, 9, 0, 0, 0]
    );
    assert_ne!(a.to_bytes().unwrap(), b.to_bytes().unwrap());
}

#[test]
fn map_canonical_sorts_by_key() {
    let mut a: OrderedMap<i32, u8> = OrderedMap::new();
    a.insert(5, 50);
    a.insert(-1, 10);
    a.insert(3, 30);
    let mut b: OrderedMap<i32, u8> = OrderedMap::new();
    b.insert(3, 30);
    b.insert(5, 50);
    b.insert(-1, 10);
    let bytes = a.to_canonical_bytes().unwrap();
    assert_eq!(bytes, b.to_canonical_bytes().unwrap());
    assert_eq!(
        bytes,
        vec![3, 0, 0, 0, 0xff, 0xff, 0xff, 0xff, 10, 3, 0, 0, 0, 30, 5, 0, 0, 0, 50]
    );
}

#[test]
fn canonical_stream_reencodes_identically() {
    let mut m: OrderedMap<u64, i32> = OrderedMap::new();
    m.insert(40, -4);
    m.insert(10, -1);
    m.insert(20, -2);
    let bytes = m.to_canonical_bytes().unwrap();
    let back: OrderedMap<u64, i32> = OrderedMap::try_from_slice(&bytes).unwrap();
    assert_eq!(back.to_vec(), vec![(10, -1), (20, -2), (40, -4)]);
    assert_eq!(back.to_canonical_bytes().unwrap(), bytes);
    assert_eq!(back.to_bytes().unwrap(), bytes);
}

#[test]
fn empty_containers_are_four_zero_bytes() {
    let map: OrderedMap<i32, i32> = OrderedMap::new();
    let bytes = map.to_bytes().unwrap();
    assert_eq!(bytes, vec![0, 0, 0, 0]);
    let back: OrderedMap<i32, i32> = OrderedMap::try_from_slice(&bytes).unwrap();
    assert_eq!(back.len(), 0);
    assert!(back.is_empty());
    let set: OrderedSet<u8> = OrderedSet::new();
    assert_eq!(set.to_bytes().unwrap(), vec![0, 0, 0, 0]);
    assert_eq!(set.to_canonical_bytes().unwrap(), vec![0, 0, 0, 0]);
    let back: OrderedSet<u8> = OrderedSet::try_from_slice(&[0, 0, 0, 0]).unwrap();
    assert_eq!(back.len(), 0);
}

#[test]
fn count_is_kept() {
    let mut map: OrderedMap<u32, u32> = OrderedMap::new();
    for i in 0..100u32 {
        map.insert(i * 7 % 101, i);
    }
    let back: OrderedMap<u32, u32> = OrderedMap::try_from_slice(&map.to_bytes().unwrap()).unwrap();
    assert_eq!(back.len(), map.len());
    assert_eq!(back.len(), 100);
}

#[test]
fn duplicate_key_takes_later_value() {
    let bytes: Vec<u8> = vec![2, 0, 0, 0, 1, 0, 0, 0, 10, 0, 0, 0, 1, 0, 0, 0, 20, 0, 0, 0];
    let map: OrderedMap<i32, i32> = OrderedMap::try_from_slice(&bytes).unwrap();
    assert_eq!(map.len(), 1);
    assert_eq!(map.get(&1), Some(20));
    assert_eq!(map.to_vec(), vec![(1, 20)]);
}

#[test]
fn duplicate_key_keeps_first_position() {
    let bytes: Vec<u8> = vec![3, 0, 0, 0, 1, 10, 2, 20, 1, 30];
    let map: OrderedMap<u8, u8> = OrderedMap::try_from_slice(&bytes).unwrap();
    assert_eq!(map.to_vec(), vec![(1, 30), (2, 20)]);
}

#[test]
fn duplicate_set_element_collapses() {
    let bytes: Vec<u8> = vec![3, 0, 0, 0, 5, 4, 5];
    let set: OrderedSet<u8> = OrderedSet::try_from_slice(&bytes).unwrap();
    assert_eq!(set.to_vec(), vec![5, 4]);
}

#[test]
fn zero_sized_keys_are_rejected() {
    let mut map: OrderedMap<Nothing, u8> = OrderedMap::new();
    map.insert(Nothing, 1);
    let mut out: Vec<u8> = vec![9];
    assert_eq!(map.serialize(&mut out), Err(CodecError::ZeroSizedKeyRejected));
    assert_eq!(out, vec![9]);
    assert_eq!(map.to_canonical_bytes().err(), Some(CodecError::ZeroSizedKeyRejected));
    let decoded = OrderedMap::<Nothing, u8>::try_from_slice(&[1, 0, 0, 0, 1]);
    assert_eq!(decoded.err(), Some(CodecError::ZeroSizedKeyRejected));

    let mut set: OrderedSet<Nothing> = OrderedSet::new();
    set.insert(Nothing);
    let mut out: Vec<u8> = Vec::new();
    assert_eq!(set.serialize(&mut out), Err(CodecError::ZeroSizedKeyRejected));
    assert!(out.is_empty());
    assert_eq!(set.to_canonical_bytes().err(), Some(CodecError::ZeroSizedKeyRejected));
    let decoded = OrderedSet::<Nothing>::try_from_slice(&[0, 0, 0, 0]);
    assert_eq!(decoded.err(), Some(CodecError::ZeroSizedKeyRejected));
}

#[test]
fn zero_sized_values_are_allowed() {
    let mut map: OrderedMap<u8, Nothing> = OrderedMap::new();
    map.insert(4, Nothing);
    map.insert(2, Nothing);
    let bytes = map.to_bytes().unwrap();
    assert_eq!(bytes, vec![2, 0, 0, 0, 4, 2]);
    let back: OrderedMap<u8, Nothing> = OrderedMap::try_from_slice(&bytes).unwrap();
    assert_eq!(back.to_vec(), vec![(4, Nothing), (2, Nothing)]);
}

#[test]
fn truncated_stream_fails() {
    let bytes: Vec<u8> = vec![2, 0, 0, 0, 1, 0, 0, 0, 2, 0, 0, 0, 3, 0];
    let r = OrderedMap::<i32, i32>::try_from_slice(&bytes);
    assert_eq!(r.err(), Some(CodecError::UnexpectedEnd));
    let r = OrderedSet::<u32>::try_from_slice(&[1, 0]);
    assert_eq!(r.err(), Some(CodecError::UnexpectedEnd));
    let r = OrderedSet::<u32>::try_from_slice(&[]);
    assert_eq!(r.err(), Some(CodecError::UnexpectedEnd));
}

#[test]
fn trailing_bytes_fail_whole_slice_read() {
    let bytes: Vec<u8> = vec![1, 0, 0, 0, 7, 99];
    let r = OrderedSet::<u8>::try_from_slice(&bytes);
    assert_eq!(r.err(), Some(CodecError::TrailingBytes));
    let (set, next) = OrderedSet::<u8>::deserialize_reader(&bytes, 0).unwrap();
    assert_eq!(set.to_vec(), vec![7]);
    assert_eq!(next, 5);
}

#[test]
fn reader_starts_at_position() {
    let mut out: Vec<u8> = vec![0xaa, 0xbb];
    let mut map: OrderedMap<u64, u8> = OrderedMap::new();
    map.insert(0x0102030405060708, 3);
    map.serialize(&mut out).unwrap();
    assert_eq!(out, vec![0xaa, 0xbb, 1, 0, 0, 0, 8, 7, 6, 5, 4, 3, 2, 1, 3]);
    let (back, next) = OrderedMap::<u64, u8>::deserialize_reader(&out, 2).unwrap();
    assert_eq!(next, out.len());
    assert_eq!(back.to_vec(), vec![(0x0102030405060708, 3)]);
}

#[test]
fn insert_replaces_value_in_place() {
    let mut map: OrderedMap<i32, i32> = OrderedMap::new();
    assert_eq!(map.insert(1, 2), None);
    assert_eq!(map.insert(3, 4), None);
    assert_eq!(map.insert(1, 5), Some(2));
    assert_eq!(map.to_vec(), vec![(1, 5), (3, 4)]);
    assert_eq!(map.get_index_of(&3), Some(1));
    assert_eq!(map.get_index(0), Some((1, 5)));
    assert_eq!(map.get_index(2), None);
    assert!(map.contains_key(&3));
    assert!(!map.contains_key(&4));
    assert_eq!(map.get(&4), None);

    let mut set: OrderedSet<i32> = OrderedSet::new();
    assert!(set.insert(8));
    assert!(!set.insert(8));
    assert!(set.contains(&8));
    assert_eq!(set.get_index(0), Some(8));
    assert_eq!(set.get_index(1), None);
}

#[test]
fn negative_numbers_use_twos_complement() {
    let mut set: OrderedSet<i32> = OrderedSet::new();
    set.insert(-2);
    set.insert(i32::MIN);
    let bytes = set.to_canonical_bytes().unwrap();
    assert_eq!(bytes, vec![2, 0, 0, 0, 0, 0, 0, 0x80, 0xfe, 0xff, 0xff, 0xff]);
    let back = OrderedSet::<i32>::try_from_slice(&bytes).unwrap();
    assert_eq!(back.to_vec(), vec![i32::MIN, -2]);
}

#[test]
fn zero_size_guard_reports_type_size() {
    assert_eq!(check_zst::<Nothing>(), Err(CodecError::ZeroSizedKeyRejected));
    assert_eq!(check_zst::<u8>(), Ok(()));
    assert_eq!(check_zst::<i32>(), Ok(()));
}
