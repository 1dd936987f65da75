use rkyv::access::{write_value, RawTable};
use rkyv::arena::Arena;
use rkyv::hash::{hash_value, HashKey};
use rkyv::map::ArchivedHashMap;
use rkyv::ser::Serializer;
use rkyv::string::ArchivedString;

fn number_at(bytes: &[u8], at: usize) -> u64 {
    let mut field = [0u8; 8];
    field.copy_from_slice(&bytes[at..at + 8]);
    u64::from_le_bytes(field)
}

fn archive_of_numbers(pairs: &[(u64, u64)], load_factor: (usize, usize), before: Vec<u8>) -> (Vec<u8>, usize, ArchivedHashMap<u64, u64>) {
    let refs: Vec<(&u64, &u64)> = pairs.iter().map(|pair| (&pair.0, &pair.1)).collect();
    let mut serializer = Serializer::new(before, Arena::new());
    let resolver =
        ArchivedHashMap::<u64, u64>::serialize_from_iter(&refs, load_factor, &mut serializer)
            .unwrap();
    let pos = serializer.writer.len();
    assert!(resolver.fits_at(pos));
    let mut map = ArchivedHashMap::new();
    ArchivedHashMap::resolve_from_len(pairs.len(), load_factor, pos, resolver, &mut map);
    let mut bytes = serializer.into_writer();
    map.write_to(&mut bytes).unwrap();
    (bytes, pos, map)
}

#[test]
fn a_table_is_looked_up_in_its_bytes() {
    let pairs: Vec<(u64, u64)> = (0..50u64).map(|i| (i * 7 + 3, i * 100)).collect();
    let (bytes, pos, map) = archive_of_numbers(&pairs, (2, 3), vec![0xee; 5]);
    assert_eq!(pos, 5);
    let table = RawTable::access(&bytes, pos, 16).unwrap();
    assert_eq!(table.capacity(), 75);
    assert_eq!(table.capacity(), map.capacity());
    assert_eq!(table.len(), 50);
    assert!(!table.is_empty());
    for (key, value) in &pairs {
        let wanted = *key;
        let bucket = table
            .find(hash_value(key), |bytes: &[u8], slot: usize| number_at(bytes, slot) == wanted)
            .unwrap();
        let slot = table.slot(bucket).unwrap();
        assert_eq!(slot, pos + 32 + 75 + bucket * 16);
        assert_eq!(number_at(&bytes, slot), *key);
        assert_eq!(number_at(&bytes, slot + 8), *value);
        assert_eq!(map.get(key), Some(value));
    }
    for absent in [0u64, 1, 2, 4, 1000] {
        assert_eq!(
            table.find(absent.hash_key(), |bytes: &[u8], slot: usize| number_at(bytes, slot)
                == absent),
            None
        );
        assert_eq!(map.get(&absent), None);
    }
}

#[test]
fn the_occupied_buckets_of_the_bytes_are_those_of_the_table() {
    let pairs = vec![(5u64, 50u64), (3, 30), (13, 130), (8, 80)];
    let (bytes, pos, map) = archive_of_numbers(&pairs, (1, 2), Vec::new());
    let table = RawTable::access(&bytes, pos, 16).unwrap();
    let mut seen = Vec::new();
    let mut from = 0;
    while let Some(bucket) = table.next_occupied(from) {
        let slot = table.slot(bucket).unwrap();
        seen.push((number_at(&bytes, slot), number_at(&bytes, slot + 8)));
        from = bucket + 1;
    }
    assert_eq!(table.next_occupied(8), None);
    assert_eq!(table.next_occupied(usize::MAX), None);
    let mut typed = Vec::new();
    let mut entries = map.iter();
    while let Some((key, value)) = entries.next() {
        typed.push((*key, *value));
    }
    assert_eq!(seen, typed);
    assert_eq!(seen, vec![(8, 80), (3, 30), (5, 50), (13, 130)]);
    assert_eq!(table.slot(1), None);
    assert_eq!(table.slot(0), Some(pos + 32 + 8));
}

#[test]
fn a_value_is_written_in_place_in_the_bytes() {
    let pairs = vec![(5u64, 50u64), (13, 130), (21, 210)];
    let (mut bytes, pos, _) = archive_of_numbers(&pairs, (1, 1), Vec::new());
    let slot = {
        let table = RawTable::access(&bytes, pos, 16).unwrap();
        let bucket = table
            .find(13, |bytes: &[u8], slot: usize| number_at(bytes, slot) == 13)
            .unwrap();
        table.slot(bucket).unwrap()
    };
    let bucket = (slot - pos - 32 - 3) / 16;
    assert!(write_value(&mut bytes, pos, 16, bucket, 8, &131u64.to_le_bytes()));
    let table = RawTable::access(&bytes, pos, 16).unwrap();
    for (key, value) in [(5u64, 50u64), (13, 131), (21, 210)] {
        let bucket = table
            .find(key, |bytes: &[u8], slot: usize| number_at(bytes, slot) == key)
            .unwrap();
        assert_eq!(number_at(&bytes, table.slot(bucket).unwrap() + 8), value);
    }
    assert_eq!(table.find(2, |bytes: &[u8], slot: usize| number_at(bytes, slot) == 2), None);
}

#[test]
fn strings_are_found_through_their_offsets() {
    let keys = ["one".to_string(), "three".to_string(), "two".to_string()];
    let values = [1u64, 3, 2];
    let pairs = vec![(&keys[0], &values[0]), (&keys[1], &values[1]), (&keys[2], &values[2])];
    let mut serializer = Serializer::new(Vec::<u8>::new(), Arena::new());
    let resolver = ArchivedHashMap::<ArchivedString, u64>::serialize_from_iter(
        &pairs,
        (3, 4),
        &mut serializer,
    )
    .unwrap();
    let pos = serializer.writer.len();
    let mut map = ArchivedHashMap::new();
    ArchivedHashMap::resolve_from_len(3, (3, 4), pos, resolver, &mut map);
    let mut bytes = serializer.into_writer();
    map.write_to(&mut bytes).unwrap();

    let table = RawTable::access(&bytes, pos, 24).unwrap();
    assert_eq!(table.capacity(), 4);
    assert_eq!(table.len(), 3);
    for (key, value) in [("one", 1u64), ("two", 2), ("three", 3)] {
        let same = |bytes: &[u8], slot: usize| {
            let start = (slot as i64 + number_at(bytes, slot) as i64) as usize;
            let len = number_at(bytes, slot + 8) as usize;
            &bytes[start..start + len] == key.as_bytes()
        };
        let bucket = table.find(hash_value(&key.to_string()), same).unwrap();
        assert_eq!(number_at(&bytes, table.slot(bucket).unwrap() + 16), value);
    }
}

#[test]
fn bytes_that_hold_no_table() {
    assert!(RawTable::access(&[], 0, 8).is_none());
    assert!(RawTable::access(&[0u8; 31], 0, 8).is_none());
    assert!(RawTable::access(&[0u8; 32], 1, 8).is_none());
    assert!(RawTable::access(&[0u8; 32], usize::MAX, 8).is_none());
    // An empty table: every field is zero.
    let empty = [0u8; 32];
    let table = RawTable::access(&empty, 0, 8).unwrap();
    assert_eq!(table.capacity(), 0);
    assert_eq!(table.len(), 0);
    assert!(table.is_empty());
    assert_eq!(table.find(7, |_: &[u8], _: usize| true), None);
    assert_eq!(table.next_occupied(0), None);

    let (bytes, pos, _) = archive_of_numbers(&[(1, 1), (2, 2)], (1, 1), Vec::new());
    assert!(RawTable::access(&bytes, pos, 16).is_some());
    // Slots that are wider than the bytes are long.
    assert!(RawTable::access(&bytes, pos, 17).is_none());
    assert!(RawTable::access(&bytes, pos, usize::MAX).is_none());
    assert!(RawTable::access(&bytes[..bytes.len() - 1], pos, 16).is_none());
    // Narrower slots lie inside the bytes as well.
    assert!(RawTable::access(&bytes, pos, 0).is_some());
    // More items than slots.
    let mut broken = bytes.clone();
    broken[24..32].copy_from_slice(&3u64.to_le_bytes());
    assert!(RawTable::access(&broken, pos, 16).is_none());
    // Control tags outside the bytes.
    let mut broken = bytes.clone();
    broken[0..8].copy_from_slice(&u64::MAX.to_le_bytes());
    assert!(RawTable::access(&broken, pos, 16).is_none());
    let mut broken = bytes.clone();
    broken[0..8].copy_from_slice(&(bytes.len() as u64 - 1).to_le_bytes());
    assert!(RawTable::access(&broken, pos, 16).is_none());
    // Slots outside the bytes.
    let mut broken = bytes.clone();
    broken[8..16].copy_from_slice(&35u64.to_le_bytes());
    assert!(RawTable::access(&broken, pos, 16).is_none());
    let mut broken = bytes.clone();
    broken[8..16].copy_from_slice(&u64::MAX.to_le_bytes());
    assert!(RawTable::access(&broken, pos, 16).is_none());
    // A capacity that the bytes cannot hold.
    let mut broken = bytes.clone();
    broken[16..24].copy_from_slice(&u64::MAX.to_le_bytes());
    assert!(RawTable::access(&broken, pos, 16).is_none());
}

#[test]
fn a_walk_over_bytes_whose_tags_are_all_set_ends() {
    // A header for four slots of eight bytes, every tag set, no slot that
    // any predicate accepts.
    let mut bytes = Vec::new();
    bytes.extend_from_slice(&32u64.to_le_bytes());
    bytes.extend_from_slice(&36u64.to_le_bytes());
    bytes.extend_from_slice(&4u64.to_le_bytes());
    bytes.extend_from_slice(&4u64.to_le_bytes());
    bytes.extend_from_slice(&[1, 1, 0xff, 7]);
    for slot in 0..4u64 {
        bytes.extend_from_slice(&slot.to_le_bytes());
    }
    let table = RawTable::access(&bytes, 0, 8).unwrap();
    assert_eq!(table.find(2, |bytes: &[u8], slot: usize| number_at(bytes, slot) == 9), None);
    assert_eq!(table.find(2, |bytes: &[u8], slot: usize| number_at(bytes, slot) == 1), Some(1));
    assert_eq!(table.find(3, |_: &[u8], _: usize| true), Some(3));
    assert_eq!(table.next_occupied(0), Some(0));
    assert_eq!(table.next_occupied(3), Some(3));
}

#[test]
fn writes_that_are_refused_change_nothing() {
    let pairs = vec![(5u64, 50u64), (13, 130)];
    let (bytes, pos, _) = archive_of_numbers(&pairs, (1, 2), vec![7u8; 4]);
    assert_eq!(pos, 4);
    let table = RawTable::access(&bytes, pos, 16).unwrap();
    assert_eq!(table.capacity(), 4);
    let occupied = table.next_occupied(0).unwrap();
    let empty = (0..4).find(|bucket| table.slot(*bucket).is_none()).unwrap();
    let mut copy = bytes.clone();
    // An empty slot, a bucket outside the table, a value that leaves the
    // slot, bytes that hold no table.
    assert!(!write_value(&mut copy, pos, 16, empty, 8, &[1; 8]));
    assert!(!write_value(&mut copy, pos, 16, 4, 8, &[1; 8]));
    assert!(!write_value(&mut copy, pos, 16, usize::MAX, 8, &[1; 8]));
    assert!(!write_value(&mut copy, pos, 16, occupied, 9, &[1; 8]));
    assert!(!write_value(&mut copy, pos, 16, occupied, 17, &[]));
    assert!(!write_value(&mut copy, pos, 16, occupied, usize::MAX, &[1]));
    assert!(!write_value(&mut copy, pos, 17, occupied, 8, &[1; 8]));
    assert!(!write_value(&mut copy, pos + 1, 16, occupied, 8, &[1; 8]));
    assert!(!write_value(&mut copy[..10], 0, 16, 0, 0, &[1]));
    assert_eq!(copy, bytes);
    // A write of nothing and a write of the whole value.
    assert!(write_value(&mut copy, pos, 16, occupied, 16, &[]));
    assert!(write_value(&mut copy, pos, 16, occupied, 0, &[]));
    assert_eq!(copy, bytes);
    assert!(write_value(&mut copy, pos, 16, occupied, 8, &[0xab; 8]));
    let slot = pos + 32 + 4 + occupied * 16;
    assert_eq!(&copy[slot + 8..slot + 16], &[0xab; 8]);
    assert_eq!(&copy[..slot + 8], &bytes[..slot + 8]);
    assert_eq!(&copy[slot + 16..], &bytes[slot + 16..]);
}

#[test]
fn a_slot_that_lies_over_the_table_is_not_written_to() {
    // A header that puts its one slot over its own control tag.
    let mut bytes = Vec::new();
    bytes.extend_from_slice(&32u64.to_le_bytes());
    bytes.extend_from_slice(&32u64.to_le_bytes());
    bytes.extend_from_slice(&1u64.to_le_bytes());
    bytes.extend_from_slice(&1u64.to_le_bytes());
    bytes.extend_from_slice(&[1, 2, 3, 4]);
    let before = bytes.clone();
    assert!(RawTable::access(&bytes, 0, 4).is_some());
    assert!(!write_value(&mut bytes, 0, 4, 0, 1, &[9]));
    // A slot over the header.
    bytes[8..16].copy_from_slice(&30u64.to_le_bytes());
    let before_header = bytes.clone();
    assert!(!write_value(&mut bytes, 0, 4, 0, 3, &[9]));
    assert_eq!(bytes, before_header);
    // The same slot behind the control tag is written to.
    bytes[8..16].copy_from_slice(&33u64.to_le_bytes());
    bytes.push(5);
    assert!(write_value(&mut bytes, 0, 4, 0, 3, &[9]));
    assert_eq!(&bytes[32..], &[1, 2, 3, 4, 9]);
    assert_eq!(&before[32..], &[1, 2, 3, 4]);
}
