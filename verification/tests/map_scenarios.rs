use rkyv::arena::Arena;
use rkyv::map::ArchivedHashMap;
use rkyv::ser::{ArchiveError, Serializer};
use rkyv::string::ArchivedString;

fn build_strings(
    pairs: &[(&String, &u64)],
    load_factor: (usize, usize),
) -> ArchivedHashMap<ArchivedString, u64> {
    let mut serializer = Serializer::new(Vec::<u8>::new(), Arena::new());
    let resolver = ArchivedHashMap::<ArchivedString, u64>::serialize_from_iter(
        pairs,
        load_factor,
        &mut serializer,
    )
    .unwrap();
    assert_eq!(resolver.len(), pairs.len());
    let pos = serializer.writer.len();
    assert!(resolver.fits_at(pos));
    let mut map = ArchivedHashMap::new();
    ArchivedHashMap::resolve_from_len(pairs.len(), load_factor, pos, resolver, &mut map);
    map
}

fn build_numbers(pairs: &[(u64, u64)], load_factor: (usize, usize)) -> ArchivedHashMap<u64, u64> {
    let refs: Vec<(&u64, &u64)> = pairs.iter().map(|pair| (&pair.0, &pair.1)).collect();
    let mut serializer = Serializer::new(Vec::<u8>::new(), Arena::new());
    let resolver =
        ArchivedHashMap::<u64, u64>::serialize_from_iter(&refs, load_factor, &mut serializer)
            .unwrap();
    assert!(resolver.fits_at(0));
    let mut map = ArchivedHashMap::new();
    ArchivedHashMap::resolve_from_len(pairs.len(), load_factor, 0, resolver, &mut map);
    map
}

#[test]
fn three_pairs_at_full_load() {
    let keys = ["a".to_string(), "b".to_string(), "c".to_string()];
    let values = [1u64, 2, 3];
    let pairs = vec![(&keys[0], &values[0]), (&keys[1], &values[1]), (&keys[2], &values[2])];
    let map = build_strings(&pairs, (1, 1));
    assert!(map.capacity() >= 3);
    assert_eq!(map.capacity(), 3);
    assert_eq!(map.len(), 3);
    assert!(!map.is_empty());
    assert_eq!(map.get(&"b".to_string()), Some(&2));
    assert_eq!(map.get(&"a".to_string()), Some(&1));
    assert_eq!(map.get(&"c".to_string()), Some(&3));
    assert_eq!(map.get(&"z".to_string()), None);
    assert!(map.contains_key(&"c".to_string()));
    assert!(!map.contains_key(&"z".to_string()));
    assert_eq!(*map.index(&"b".to_string()), 2);

    let mut seen = Vec::new();
    let mut entries = map.iter();
    assert_eq!(entries.len(), 3);
    while let Some((key, value)) = entries.next() {
        seen.push((key.as_str().to_string(), *value));
    }
    assert_eq!(entries.len(), 0);
    assert!(entries.next().is_none());
    seen.sort();
    assert_eq!(seen, vec![("a".to_string(), 1), ("b".to_string(), 2), ("c".to_string(), 3)]);
}

#[test]
fn no_pairs() {
    let pairs: Vec<(&String, &u64)> = Vec::new();
    let map = build_strings(&pairs, (1, 1));
    assert_eq!(map.capacity(), 0);
    assert_eq!(map.len(), 0);
    assert!(map.is_empty());
    assert_eq!(map.get(&"a".to_string()), None);
    let mut entries = map.iter();
    assert_eq!(entries.len(), 0);
    assert!(entries.next().is_none());
}

#[test]
fn every_key_is_found_with_its_value() {
    // Keys that collide: all are multiples of the capacity plus small rests.
    let mut pairs = Vec::new();
    for i in 0..40u64 {
        pairs.push((i * 64 + (i % 3), i * 10));
    }
    let map = build_numbers(&pairs, (3, 4));
    assert_eq!(map.len(), 40);
    assert_eq!(map.capacity(), 54);
    for (key, value) in &pairs {
        assert_eq!(map.get(key), Some(value));
        let (found_key, found_value) = map.get_key_value(key).unwrap();
        assert_eq!(found_key, key);
        assert_eq!(found_value, value);
    }
    for absent in [1u64, 5, 63, 64, 4000, u64::MAX] {
        assert_eq!(map.get(&absent), None);
        assert!(!map.contains_key(&absent));
    }
}

#[test]
fn a_full_table_misses_after_a_whole_walk() {
    let pairs: Vec<(u64, u64)> = (0..8u64).map(|i| (i * 8, i)).collect();
    let map = build_numbers(&pairs, (1, 1));
    assert_eq!(map.capacity(), 8);
    assert_eq!(map.len(), 8);
    for (key, value) in &pairs {
        assert_eq!(map.get(key), Some(value));
    }
    assert_eq!(map.get(&3), None);
    assert_eq!(map.get(&128), None);
}

#[test]
fn a_repeated_key_finds_the_entry_that_came_first() {
    let pairs = vec![(7u64, 1u64), (9, 2), (7, 3), (7, 4), (9, 5)];
    let map = build_numbers(&pairs, (1, 2));
    assert_eq!(map.len(), 5);
    assert_eq!(map.capacity(), 10);
    for _ in 0..3 {
        assert_eq!(map.get(&7), Some(&1));
        assert_eq!(map.get(&9), Some(&2));
    }
    let mut values: Vec<u64> = Vec::new();
    let mut cursor = map.values();
    while let Some(value) = cursor.next() {
        values.push(*value);
    }
    values.sort();
    assert_eq!(values, vec![1, 2, 3, 4, 5]);
}

#[test]
fn writing_a_value_changes_no_lookup() {
    let pairs = vec![(1u64, 10u64), (17, 20), (33, 30), (2, 40)];
    let mut map = build_numbers(&pairs, (1, 1));
    *map.get_mut(&17).unwrap() = 21;
    assert_eq!(map.get(&17), Some(&21));
    assert_eq!(map.get(&1), Some(&10));
    assert_eq!(map.get(&33), Some(&30));
    assert_eq!(map.get(&2), Some(&40));
    assert_eq!(map.get(&3), None);
    assert_eq!(map.len(), 4);

    let (key, value) = map.get_key_value_mut(&33).unwrap();
    assert_eq!(*key, 33);
    *value += 1;
    assert_eq!(map.get(&33), Some(&31));
    assert!(map.get_mut(&99).is_none());
    assert!(map.get_key_value_mut(&99).is_none());
}

#[test]
fn lookups_with_a_comparison_of_the_callers() {
    let keys = ["left".to_string(), "right".to_string()];
    let values = [1u64, 2];
    let pairs = vec![(&keys[0], &values[0]), (&keys[1], &values[1])];
    let mut map = build_strings(&pairs, (1, 2));
    let same = |asked: &String, stored: &ArchivedString| asked.as_str() == stored.as_str();
    assert_eq!(map.get_with(&"left".to_string(), same), Some(&1));
    assert_eq!(map.get_with(&"up".to_string(), same), None);
    let (key, value) = map.get_key_value_with(&"right".to_string(), same).unwrap();
    assert_eq!(key.as_str(), "right");
    assert_eq!(*value, 2);
    // A comparison that accepts nothing finds nothing.
    assert_eq!(map.get_with(&"left".to_string(), |_: &String, _: &ArchivedString| false), None);

    *map.get_mut_with(&"left".to_string(), same).unwrap() = 5;
    assert_eq!(map.get(&"left".to_string()), Some(&5));
    let (key, value) = map.get_key_value_mut_with(&"right".to_string(), same).unwrap();
    assert_eq!(key.as_str(), "right");
    *value = 6;
    assert_eq!(map.get(&"right".to_string()), Some(&6));
    assert!(map.get_mut_with(&"up".to_string(), same).is_none());
}

#[test]
fn iteration_visits_every_entry_once_in_bucket_order() {
    let pairs = vec![(5u64, 50u64), (3, 30), (13, 130), (8, 80)];
    let map = build_numbers(&pairs, (1, 2));
    assert_eq!(map.capacity(), 8);
    // Homes: 5, 3, 13 % 8 = 5 -> 6, 8 % 8 = 0.
    let mut first = Vec::new();
    let mut entries = map.iter();
    let mut left = entries.len();
    assert_eq!(left, map.len());
    while let Some((key, value)) = entries.next() {
        left -= 1;
        assert_eq!(entries.len(), left);
        first.push((*key, *value));
    }
    assert_eq!(first, vec![(8, 80), (3, 30), (5, 50), (13, 130)]);

    let mut second = Vec::new();
    let mut entries = map.iter();
    while let Some((key, value)) = entries.next() {
        second.push((*key, *value));
    }
    assert_eq!(first, second);

    let mut keys = Vec::new();
    let mut cursor = map.keys();
    assert_eq!(cursor.len(), 4);
    while let Some(key) = cursor.next() {
        keys.push(*key);
    }
    assert_eq!(keys, vec![8, 3, 5, 13]);

    let mut values = Vec::new();
    let mut cursor = map.values();
    assert_eq!(cursor.len(), 4);
    while let Some(value) = cursor.next() {
        values.push(*value);
    }
    assert_eq!(values, vec![80, 30, 50, 130]);
}

#[test]
fn cursors_that_write() {
    let pairs = vec![(5u64, 50u64), (3, 30), (13, 130)];
    let mut map = build_numbers(&pairs, (1, 2));
    {
        let mut entries = map.iter_mut();
        assert_eq!(entries.len(), 3);
        while let Some((key, value)) = entries.next() {
            *value += *key;
        }
        assert_eq!(entries.len(), 0);
    }
    assert_eq!(map.get(&5), Some(&55));
    assert_eq!(map.get(&3), Some(&33));
    assert_eq!(map.get(&13), Some(&143));
    {
        let mut values = map.values_mut();
        assert_eq!(values.len(), 3);
        while let Some(value) = values.next() {
            *value = 0;
        }
    }
    assert_eq!(map.get(&5), Some(&0));
    assert_eq!(map.get(&3), Some(&0));
    assert_eq!(map.get(&13), Some(&0));
    assert_eq!(map.len(), 3);
}

#[test]
fn maps_are_equal_whatever_the_order() {
    let one = build_numbers(&[(1, 10), (2, 20), (3, 30)], (1, 1));
    let other = build_numbers(&[(3, 30), (1, 10), (2, 20)], (1, 4));
    assert!(one.eq(&other));
    assert!(other.eq(&one));
    let shorter = build_numbers(&[(1, 10), (2, 20)], (1, 1));
    assert!(!one.eq(&shorter));
    assert!(!shorter.eq(&one));
    let differs = build_numbers(&[(1, 10), (2, 21), (3, 30)], (1, 1));
    assert!(!one.eq(&differs));
    let other_keys = build_numbers(&[(1, 10), (2, 20), (4, 30)], (1, 1));
    assert!(!one.eq(&other_keys));
    let empty = build_numbers(&[], (1, 1));
    assert!(empty.eq(&build_numbers(&[], (1, 2))));
}

#[test]
fn load_factors_that_are_refused() {
    let key = 1u64;
    let value = 2u64;
    let pairs = vec![(&key, &value)];
    for load_factor in [(0usize, 1usize), (0, 0), (2, 1), (1, 0), (usize::MAX, 1)] {
        let mut serializer = Serializer::new(Vec::<u8>::new(), Arena::new());
        let done =
            ArchivedHashMap::<u64, u64>::serialize_from_iter(&pairs, load_factor, &mut serializer);
        assert!(matches!(done, Err(ArchiveError::InvalidLoadFactor)));
        assert!(serializer.writer.is_empty());
    }
    let mut serializer = Serializer::new(Vec::<u8>::new(), Arena::new());
    let done = ArchivedHashMap::<u64, u64>::serialize_from_iter(
        &pairs,
        (usize::MAX, usize::MAX),
        &mut serializer,
    );
    assert_eq!(done.unwrap().capacity(), 1);
}

#[test]
fn keys_are_written_out_of_line_in_order() {
    let keys = ["ab".to_string(), "cde".to_string()];
    let values = [1u64, 2];
    let pairs = vec![(&keys[0], &values[0]), (&keys[1], &values[1])];
    let mut serializer = Serializer::new(vec![9u8], Arena::new());
    let resolver = ArchivedHashMap::<ArchivedString, u64>::serialize_from_iter(
        &pairs,
        (1, 2),
        &mut serializer,
    )
    .unwrap();
    assert_eq!(serializer.writer, vec![9u8, b'a', b'b', b'c', b'd', b'e']);
    assert_eq!(serializer.arena.used(), 0);
    assert_eq!(resolver.capacity(), 4);
    let pos = serializer.writer.len();
    let mut map = ArchivedHashMap::new();
    ArchivedHashMap::resolve_from_len(2, (1, 2), pos, resolver, &mut map);
    let (key, _) = map.get_key_value(&"cde".to_string()).unwrap();
    // The text lies at position 3; the slot of the key lies behind the
    // header and the four control tags, at its bucket times the width of an
    // entry, which is sixteen bytes of key and eight of value.
    let mut bucket = None;
    let mut at = 0;
    let mut cursor = map.keys();
    let mut buckets_seen = Vec::new();
    while let Some(found) = cursor.next() {
        buckets_seen.push(found.as_str().to_string());
        if found.as_str() == "cde" {
            bucket = Some(at);
        }
        at += 1;
    }
    assert!(bucket.is_some());
    let offset = key.offset();
    let slot = 3 - offset;
    assert!(slot >= (pos + 32 + 4) as i128);
    assert_eq!((slot - (pos as i128 + 32 + 4)) % 24, 0);
    assert!((slot - (pos as i128 + 32 + 4)) / 24 < 4);
}

#[test]
fn a_plan_knows_what_it_was_made_for() {
    let pairs = [(1u64, 10u64), (2, 20), (3, 30)];
    let refs: Vec<(&u64, &u64)> = pairs.iter().map(|pair| (&pair.0, &pair.1)).collect();
    let mut serializer = Serializer::new(Vec::<u8>::new(), Arena::new());
    let resolver =
        ArchivedHashMap::<u64, u64>::serialize_from_iter(&refs, (3, 4), &mut serializer).unwrap();
    assert_eq!(resolver.len(), 3);
    assert_eq!(resolver.capacity(), 4);
    assert!(resolver.planned_for(3, (3, 4)));
    assert!(resolver.planned_for(3, (6, 8)));
    assert!(resolver.planned_for(3, (1, 1)) == false);
    assert!(!resolver.planned_for(2, (3, 4)));
    assert!(!resolver.planned_for(4, (1, 1)));
    assert!(!resolver.planned_for(3, (0, 1)));
    assert!(resolver.fits_at(0));
    assert!(resolver.fits_at(isize::MAX as usize - 32 - 4 - 4 * 16));
    assert!(!resolver.fits_at(isize::MAX as usize - 32 - 4 - 4 * 16 + 1));
}
