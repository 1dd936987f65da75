use rkyv::arena::Arena;
use rkyv::map::{entry_or_stop, ArchivedHashMap, Entry, EntryAdapter};
use rkyv::ser::{keep_or_stop, ArchiveError, Emit, Resolve, Serialize, Serializer, Writer};
use rkyv::string::ArchivedString;
use rkyv::layout::HEADER_SIZE;
use rkyv::table::ArchivedHashTable;

fn table_of(items: &[u64], hashes: &[u64], load_factor: (usize, usize), pos: usize) -> ArchivedHashTable<u64> {
    let mut serializer = Serializer::new(Vec::<u8>::new(), Arena::new());
    let resolver =
        ArchivedHashTable::<u64>::serialize_from_iter(items, hashes, load_factor, &mut serializer)
            .unwrap();
    assert_eq!(resolver.len(), items.len());
    assert!(resolver.fits_at(pos));
    let mut table = ArchivedHashTable::new();
    ArchivedHashTable::resolve_from_len(items.len(), load_factor, pos, resolver, &mut table);
    table
}

#[test]
fn a_table_by_hashes_of_the_callers() {
    // All items share one home; they sit one behind the other.
    let table = table_of(&[10, 20, 30], &[1, 1, 1], (3, 5), 0);
    assert_eq!(table.capacity(), 5);
    assert_eq!(table.len(), 3);
    assert!(!table.is_empty());
    assert_eq!(table.control_offset(), HEADER_SIZE);
    assert_eq!(table.slots_offset(), HEADER_SIZE + 5);
    assert_eq!(table.slot(0), None);
    assert_eq!(table.slot(1), Some(&10));
    assert_eq!(table.slot(2), Some(&20));
    assert_eq!(table.slot(3), Some(&30));
    assert_eq!(table.slot(4), None);
    assert_eq!(table.find(1, |item: &u64| *item == 30), Some(3));
    assert_eq!(table.find(6, |item: &u64| *item == 20), Some(2));
    // A walk from another home meets an empty slot first.
    assert_eq!(table.find(0, |item: &u64| *item == 20), None);
    assert_eq!(table.find(4, |item: &u64| *item == 20), None);
    assert_eq!(table.find(1, |item: &u64| *item == 40), None);
    assert_eq!(table.get_with(1, |item: &u64| *item >= 20), Some(&20));
    assert_eq!(table.get_with(2, |item: &u64| *item >= 20), Some(&20));
    assert_eq!(table.get_with(3, |item: &u64| *item <= 20), None);
}

#[test]
fn a_table_that_is_written_to() {
    let mut table = table_of(&[10, 20, 30], &[4, 4, 4], (1, 1), 0);
    assert_eq!(table.slot(1), Some(&10));
    assert_eq!(table.slot(2), Some(&20));
    assert_eq!(table.slot(0), Some(&30));
    *table.get_with_mut(4, |item: &u64| *item == 30).unwrap() = 31;
    assert_eq!(table.slot(0), Some(&31));
    assert!(table.get_with_mut(4, |item: &u64| *item == 30).is_none());
    *table.slot_mut(2).unwrap() = 21;
    assert_eq!(table.get_with(1, |item: &u64| *item == 21), Some(&21));
    assert_eq!(table.len(), 3);

    let mut empty = table_of(&[], &[], (1, 1), 0);
    assert!(empty.is_empty());
    assert_eq!(empty.find(3, |_: &u64| true), None);
    assert!(empty.get_with_mut(3, |_: &u64| true).is_none());
}

#[test]
fn a_raw_cursor() {
    let table = table_of(&[10, 20, 30], &[6, 2, 6], (3, 7), 0);
    assert_eq!(table.capacity(), 7);
    let mut cursor = table.raw_iter();
    assert_eq!(cursor.len(), 3);
    assert_eq!(cursor.next(&table), Some(0));
    assert_eq!(cursor.len(), 2);
    assert_eq!(cursor.next(&table), Some(2));
    assert_eq!(cursor.next(&table), Some(6));
    assert_eq!(cursor.len(), 0);
    assert_eq!(cursor.next(&table), None);
    assert_eq!(cursor.next(&table), None);
    let mut again = table.raw_iter();
    assert_eq!(again.next(&table), Some(0));
}

#[test]
fn the_bytes_of_a_table() {
    let table = table_of(&[0x1111, 0x2222], &[2, 2], (2, 3), 0);
    assert_eq!(table.capacity(), 3);
    let mut bytes = vec![0xaau8];
    table.write_to(&mut bytes).unwrap();
    let mut expected = vec![0xaau8];
    expected.extend_from_slice(&32u64.to_le_bytes());
    expected.extend_from_slice(&35u64.to_le_bytes());
    expected.extend_from_slice(&3u64.to_le_bytes());
    expected.extend_from_slice(&2u64.to_le_bytes());
    expected.extend_from_slice(&[1, 0, 1]);
    expected.extend_from_slice(&0x2222u64.to_le_bytes());
    expected.extend_from_slice(&0u64.to_le_bytes());
    expected.extend_from_slice(&0x1111u64.to_le_bytes());
    assert_eq!(bytes, expected);
    assert_eq!(bytes.len(), 1 + 32 + 3 + 3 * 8);

    let empty = table_of(&[], &[], (1, 1), 0);
    let mut bytes = Vec::new();
    empty.write_to(&mut bytes).unwrap();
    let mut expected = Vec::new();
    expected.extend_from_slice(&32u64.to_le_bytes());
    expected.extend_from_slice(&32u64.to_le_bytes());
    expected.extend_from_slice(&0u64.to_le_bytes());
    expected.extend_from_slice(&0u64.to_le_bytes());
    assert_eq!(bytes, expected);
}

#[test]
fn the_bytes_of_a_map_of_strings() {
    let keys = ["ab".to_string(), "c".to_string()];
    let values = [7u32, 8];
    let pairs = vec![(&keys[0], &values[0]), (&keys[1], &values[1])];
    let mut serializer = Serializer::new(Vec::<u8>::new(), Arena::new());
    let resolver = ArchivedHashMap::<ArchivedString, u32>::serialize_from_iter(
        &pairs,
        (1, 1),
        &mut serializer,
    )
    .unwrap();
    let pos = serializer.writer.pos();
    assert_eq!(pos, 3);
    let mut map = ArchivedHashMap::new();
    ArchivedHashMap::resolve_from_len(2, (1, 1), pos, resolver, &mut map);
    let mut bytes = serializer.into_writer();
    map.write_to(&mut bytes).unwrap();
    assert_eq!(bytes.len(), 3 + 32 + 2 + 2 * 20);
    assert_eq!(&bytes[..3], b"abc");
    assert_eq!(&bytes[3..11], &32u64.to_le_bytes());
    assert_eq!(&bytes[11..19], &34u64.to_le_bytes());
    assert_eq!(&bytes[19..27], &2u64.to_le_bytes());
    assert_eq!(&bytes[27..35], &2u64.to_le_bytes());
    assert_eq!(&bytes[35..37], &[1, 1]);
    // Each entry points back at its text from its own slot.
    let mut texts = Vec::new();
    for bucket in 0..2usize {
        let slot = 37 + bucket * 20;
        let mut offset = [0u8; 8];
        offset.copy_from_slice(&bytes[slot..slot + 8]);
        let mut len = [0u8; 8];
        len.copy_from_slice(&bytes[slot + 8..slot + 16]);
        let mut value = [0u8; 4];
        value.copy_from_slice(&bytes[slot + 16..slot + 20]);
        let start = (slot as i64 + i64::from_le_bytes(offset)) as usize;
        let text = &bytes[start..start + u64::from_le_bytes(len) as usize];
        texts.push((text.to_vec(), u32::from_le_bytes(value)));
    }
    texts.sort();
    assert_eq!(texts, vec![(b"ab".to_vec(), 7), (b"c".to_vec(), 8)]);
}

#[test]
fn entries_resolve_key_then_value() {
    let key = "k".to_string();
    let value = 5u64;
    let adapter = EntryAdapter { key: &key, value: &value };
    let mut serializer = Serializer::new(vec![0u8; 4], Arena::new());
    let resolver = adapter.serialize(&mut serializer).unwrap();
    assert_eq!(serializer.writer, vec![0, 0, 0, 0, b'k']);
    let entry: Entry<ArchivedString, u64> = resolver.resolve(40);
    assert_eq!(entry.key.as_str(), "k");
    assert_eq!(entry.key.offset(), 4 - 40);
    assert_eq!(entry.value, 5);
    assert_eq!(Entry::<ArchivedString, u64>::width(), Some(24));
    let mut bytes = Vec::new();
    entry.emit(&mut bytes).unwrap();
    let mut expected = (-36i64).to_le_bytes().to_vec();
    expected.extend_from_slice(&1u64.to_le_bytes());
    expected.extend_from_slice(&5u64.to_le_bytes());
    assert_eq!(bytes, expected);
}

/// A sink that takes a limited number of bytes.
struct Limited {
    bytes: Vec<u8>,
    limit: usize,
}

impl Writer for Limited {
    fn written(&self) -> vstd::seq::Seq<u8> {
        unreachable!()
    }

    fn pos(&self) -> usize {
        self.bytes.len()
    }

    fn write(&mut self, bytes: &[u8]) -> Result<(), ArchiveError> {
        if self.bytes.len() + bytes.len() > self.limit {
            Err(ArchiveError::Writer)
        } else {
            self.bytes.extend_from_slice(bytes);
            Ok(())
        }
    }
}

#[test]
fn a_sink_that_refuses_stops_the_construction() {
    let keys = ["abc".to_string(), "def".to_string(), "ghi".to_string()];
    let values = [1u64, 2, 3];
    let pairs = vec![(&keys[0], &values[0]), (&keys[1], &values[1]), (&keys[2], &values[2])];
    let mut serializer = Serializer::new(Limited { bytes: Vec::new(), limit: 7 }, Arena::new());
    let done = ArchivedHashMap::<ArchivedString, u64>::serialize_from_iter(
        &pairs,
        (1, 1),
        &mut serializer,
    );
    assert!(matches!(done, Err(ArchiveError::Writer)));
    // What was written before the refusal stays.
    assert_eq!(serializer.writer.bytes, b"abcdef".to_vec());
    assert_eq!(serializer.arena.used(), 0);

    let table = table_of(&[1, 2], &[0, 1], (1, 1), 0);
    let mut sink = Limited { bytes: Vec::new(), limit: 40 };
    assert_eq!(table.write_to(&mut sink), Err(ArchiveError::Writer));
    assert_eq!(sink.bytes.len(), 34);
}

/// A value that never serializes.
struct Broken;

impl Serialize for Broken {
    type Resolver = u64;

    fn archives(&self, _: u64) -> bool {
        unreachable!()
    }

    fn infallible() -> bool {
        unreachable!()
    }

    fn fails_with(&self, _: ArchiveError) -> bool {
        unreachable!()
    }

    fn serialize<W: Writer>(&self, _: &mut Serializer<W>) -> Result<u64, ArchiveError> {
        Err(ArchiveError::Value)
    }
}

#[test]
fn a_value_that_fails_stops_the_construction() {
    let keys = ["abc".to_string(), "def".to_string()];
    let values = [Broken, Broken];
    let pairs = vec![(&keys[0], &values[0]), (&keys[1], &values[1])];
    let mut serializer = Serializer::new(Vec::<u8>::new(), Arena::new());
    let done = ArchivedHashMap::<ArchivedString, u64>::serialize_from_iter(
        &pairs,
        (1, 1),
        &mut serializer,
    );
    assert!(matches!(done, Err(ArchiveError::Value)));
    assert_eq!(serializer.writer, b"abc".to_vec());
}

/// A value of no size, so that a slice of any length is had for nothing.
struct Nothing;

impl Serialize for Nothing {
    type Resolver = u64;

    fn archives(&self, _: u64) -> bool {
        unreachable!()
    }

    fn infallible() -> bool {
        unreachable!()
    }

    fn fails_with(&self, _: ArchiveError) -> bool {
        unreachable!()
    }

    fn serialize<W: Writer>(&self, _: &mut Serializer<W>) -> Result<u64, ArchiveError> {
        Ok(0)
    }
}

#[test]
fn a_table_that_is_larger_than_a_buffer_can_be() {
    let items: Vec<Nothing> = (0..5).map(|_| Nothing).collect();
    let hashes = [0u64; 5];
    // No capacity fits the machine's word.
    let mut serializer = Serializer::new(Vec::<u8>::new(), Arena::new());
    let done = ArchivedHashTable::<u64>::serialize_from_iter(
        &items,
        &hashes,
        (1, usize::MAX),
        &mut serializer,
    );
    assert!(matches!(done, Err(ArchiveError::CapacityOverflow)));
    assert!(serializer.writer.is_empty());
    // The capacity fits the word, but no buffer holds a plan for it.
    let done = ArchivedHashTable::<u64>::serialize_from_iter(
        &items,
        &hashes,
        (1, usize::MAX / 5),
        &mut serializer,
    );
    assert!(matches!(done, Err(ArchiveError::CapacityOverflow)));
    // The plan does not fit on top of the scratch memory that is in use.
    let most = isize::MAX as usize;
    let mut arena = Arena::with_capacity(0);
    assert_eq!(arena.push_alloc(most + 1), None);
    assert_eq!(arena.used(), 0);

    let resolver = {
        let mut serializer = Serializer::new(Vec::<u8>::new(), Arena::new());
        ArchivedHashTable::<u64>::serialize_from_iter(&items, &hashes, (1, 2), &mut serializer)
            .unwrap()
    };
    assert_eq!(resolver.capacity(), 10);
    assert!(resolver.fits_at(0));
    assert!(resolver.fits_at(most - 32 - 10 - 80));
    assert!(!resolver.fits_at(most - 32 - 10 - 79));
    assert!(!resolver.fits_at(most));
    assert!(!resolver.fits_at(usize::MAX));
}

#[test]
fn a_result_is_kept_or_stops_the_work() {
    let mut children = vec![1u64, 2];
    assert_eq!(keep_or_stop(Ok(3), &mut children), None);
    assert_eq!(children, vec![1, 2, 3]);
    assert_eq!(keep_or_stop(Err(ArchiveError::Value), &mut children), Some(ArchiveError::Value));
    assert_eq!(keep_or_stop(Err(ArchiveError::Writer), &mut children), Some(ArchiveError::Writer));
    assert_eq!(children, vec![1, 2, 3]);
}

/// A value that counts how often it was asked to serialize, and fails from
/// a given call on.
struct Counted<'a> {
    calls: &'a std::cell::Cell<usize>,
    fails_at: usize,
    error: ArchiveError,
}

impl Serialize for Counted<'_> {
    type Resolver = u64;

    fn archives(&self, _: u64) -> bool {
        unreachable!()
    }

    fn infallible() -> bool {
        unreachable!()
    }

    fn fails_with(&self, _: ArchiveError) -> bool {
        unreachable!()
    }

    fn serialize<W: Writer>(&self, _: &mut Serializer<W>) -> Result<u64, ArchiveError> {
        let call = self.calls.get();
        self.calls.set(call + 1);
        if call >= self.fails_at {
            Err(self.error)
        } else {
            Ok(call as u64)
        }
    }
}

#[test]
fn the_first_failure_comes_back_and_nothing_is_serialized_after_it() {
    for error in [ArchiveError::Value, ArchiveError::Writer] {
        let calls = std::cell::Cell::new(0);
        let keys = [1u64, 2, 3, 4];
        let values: Vec<Counted> =
            (0..4).map(|_| Counted { calls: &calls, fails_at: 2, error }).collect();
        let pairs: Vec<(&u64, &Counted)> = keys.iter().zip(values.iter()).collect();
        let mut serializer = Serializer::new(Vec::<u8>::new(), Arena::new());
        let done =
            ArchivedHashMap::<u64, u64>::serialize_from_iter(&pairs, (1, 1), &mut serializer);
        assert_eq!(done.err(), Some(error));
        // Two values went through, the third failed, the fourth was not asked.
        assert_eq!(calls.get(), 3);
    }
    // With nothing to serialize, nothing can fail.
    let calls = std::cell::Cell::new(0);
    let pairs: Vec<(&u64, &Counted)> = Vec::new();
    let mut serializer = Serializer::new(Vec::<u8>::new(), Arena::new());
    let done = ArchivedHashMap::<u64, u64>::serialize_from_iter(&pairs, (1, 3), &mut serializer);
    assert_eq!(done.ok().map(|resolver| (resolver.len(), resolver.capacity())), Some((0, 0)));
    assert_eq!(calls.get(), 0);
}

#[test]
fn a_value_joins_its_key_or_stops_the_entry() {
    let done = entry_or_stop(1u64, Ok(2u32)).ok().unwrap();
    assert_eq!((done.key, done.value), (1, 2));
    assert_eq!(entry_or_stop::<u64, u32>(1, Err(ArchiveError::Value)).err(), Some(ArchiveError::Value));
    assert_eq!(entry_or_stop::<u64, u32>(1, Err(ArchiveError::Writer)).err(), Some(ArchiveError::Writer));

    // A key that fails keeps its value from being serialized.
    let calls = std::cell::Cell::new(0);
    let key = Counted { calls: &calls, fails_at: 0, error: ArchiveError::Writer };
    let value = Counted { calls: &calls, fails_at: 9, error: ArchiveError::Value };
    let mut serializer = Serializer::new(Vec::<u8>::new(), Arena::new());
    let done = EntryAdapter { key: &key, value: &value }.serialize(&mut serializer);
    assert_eq!(done.err(), Some(ArchiveError::Writer));
    assert_eq!(calls.get(), 1);
}
