use rkyv::arena::Arena;
use rkyv::hash::{hash_bytes, hash_value, Equivalent, HashKey, HASH_PRIME, HASH_SEED};
use rkyv::ser::{i32_to_bits, i64_to_bits, ArchiveError, Emit, Resolve, Serialize, Serializer};
use rkyv::string::{ArchivedString, STRING_SIZE};

#[test]
fn hashes_of_bytes() {
    assert_eq!(HASH_SEED, 0xcbf29ce484222325);
    assert_eq!(HASH_PRIME, 0x100000001b3);
    assert_eq!(hash_bytes(b""), 0xcbf29ce484222325);
    assert_eq!(hash_bytes(b"a"), 0xaf63dc4c8601ec8c);
    assert_eq!(hash_bytes(b"foobar"), 0x85944171f73967e8);
    assert_eq!(hash_bytes(&[0]), 0xaf63bd4c8601b7df);
}

#[test]
fn hashes_of_keys() {
    assert_eq!(hash_value(&17u64), 17);
    assert_eq!(hash_value(&u64::MAX), u64::MAX);
    assert_eq!(hash_value(&17u32), 17);
    assert_eq!(hash_value(&0i64), 0x8000_0000_0000_0000);
    assert_eq!(hash_value(&i64::MIN), 0);
    assert_eq!(hash_value(&i64::MAX), u64::MAX);
    assert_eq!(hash_value(&-1i64), 0x7fff_ffff_ffff_ffff);
    assert_eq!(hash_value(&0i32), 0x8000_0000);
    assert_eq!(hash_value(&i32::MIN), 0);
    assert_eq!(hash_value(&i32::MAX), 0xffff_ffff);
    assert_eq!(hash_value(&"foobar".to_string()), 0x85944171f73967e8);
    assert_eq!("a".to_string().hash_key(), 0xaf63dc4c8601ec8c);
    assert_eq!(hash_value(&"\u{e9}".to_string()), hash_bytes(&[0xc3, 0xa9]));
}

#[test]
fn keys_that_are_the_same() {
    assert!(3u64.equivalent(&3));
    assert!(!3u64.equivalent(&4));
    assert!(3u32.equivalent(&3));
    assert!(!3u32.equivalent(&4));
    assert!((-3i64).equivalent(&-3));
    assert!(!(-3i64).equivalent(&3));
    assert!((-3i32).equivalent(&-3));
    assert!(!(-3i32).equivalent(&3));
}

fn archive(text: &str, before: Vec<u8>, pos: usize) -> (ArchivedString, Vec<u8>) {
    let mut serializer = Serializer::new(before, Arena::new());
    let resolver = text.to_string().serialize(&mut serializer).unwrap();
    let archived = resolver.resolve(pos);
    (archived, serializer.into_writer())
}

#[test]
fn a_string_is_written_out_of_line_and_pointed_at() {
    let (archived, written) = archive("hello", vec![0, 0, 0], 100);
    assert_eq!(written, vec![0, 0, 0, b'h', b'e', b'l', b'l', b'o']);
    assert_eq!(archived.as_str(), "hello");
    assert_eq!(archived.offset(), 3 - 100);
    let (ahead, _) = archive("hello", vec![0; 50], 10);
    assert_eq!(ahead.offset(), 40);
    assert_eq!(STRING_SIZE, 16);
    assert_eq!(ArchivedString::width(), Some(16));

    let mut bytes = Vec::new();
    archived.emit(&mut bytes).unwrap();
    let mut expected = (-97i64).to_le_bytes().to_vec();
    expected.extend_from_slice(&5u64.to_le_bytes());
    assert_eq!(bytes, expected);

    let (wide, _) = archive("h\u{e9}", Vec::new(), 0);
    let mut bytes = vec![7u8];
    wide.emit(&mut bytes).unwrap();
    let mut expected = vec![7u8];
    expected.extend_from_slice(&0i64.to_le_bytes());
    expected.extend_from_slice(&3u64.to_le_bytes());
    assert_eq!(bytes, expected);
}

#[test]
fn an_offset_that_is_too_far_has_no_bytes() {
    let (far, _) = archive("x", Vec::new(), usize::MAX - 16);
    assert_eq!(far.offset(), -((usize::MAX - 16) as i128));
    let mut bytes = vec![1u8];
    assert_eq!(far.emit(&mut bytes), Err(ArchiveError::Value));
    assert_eq!(bytes, vec![1u8]);
}

#[test]
fn archived_strings_as_keys() {
    let (one, _) = archive("key", Vec::new(), 0);
    let (same, _) = archive("key", vec![1, 2, 3], 77);
    let (other, _) = archive("kez", Vec::new(), 0);
    assert!(one.equivalent(&same));
    assert!(!one.equivalent(&other));
    assert!("key".to_string().equivalent(&one));
    assert!(!"kex".to_string().equivalent(&one));
    assert_eq!(one.hash_key(), "key".to_string().hash_key());
    assert_eq!(one.hash_key(), same.hash_key());
    assert_eq!(hash_value(&other), hash_bytes(b"kez"));
}

#[test]
fn the_bits_of_signed_numbers() {
    assert_eq!(i64_to_bits(0), 0);
    assert_eq!(i64_to_bits(5), 5);
    assert_eq!(i64_to_bits(-1), u64::MAX);
    assert_eq!(i64_to_bits(i64::MIN), 0x8000_0000_0000_0000);
    assert_eq!(i64_to_bits(i64::MAX), 0x7fff_ffff_ffff_ffff);
    assert_eq!(i32_to_bits(0), 0);
    assert_eq!(i32_to_bits(-1), u32::MAX);
    assert_eq!(i32_to_bits(i32::MIN), 0x8000_0000);
    assert_eq!(i32_to_bits(i32::MAX), 0x7fff_ffff);
}

#[test]
fn numbers_archive_as_themselves() {
    let mut serializer = Serializer::new(Vec::<u8>::new(), Arena::new());
    assert_eq!(7u64.serialize(&mut serializer).unwrap().resolve(3), 7);
    assert_eq!(7u32.serialize(&mut serializer).unwrap().resolve(3), 7);
    assert_eq!((-7i64).serialize(&mut serializer).unwrap().resolve(3), -7);
    assert_eq!((-7i32).serialize(&mut serializer).unwrap().resolve(3), -7);
    assert!(serializer.writer.is_empty());
    assert_eq!(u64::width(), Some(8));
    assert_eq!(u32::width(), Some(4));
    assert_eq!(i64::width(), Some(8));
    assert_eq!(i32::width(), Some(4));
}
