use rkyv::arena::{ArenaCache, CacheMode};
use rkyv::de::{from_bytes, from_bytes_unchecked, i32_of_bits, i64_of_bits, Deserialize};
use rkyv::util::{to_bytes, to_bytes_in};

#[test]
fn numbers_are_read_back() {
    let mut cache = ArenaCache::new(CacheMode::PerThread);
    for value in [0u64, 1, 0x0102_0304_0506_0708, u64::MAX] {
        let bytes = to_bytes(&mut cache, &value).unwrap();
        assert_eq!(from_bytes::<u64>(&bytes), Some(value));
        assert_eq!(from_bytes_unchecked::<u64>(&bytes), value);
    }
    for value in [0u32, 7, u32::MAX] {
        let bytes = to_bytes_in(&mut cache, &value, vec![1u8, 2]).unwrap();
        assert_eq!(from_bytes::<u32>(&bytes), Some(value));
        assert_eq!(from_bytes_unchecked::<u32>(&bytes), value);
    }
    for value in [0i64, -1, 5, i64::MIN, i64::MAX] {
        let bytes = to_bytes(&mut cache, &value).unwrap();
        assert_eq!(from_bytes::<i64>(&bytes), Some(value));
    }
    for value in [0i32, -1, 5, i32::MIN, i32::MAX] {
        let bytes = to_bytes(&mut cache, &value).unwrap();
        assert_eq!(from_bytes::<i32>(&bytes), Some(value));
    }
    assert_eq!(from_bytes::<u64>(&[1, 0, 0, 0, 0, 0, 0, 0]), Some(1));
    assert_eq!(from_bytes::<u64>(&[9, 1, 0, 0, 0, 0, 0, 0, 0]), Some(1));
    assert_eq!(from_bytes::<u64>(&[1, 0, 0, 0, 0, 0, 0]), None);
    assert_eq!(from_bytes::<u32>(&[1, 0, 0]), None);
    assert_eq!(from_bytes::<i64>(&[]), None);
    assert_eq!(from_bytes::<i32>(&[0xfe, 0xff, 0xff, 0xff]), Some(-2));
    assert_eq!(u64::deserialize(&[0, 2, 0, 0, 0, 0, 0, 0, 0], 1), Some(2));
    assert_eq!(u64::deserialize(&[0, 2, 0, 0, 0, 0, 0, 0, 0], 2), None);
    assert_eq!(u64::deserialize(&[0; 8], usize::MAX), None);
    assert_eq!(u32::deserialize(&[0, 2, 0, 0, 0], 1), Some(2));
    assert_eq!(i64::deserialize(&[0xff; 9], 1), Some(-1));
    assert_eq!(i32::deserialize(&[0xff; 4], 1), None);
    assert_eq!(u64::width(), 8);
    assert_eq!(u32::width(), 4);
    assert_eq!(i64::width(), 8);
    assert_eq!(i32::width(), 4);
    assert_eq!(String::width(), 16);
}

#[test]
fn bits_as_signed_numbers() {
    assert_eq!(i64_of_bits(0), 0);
    assert_eq!(i64_of_bits(u64::MAX), -1);
    assert_eq!(i64_of_bits(0x8000_0000_0000_0000), i64::MIN);
    assert_eq!(i64_of_bits(0x7fff_ffff_ffff_ffff), i64::MAX);
    assert_eq!(i32_of_bits(0), 0);
    assert_eq!(i32_of_bits(u32::MAX), -1);
    assert_eq!(i32_of_bits(0x8000_0000), i32::MIN);
    assert_eq!(i32_of_bits(0x7fff_ffff), i32::MAX);
}

#[test]
fn strings_are_read_back() {
    let mut cache = ArenaCache::new(CacheMode::Shared);
    for text in ["hello world", "", "h\u{e9}llo", "\u{1f600} and more"] {
        let value = text.to_string();
        let bytes = to_bytes(&mut cache, &value).unwrap();
        assert_eq!(from_bytes::<String>(&bytes), Some(value.clone()));
        assert_eq!(from_bytes_unchecked::<String>(&bytes), value);
        let bytes = to_bytes_in(&mut cache, &value, vec![0xffu8; 3]).unwrap();
        assert_eq!(from_bytes::<String>(&bytes), Some(value));
    }
}

fn archive(text: &[u8], offset: i64, len: u64) -> Vec<u8> {
    let mut bytes = text.to_vec();
    bytes.extend_from_slice(&offset.to_le_bytes());
    bytes.extend_from_slice(&len.to_le_bytes());
    bytes
}

#[test]
fn bytes_that_hold_no_string() {
    assert_eq!(from_bytes::<String>(&archive(b"abc", -3, 3)), Some("abc".to_string()));
    assert_eq!(from_bytes::<String>(&archive(b"abc", -2, 2)), Some("bc".to_string()));
    assert_eq!(from_bytes::<String>(&archive(b"abc", -3, 0)), Some(String::new()));
    // The text may lie behind the archived string as well.
    let mut behind = archive(b"", 16, 2);
    behind.extend_from_slice(b"ok");
    assert_eq!(String::deserialize(&behind, 0), Some("ok".to_string()));
    // Text that starts before the bytes or ends behind them.
    assert_eq!(from_bytes::<String>(&archive(b"abc", -4, 3)), None);
    assert_eq!(from_bytes::<String>(&archive(b"abc", i64::MIN, 3)), None);
    assert_eq!(from_bytes::<String>(&archive(b"abc", i64::MAX, 0)), None);
    assert_eq!(from_bytes::<String>(&archive(b"abc", 17, 0)), None);
    assert_eq!(from_bytes::<String>(&archive(b"abc", 16, 0)), Some(String::new()));
    assert_eq!(from_bytes::<String>(&archive(b"abc", -3, 20)), None);
    assert_eq!(from_bytes::<String>(&archive(b"abc", -3, u64::MAX)), None);
    // Text that is no valid encoding.
    assert_eq!(from_bytes::<String>(&archive(&[0xff, 0xfe], -2, 2)), None);
    assert_eq!(from_bytes::<String>(&archive(&[0xc3], -1, 1)), None);
    assert_eq!(from_bytes::<String>(&archive(&[0xc3, 0xa9], -2, 2)), Some("\u{e9}".to_string()));
    assert_eq!(from_bytes::<String>(&archive(&[0xc3, 0xa9], -1, 1)), None);
    // Too short for an archived string.
    assert_eq!(from_bytes::<String>(&[0u8; 15]), None);
    assert_eq!(String::deserialize(&[0u8; 16], 1), None);
    assert_eq!(String::deserialize(&[0u8; 16], 0), Some(String::new()));
}
