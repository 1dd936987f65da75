//! Reading values back out of the bytes of an archive.
//!
//! The archived form of a value lies at a position of the archive and may
//! point at what the value keeps out of line. A value that is archived alone
//! lies at the end of its archive.

use crate::ser::{i32_bits, i64_bits};
use crate::string::STRING_SIZE;
use vstd::bytes::{
    lemma_auto_spec_u64_to_from_le_bytes, spec_u32_from_le_bytes, spec_u64_from_le_bytes,
    spec_u64_to_le_bytes, u32_from_le_bytes, u64_from_le_bytes,
};
use vstd::pervasive::unreached;
use vstd::prelude::*;
use vstd::slice::{slice_subrange, slice_to_vec};
use vstd::utf8::{encode_utf8, encode_utf8_decode_utf8, encode_utf8_valid_utf8, valid_utf8};

verus! {

/// The signed integer whose two's complement the 64 bits are.
pub open spec fn i64_from_bits(bits: u64) -> i64 {
    if bits < 0x8000_0000_0000_0000 {
        bits as i64
    } else {
        (bits - 0x1_0000_0000_0000_0000) as i64
    }
}

/// The signed integer whose two's complement the 32 bits are.
pub open spec fn i32_from_bits(bits: u32) -> i32 {
    if bits < 0x8000_0000 {
        bits as i32
    } else {
        (bits - 0x1_0000_0000) as i32
    }
}

/// Taking the bits of a signed integer and reading them back gives the
/// integer.
pub proof fn lemma_bits_round_trip(wide: i64, narrow: i32)
    ensures
        i64_from_bits(i64_bits(wide)) == wide,
        i32_from_bits(i32_bits(narrow)) == narrow,
{
}

/// Computes the signed integer whose two's complement the 64 bits are.
pub fn i64_of_bits(bits: u64) -> (value: i64)
    ensures
        value == i64_from_bits(bits),
{
    if bits < 0x8000_0000_0000_0000 {
        bits as i64
    } else {
        (bits as i128 - 0x1_0000_0000_0000_0000i128) as i64
    }
}

/// Computes the signed integer whose two's complement the 32 bits are.
pub fn i32_of_bits(bits: u32) -> (value: i32)
    ensures
        value == i32_from_bits(bits),
{
    if bits < 0x8000_0000 {
        bits as i32
    } else {
        (bits as i64 - 0x1_0000_0000i64) as i32
    }
}

/// A value that can be read out of the bytes of an archive.
pub trait Deserialize: Sized {
    /// The number of bytes that the archived form takes.
    spec fn spec_width() -> nat;

    /// The bytes hold an archived form at position `pos`, with all that it
    /// points at.
    spec fn readable(bytes: Seq<u8>, pos: int) -> bool;

    /// `value` is the value whose archived form the bytes hold at position
    /// `pos`.
    spec fn reads(bytes: Seq<u8>, pos: int, value: Self) -> bool;

    /// The number of bytes that the archived form takes.
    fn width() -> (width: usize)
        ensures
            width == Self::spec_width(),
    ;

    /// Reads the value whose archived form lies at position `pos`, if the
    /// bytes hold one there.
    fn deserialize(bytes: &[u8], pos: usize) -> (value: Option<Self>)
        ensures
            match value {
                Some(value) => Self::readable(bytes@, pos as int) && Self::reads(
                    bytes@,
                    pos as int,
                    value,
                ),
                None => !Self::readable(bytes@, pos as int),
            },
    ;
}

/// The position of a value that is archived alone: its archived form is the
/// end of the archive.
pub open spec fn root_position<T: Deserialize>(bytes: Seq<u8>) -> int {
    bytes.len() - T::spec_width()
}

/// Reads the value that is archived alone in `bytes`, if the bytes hold
/// one.
pub fn from_bytes<T: Deserialize>(bytes: &[u8]) -> (value: Option<T>)
    ensures
        match value {
            Some(value) => {
                &&& 0 <= root_position::<T>(bytes@)
                &&& T::readable(bytes@, root_position::<T>(bytes@))
                &&& T::reads(bytes@, root_position::<T>(bytes@), value)
            },
            None => root_position::<T>(bytes@) < 0 || !T::readable(
                bytes@,
                root_position::<T>(bytes@),
            ),
        },
{
    let width = T::width();
    if bytes.len() < width {
        return None;
    }
    T::deserialize(bytes, bytes.len() - width)
}

/// Reads the value that is archived alone in `bytes`. That the bytes hold
/// one is the caller's to know.
pub fn from_bytes_unchecked<T: Deserialize>(bytes: &[u8]) -> (value: T)
    requires
        0 <= root_position::<T>(bytes@),
        T::readable(bytes@, root_position::<T>(bytes@)),
    ensures
        T::reads(bytes@, root_position::<T>(bytes@), value),
{
    let width = T::width();
    match T::deserialize(bytes, bytes.len() - width) {
        Some(value) => value,
        None => unreached(),
    }
}

/// Reads 64 bits in little-endian order.
fn field_u64(bytes: &[u8], at: usize) -> (value: u64)
    requires
        at + 8 <= bytes@.len() <= usize::MAX,
    ensures
        value == spec_u64_from_le_bytes(bytes@.subrange(at as int, at + 8)),
{
    u64_from_le_bytes(slice_subrange(bytes, at, at + 8))
}

/// Reads 32 bits in little-endian order.
fn field_u32(bytes: &[u8], at: usize) -> (value: u32)
    requires
        at + 4 <= bytes@.len() <= usize::MAX,
    ensures
        value == spec_u32_from_le_bytes(bytes@.subrange(at as int, at + 4)),
{
    u32_from_le_bytes(slice_subrange(bytes, at, at + 4))
}

/// A number is read from its bytes, the lowest first.
impl Deserialize for u64 {
    open spec fn spec_width() -> nat {
        8
    }

    open spec fn readable(bytes: Seq<u8>, pos: int) -> bool {
        0 <= pos && pos + 8 <= bytes.len()
    }

    open spec fn reads(bytes: Seq<u8>, pos: int, value: u64) -> bool {
        value == spec_u64_from_le_bytes(bytes.subrange(pos, pos + 8))
    }

    fn width() -> (width: usize) {
        8
    }

    fn deserialize(bytes: &[u8], pos: usize) -> (value: Option<u64>) {
        let total = bytes.len();
        if total < 8 || pos > total - 8 {
            return None;
        }
        Some(field_u64(bytes, pos))
    }
}

/// A number is read from its bytes, the lowest first.
impl Deserialize for u32 {
    open spec fn spec_width() -> nat {
        4
    }

    open spec fn readable(bytes: Seq<u8>, pos: int) -> bool {
        0 <= pos && pos + 4 <= bytes.len()
    }

    open spec fn reads(bytes: Seq<u8>, pos: int, value: u32) -> bool {
        value == spec_u32_from_le_bytes(bytes.subrange(pos, pos + 4))
    }

    fn width() -> (width: usize) {
        4
    }

    fn deserialize(bytes: &[u8], pos: usize) -> (value: Option<u32>) {
        let total = bytes.len();
        if total < 4 || pos > total - 4 {
            return None;
        }
        Some(field_u32(bytes, pos))
    }
}

/// A number is read from its bytes, the lowest first.
impl Deserialize for i64 {
    open spec fn spec_width() -> nat {
        8
    }

    open spec fn readable(bytes: Seq<u8>, pos: int) -> bool {
        0 <= pos && pos + 8 <= bytes.len()
    }

    open spec fn reads(bytes: Seq<u8>, pos: int, value: i64) -> bool {
        value == i64_from_bits(spec_u64_from_le_bytes(bytes.subrange(pos, pos + 8)))
    }

    fn width() -> (width: usize) {
        8
    }

    fn deserialize(bytes: &[u8], pos: usize) -> (value: Option<i64>) {
        let total = bytes.len();
        if total < 8 || pos > total - 8 {
            return None;
        }
        Some(i64_of_bits(field_u64(bytes, pos)))
    }
}

/// A number is read from its bytes, the lowest first.
impl Deserialize for i32 {
    open spec fn spec_width() -> nat {
        4
    }

    open spec fn readable(bytes: Seq<u8>, pos: int) -> bool {
        0 <= pos && pos + 4 <= bytes.len()
    }

    open spec fn reads(bytes: Seq<u8>, pos: int, value: i32) -> bool {
        value == i32_from_bits(spec_u32_from_le_bytes(bytes.subrange(pos, pos + 4)))
    }

    fn width() -> (width: usize) {
        4
    }

    fn deserialize(bytes: &[u8], pos: usize) -> (value: Option<i32>) {
        let total = bytes.len();
        if total < 4 || pos > total - 4 {
            return None;
        }
        Some(i32_of_bits(field_u32(bytes, pos)))
    }
}

/// Where the text of the archived string at position `pos` starts.
pub open spec fn text_start(bytes: Seq<u8>, pos: int) -> int {
    pos + i64_from_bits(spec_u64_from_le_bytes(bytes.subrange(pos, pos + 8)))
}

/// The number of bytes of the text of the archived string at position
/// `pos`.
pub open spec fn text_len(bytes: Seq<u8>, pos: int) -> int {
    spec_u64_from_le_bytes(bytes.subrange(pos + 8, pos + 16)) as int
}

/// The bytes of the text of the archived string at position `pos`.
pub open spec fn text_bytes(bytes: Seq<u8>, pos: int) -> Seq<u8> {
    bytes.subrange(text_start(bytes, pos), text_start(bytes, pos) + text_len(bytes, pos))
}

/// `String::from_utf8` of the standard library. It is taken to return, for
/// bytes that are valid UTF-8, the string that consists of these bytes, and
/// an error, which becomes `None` here, for all other bytes.
#[verifier::external_body]
fn string_from_utf8(bytes: Vec<u8>) -> (text: Option<String>)
    ensures
        match text {
            Some(text) => valid_utf8(bytes@) && encode_utf8(text@) == bytes@,
            None => !valid_utf8(bytes@),
        },
{
    match String::from_utf8(bytes) {
        Ok(text) => Some(text),
        Err(_) => None,
    }
}

/// A string is read from where its archived form points.
impl Deserialize for String {
    open spec fn spec_width() -> nat {
        STRING_SIZE as nat
    }

    /// The archived string and its text lie inside the bytes, and the text
    /// is valid UTF-8.
    open spec fn readable(bytes: Seq<u8>, pos: int) -> bool {
        &&& 0 <= pos
        &&& pos + STRING_SIZE <= bytes.len()
        &&& 0 <= text_start(bytes, pos)
        &&& text_start(bytes, pos) + text_len(bytes, pos) <= bytes.len()
        &&& valid_utf8(text_bytes(bytes, pos))
    }

    /// The text is the UTF-8 encoding of the string.
    open spec fn reads(bytes: Seq<u8>, pos: int, value: String) -> bool {
        encode_utf8(value@) == text_bytes(bytes, pos)
    }

    fn width() -> (width: usize) {
        STRING_SIZE
    }

    fn deserialize(bytes: &[u8], pos: usize) -> (value: Option<String>) {
        let total = bytes.len();
        if total < STRING_SIZE || pos > total - STRING_SIZE {
            return None;
        }
        let offset = i64_of_bits(field_u64(bytes, pos));
        let len = field_u64(bytes, pos + 8);
        let start = pos as i128 + offset as i128;
        if start < 0 || start > total as i128 {
            return None;
        }
        let start = start as usize;
        if len > (total - start) as u64 {
            return None;
        }
        let text = slice_to_vec(slice_subrange(bytes, start, start + len as usize));
        string_from_utf8(text)
    }
}

/// A number that was archived alone is read back: the archive ends with
/// the number in little-endian order.
pub proof fn lemma_number_round_trip(before: Seq<u8>, value: u64)
    ensures
        u64::readable(before + spec_u64_to_le_bytes(value), before.len() as int),
        u64::reads(before + spec_u64_to_le_bytes(value), before.len() as int, value),
{
    lemma_auto_spec_u64_to_from_le_bytes();
    let bytes = before + spec_u64_to_le_bytes(value);
    assert(bytes.subrange(before.len() as int, before.len() + 8 as int) =~= spec_u64_to_le_bytes(
        value,
    ));
}

/// A string that was archived is read back. Where the text lies in the
/// bytes and the archived string, at position `pos`, holds the offset of the
/// text and the number of its bytes, reading at `pos` gives the string.
pub proof fn lemma_string_round_trip(bytes: Seq<u8>, pos: int, start: int, text: String)
    requires
        0 <= start,
        start + encode_utf8(text@).len() <= bytes.len(),
        bytes.subrange(start, start + encode_utf8(text@).len()) == encode_utf8(text@),
        0 <= pos,
        pos + STRING_SIZE <= bytes.len(),
        i64::MIN <= start - pos <= i64::MAX,
        encode_utf8(text@).len() <= u64::MAX,
        bytes.subrange(pos, pos + STRING_SIZE) == spec_u64_to_le_bytes(
            i64_bits((start - pos) as i64),
        ) + spec_u64_to_le_bytes(encode_utf8(text@).len() as u64),
    ensures
        String::readable(bytes, pos),
        String::reads(bytes, pos, text),
{
    lemma_auto_spec_u64_to_from_le_bytes();
    lemma_bits_round_trip((start - pos) as i64, 0);
    let root = bytes.subrange(pos, pos + STRING_SIZE);
    let first = spec_u64_to_le_bytes(i64_bits((start - pos) as i64));
    let second = spec_u64_to_le_bytes(encode_utf8(text@).len() as u64);
    assert(bytes.subrange(pos, pos + 8) =~= first);
    assert(bytes.subrange(pos + 8, pos + 16) =~= second) by {
        assert(bytes.subrange(pos + 8, pos + 16) =~= root.subrange(8, 16));
    }
    assert(text_start(bytes, pos) == start);
    assert(text_len(bytes, pos) == encode_utf8(text@).len());
    encode_utf8_valid_utf8(text@);
}

/// Bytes hold at most one string at a position: two strings that are read
/// from the same place have the same characters.
pub proof fn lemma_string_read_is_unique(bytes: Seq<u8>, pos: int, one: String, other: String)
    requires
        String::reads(bytes, pos, one),
        String::reads(bytes, pos, other),
    ensures
        one@ == other@,
{
    encode_utf8_decode_utf8(one@);
    encode_utf8_decode_utf8(other@);
}

} // verus!
