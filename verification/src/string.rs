//! Archived strings: the text is written out of line, and the archived form
//! points back at it from wherever it ends up.

use crate::hash::{hash_bytes, hash_bytes_spec, ArchiveKey, Equivalent, HashKey};
use crate::ser::{i64_bits, i64_to_bits, ArchiveError, Emit, Resolve, Serialize, Serializer, Writer};
use vstd::bytes::{lemma_auto_spec_u64_to_from_le_bytes, spec_u64_to_le_bytes, u64_to_le_bytes};
use vstd::prelude::*;
use vstd::utf8::encode_utf8;

verus! {

/// The number of bytes that an archived string takes: the offset of its
/// text and the length of its text, eight bytes each.
pub const STRING_SIZE: usize = 16;

/// The archived form of a string.
#[derive(Debug)]
pub struct ArchivedString {
    offset: i128,
    text: String,
}

impl View for ArchivedString {
    type V = Seq<char>;

    /// The characters of the string.
    closed spec fn view(&self) -> Seq<char> {
        self.text@
    }
}

impl ArchivedString {
    /// Where the text lies, counted from the archived string's own position.
    pub closed spec fn spec_offset(&self) -> int {
        self.offset as int
    }

    /// Where the text lies, counted from the archived string's own position.
    pub fn offset(&self) -> (offset: i128)
        ensures
            offset == self.spec_offset(),
    {
        self.offset
    }

    /// The string.
    pub fn as_str(&self) -> (text: &str)
        ensures
            text@ == self@,
    {
        self.text.as_str()
    }
}

/// What is left of a string after its text was written: where the text
/// lies, and the text for the archived form.
pub struct StringResolver {
    pos: usize,
    text: String,
}

impl StringResolver {
    /// The position of the text in the archive.
    pub closed spec fn spec_pos(&self) -> nat {
        self.pos as nat
    }

    /// The characters of the string.
    pub closed spec fn text(&self) -> Seq<char> {
        self.text@
    }
}

/// An archived string is put down as the offset of its text and the number
/// of bytes of its text.
impl Emit for ArchivedString {
    open spec fn spec_width() -> nat {
        STRING_SIZE as nat
    }

    /// The offset of the text, then the number of its bytes, each as 64
    /// bits in little-endian order. An offset that 64 bits cannot hold has
    /// no bytes; zeros stand in for it.
    open spec fn spec_bytes(&self) -> Seq<u8> {
        spec_u64_to_le_bytes(
            if i64::MIN <= self.spec_offset() <= i64::MAX {
                i64_bits(self.spec_offset() as i64)
            } else {
                0
            },
        ) + spec_u64_to_le_bytes(encode_utf8(self@).len() as u64)
    }

    proof fn lemma_width(&self) {
        lemma_auto_spec_u64_to_from_le_bytes();
    }

    fn width() -> (width: Option<usize>) {
        Some(STRING_SIZE)
    }

    /// Refuses a string whose text lies too far for an offset of 64 bits.
    fn emit<W: Writer>(&self, writer: &mut W) -> (done: Result<(), ArchiveError>)
        ensures
            done == Err::<(), ArchiveError>(ArchiveError::Value) <==> !(i64::MIN
                <= self.spec_offset() <= i64::MAX),
    {
        if self.offset < i64::MIN as i128 || self.offset > i64::MAX as i128 {
            return Err(ArchiveError::Value);
        }
        let mut bytes = u64_to_le_bytes(i64_to_bits(self.offset as i64));
        let mut len = u64_to_le_bytes(self.text.as_str().as_bytes().len() as u64);
        bytes.append(&mut len);
        writer.write(bytes.as_slice())
    }
}

/// Resolving turns the position of the text into an offset from the
/// archived string.
impl Resolve for StringResolver {
    type Archived = ArchivedString;

    closed spec fn resolved(self, pos: nat) -> ArchivedString {
        ArchivedString { offset: (self.pos - pos) as i128, text: self.text }
    }

    fn resolve(self, pos: usize) -> (archived: ArchivedString)
        ensures
            archived@ == self.text(),
            archived.spec_offset() == self.spec_pos() - pos,
    {
        ArchivedString { offset: self.pos as i128 - pos as i128, text: self.text }
    }
}

/// Resolving keeps the text and turns the position of the text into an
/// offset from the archived string.
pub proof fn lemma_resolved_string(resolver: StringResolver, pos: nat)
    requires
        pos <= usize::MAX,
    ensures
        resolver.resolved(pos)@ == resolver.text(),
        resolver.resolved(pos).spec_offset() == resolver.spec_pos() - pos,
{
}

/// A string keeps its text out of line: serializing writes the text.
impl Serialize for String {
    type Resolver = StringResolver;

    open spec fn archives(&self, resolver: StringResolver) -> bool {
        resolver.text() == self@
    }

    open spec fn infallible() -> bool {
        false
    }

    /// A string fails only where the sink refuses its text.
    open spec fn fails_with(&self, error: ArchiveError) -> bool {
        error == ArchiveError::Writer
    }

    /// Appends the text to the archive. Fails only where the sink refuses
    /// it.
    fn serialize<W: Writer>(&self, serializer: &mut Serializer<W>) -> (done: Result<
        StringResolver,
        ArchiveError,
    >)
        ensures
            match done {
                Ok(resolver) => {
                    &&& resolver.spec_pos() == old(serializer).writer.written().len()
                    &&& final(serializer).writer.written() == old(serializer).writer.written()
                        + encode_utf8(self@)
                },
                Err(error) => error == ArchiveError::Writer,
            },
    {
        let pos = serializer.writer.pos();
        match serializer.writer.write(self.as_str().as_bytes()) {
            Ok(()) => Ok(StringResolver { pos, text: self.clone() }),
            Err(error) => Err(error),
        }
    }
}

/// A string hashes by its bytes.
impl HashKey for String {
    /// The hash of the string's bytes.
    open spec fn hash_spec(&self) -> u64 {
        hash_bytes_spec(encode_utf8(self@))
    }

    fn hash_key(&self) -> (hash: u64) {
        hash_bytes(self.as_str().as_bytes())
    }
}

/// An archived string hashes as the string that it archives.
impl HashKey for ArchivedString {
    /// The hash of the string's bytes: an archived string hashes as the
    /// string that it archives.
    open spec fn hash_spec(&self) -> u64 {
        hash_bytes_spec(encode_utf8(self@))
    }

    fn hash_key(&self) -> (hash: u64) {
        hash_bytes(self.text.as_str().as_bytes())
    }
}

/// Archived strings are the same key where their characters are the same.
impl Equivalent<ArchivedString> for ArchivedString {
    open spec fn equivalent_spec(&self, stored: &ArchivedString) -> bool {
        self@ == stored@
    }

    fn equivalent(&self, stored: &ArchivedString) -> (same: bool) {
        self.text == stored.text
    }
}

/// A string is the key that an archived string with the same characters
/// is.
impl Equivalent<ArchivedString> for String {
    open spec fn equivalent_spec(&self, stored: &ArchivedString) -> bool {
        self@ == stored@
    }

    fn equivalent(&self, stored: &ArchivedString) -> (same: bool) {
        *self == stored.text
    }
}

/// A string finds its own archived form: the archived form holds its
/// characters.
impl ArchiveKey for String {
    open spec fn same_key(&self, other: &String) -> bool {
        self@ == other@
    }

    proof fn lemma_same_key(&self, other: &String, resolver: StringResolver, pos: nat) {
    }
}

} // verus!
