//! What construction consumes: a sink for bytes, scratch memory, and the
//! two-step archiving of values.
//!
//! A value is archived in two steps. `serialize` writes what the value keeps
//! out of line and returns a resolver. Once the position of the value's own
//! archived form is known, `resolve` turns the resolver into that form.

use crate::arena::Arena;
use vstd::bytes::{
    lemma_auto_spec_u32_to_from_le_bytes, lemma_auto_spec_u64_to_from_le_bytes,
    spec_u32_to_le_bytes, spec_u64_to_le_bytes, u32_to_le_bytes, u64_to_le_bytes,
};
use vstd::prelude::*;

verus! {

/// Why a construction failed.
#[derive(Clone, Copy, Debug, PartialEq, Eq, Structural)]
pub enum ArchiveError {
    /// The load factor is no positive fraction of at most one.
    InvalidLoadFactor,
    /// The table, its plan or its place in the archive would be larger than
    /// a buffer can be.
    CapacityOverflow,
    /// A value could not be archived.
    Value,
    /// The sink refused a write.
    Writer,
}

/// An append-only sink for bytes.
pub trait Writer {
    /// The bytes written so far.
    spec fn written(&self) -> Seq<u8>;

    /// The position at which the next byte will be written.
    fn pos(&self) -> (pos: usize)
        ensures
            pos == self.written().len(),
    ;

    /// Appends `bytes`. A sink that refuses may have taken some of them.
    fn write(&mut self, bytes: &[u8]) -> (done: Result<(), ArchiveError>)
        ensures
            match done {
                Ok(()) => final(self).written() == old(self).written() + bytes@,
                Err(error) => error == ArchiveError::Writer && old(self).written().is_prefix_of(
                    final(self).written(),
                ),
            },
    ;
}

/// A buffer in memory takes every write that leaves it no longer than a
/// buffer can be.
impl Writer for Vec<u8> {
    open spec fn written(&self) -> Seq<u8> {
        self@
    }

    fn pos(&self) -> (pos: usize) {
        self.len()
    }

    /// Refuses only what would make the buffer longer than a buffer can be.
    fn write(&mut self, bytes: &[u8]) -> (done: Result<(), ArchiveError>)
        ensures
            done is Ok <==> old(self)@.len() + bytes@.len() <= isize::MAX,
            done is Err ==> final(self)@ == old(self)@,
    {
        let len = self.len();
        if len > isize::MAX as usize || bytes.len() > isize::MAX as usize - len {
            return Err(ArchiveError::Writer);
        }
        self.extend_from_slice(bytes);
        assert(self@ =~= old(self)@ + bytes@);
        Ok(())
    }
}

/// A sink together with the scratch memory of one pass.
pub struct Serializer<W> {
    /// Where the archive is written.
    pub writer: W,
    /// Scratch memory for the pass.
    pub arena: Arena,
}

impl<W: Writer> Serializer<W> {
    /// The scratch memory is well formed.
    pub open spec fn wf(&self) -> bool {
        self.arena.wf()
    }

    /// A serializer over `writer` with `arena` for scratch memory.
    pub fn new(writer: W, arena: Arena) -> (serializer: Self)
        requires
            arena.wf(),
        ensures
            serializer.wf(),
            serializer.writer == writer,
            serializer.arena == arena,
    {
        Serializer { writer, arena }
    }

    /// The sink and the scratch memory, apart again.
    pub fn into_parts(self) -> (parts: (W, Arena))
        ensures
            parts.0 == self.writer,
            parts.1 == self.arena,
    {
        (self.writer, self.arena)
    }

    /// The sink alone.
    pub fn into_writer(self) -> (writer: W)
        ensures
            writer == self.writer,
    {
        self.writer
    }
}

/// Takes in what one `serialize` returned. A resolver is put behind those
/// that are there, and the work goes on. An error stops the work: it comes
/// back as it is, and the resolvers stay as they were.
pub fn keep_or_stop<R>(done: Result<R, ArchiveError>, children: &mut Vec<R>) -> (stop: Option<
    ArchiveError,
>)
    ensures
        match done {
            Ok(resolver) => stop is None && final(children)@ == old(children)@.push(resolver),
            Err(error) => stop == Some(error) && final(children)@ == old(children)@,
        },
{
    match done {
        Ok(resolver) => {
            children.push(resolver);
            None
        },
        Err(error) => Some(error),
    }
}

/// An archived form: a value that takes a fixed number of bytes in the
/// archive and can be put down as those bytes.
pub trait Emit {
    /// The number of bytes that every value of the type takes.
    spec fn spec_width() -> nat;

    /// The bytes of the value.
    spec fn spec_bytes(&self) -> Seq<u8>;

    /// Every value takes `spec_width` bytes.
    proof fn lemma_width(&self)
        ensures
            self.spec_bytes().len() == Self::spec_width(),
    ;

    /// The number of bytes that every value of the type takes, if the
    /// machine's word can hold it.
    fn width() -> (width: Option<usize>)
        ensures
            width == (if Self::spec_width() <= usize::MAX {
                Some(Self::spec_width() as usize)
            } else {
                None
            }),
    ;

    /// Appends the bytes of the value to `writer`. A value that has no
    /// bytes, such as an offset that is too far, is refused before anything
    /// is written.
    fn emit<W: Writer>(&self, writer: &mut W) -> (done: Result<(), ArchiveError>)
        ensures
            match done {
                Ok(()) => final(writer).written() == old(writer).written() + self.spec_bytes(),
                Err(ArchiveError::Writer) => old(writer).written().is_prefix_of(
                    final(writer).written(),
                ),
                Err(error) => error == ArchiveError::Value && final(writer).written() == old(
                    writer,
                ).written(),
            },
    ;
}

/// The second step of archiving: from a resolver and the final position of
/// the archived form to that form.
pub trait Resolve: Sized {
    /// The archived form.
    type Archived: Emit;

    /// The archived form at position `pos`.
    spec fn resolved(self, pos: nat) -> Self::Archived;

    /// Finishes the archived form for position `pos`.
    fn resolve(self, pos: usize) -> (archived: Self::Archived)
        requires
            pos + <Self::Archived as Emit>::spec_width() <= usize::MAX,
        ensures
            archived == self.resolved(pos as nat),
    ;
}

/// The first step of archiving.
pub trait Serialize {
    /// What `serialize` leaves for the second step.
    type Resolver: Resolve;

    /// `resolver` resolves to an archived form of this value.
    spec fn archives(&self, resolver: Self::Resolver) -> bool;

    /// No value of this type ever fails to serialize.
    spec fn infallible() -> bool;

    /// `error` is an error with which this value may fail to serialize.
    spec fn fails_with(&self, error: ArchiveError) -> bool;

    /// Writes what the value keeps out of line and returns its resolver.
    /// What was written before stays as it was, and the scratch memory is
    /// given back.
    fn serialize<W: Writer>(&self, serializer: &mut Serializer<W>) -> (done: Result<
        Self::Resolver,
        ArchiveError,
    >)
        requires
            old(serializer).wf(),
        ensures
            final(serializer).wf(),
            final(serializer).arena.spec_used() == old(serializer).arena.spec_used(),
            old(serializer).writer.written().is_prefix_of(final(serializer).writer.written()),
            match done {
                Ok(resolver) => self.archives(resolver),
                Err(error) => {
                    &&& !Self::infallible()
                    &&& self.fails_with(error)
                    &&& error == ArchiveError::Value || error == ArchiveError::Writer
                },
            },
    ;
}

/// The 64 bits of a signed integer, in two's complement.
pub open spec fn i64_bits(value: i64) -> u64 {
    if value >= 0 {
        value as u64
    } else {
        (value + 0x1_0000_0000_0000_0000) as u64
    }
}

/// The 32 bits of a signed integer, in two's complement.
pub open spec fn i32_bits(value: i32) -> u32 {
    if value >= 0 {
        value as u32
    } else {
        (value + 0x1_0000_0000) as u32
    }
}

/// Computes the 64 bits of a signed integer.
pub fn i64_to_bits(value: i64) -> (bits: u64)
    ensures
        bits == i64_bits(value),
{
    if value >= 0 {
        value as u64
    } else {
        (value as i128 + 0x1_0000_0000_0000_0000i128) as u64
    }
}

/// Computes the 32 bits of a signed integer.
pub fn i32_to_bits(value: i32) -> (bits: u32)
    ensures
        bits == i32_bits(value),
{
    if value >= 0 {
        value as u32
    } else {
        (value as i64 + 0x1_0000_0000i64) as u32
    }
}

/// A number is put down in eight bytes, the lowest first.
impl Emit for u64 {
    open spec fn spec_width() -> nat {
        8
    }

    /// The value in little-endian order.
    open spec fn spec_bytes(&self) -> Seq<u8> {
        spec_u64_to_le_bytes(*self)
    }

    proof fn lemma_width(&self) {
        lemma_auto_spec_u64_to_from_le_bytes();
    }

    fn width() -> (width: Option<usize>) {
        Some(8)
    }

    /// Fails only where the sink refuses the bytes.
    fn emit<W: Writer>(&self, writer: &mut W) -> (done: Result<(), ArchiveError>)
        ensures
            done is Err ==> done == Err::<(), ArchiveError>(ArchiveError::Writer),
    {
        let bytes = u64_to_le_bytes(*self);
        writer.write(bytes.as_slice())
    }
}

/// A number is its own resolver: it is the same at every position.
impl Resolve for u64 {
    type Archived = u64;

    open spec fn resolved(self, pos: nat) -> u64 {
        self
    }

    fn resolve(self, pos: usize) -> (archived: u64) {
        self
    }
}

/// A number keeps nothing out of line, so nothing is written for it.
impl Serialize for u64 {
    type Resolver = u64;

    open spec fn archives(&self, resolver: u64) -> bool {
        resolver == *self
    }

    open spec fn infallible() -> bool {
        true
    }

    open spec fn fails_with(&self, error: ArchiveError) -> bool {
        false
    }

    fn serialize<W: Writer>(&self, serializer: &mut Serializer<W>) -> (done: Result<
        u64,
        ArchiveError,
    >) {
        Ok(*self)
    }
}

/// A number is put down in four bytes, the lowest first.
impl Emit for u32 {
    open spec fn spec_width() -> nat {
        4
    }

    /// The value in little-endian order.
    open spec fn spec_bytes(&self) -> Seq<u8> {
        spec_u32_to_le_bytes(*self)
    }

    proof fn lemma_width(&self) {
        lemma_auto_spec_u32_to_from_le_bytes();
    }

    fn width() -> (width: Option<usize>) {
        Some(4)
    }

    /// Fails only where the sink refuses the bytes.
    fn emit<W: Writer>(&self, writer: &mut W) -> (done: Result<(), ArchiveError>)
        ensures
            done is Err ==> done == Err::<(), ArchiveError>(ArchiveError::Writer),
    {
        let bytes = u32_to_le_bytes(*self);
        writer.write(bytes.as_slice())
    }
}

/// A number is its own resolver: it is the same at every position.
impl Resolve for u32 {
    type Archived = u32;

    open spec fn resolved(self, pos: nat) -> u32 {
        self
    }

    fn resolve(self, pos: usize) -> (archived: u32) {
        self
    }
}

/// A number keeps nothing out of line, so nothing is written for it.
impl Serialize for u32 {
    type Resolver = u32;

    open spec fn archives(&self, resolver: u32) -> bool {
        resolver == *self
    }

    open spec fn infallible() -> bool {
        true
    }

    open spec fn fails_with(&self, error: ArchiveError) -> bool {
        false
    }

    fn serialize<W: Writer>(&self, serializer: &mut Serializer<W>) -> (done: Result<
        u32,
        ArchiveError,
    >) {
        Ok(*self)
    }
}

/// A number is put down as the eight bytes of its two's complement, the lowest first.
impl Emit for i64 {
    open spec fn spec_width() -> nat {
        8
    }

    /// The value in little-endian order.
    open spec fn spec_bytes(&self) -> Seq<u8> {
        spec_u64_to_le_bytes(i64_bits(*self))
    }

    proof fn lemma_width(&self) {
        lemma_auto_spec_u64_to_from_le_bytes();
    }

    fn width() -> (width: Option<usize>) {
        Some(8)
    }

    /// Fails only where the sink refuses the bytes.
    fn emit<W: Writer>(&self, writer: &mut W) -> (done: Result<(), ArchiveError>)
        ensures
            done is Err ==> done == Err::<(), ArchiveError>(ArchiveError::Writer),
    {
        let bytes = u64_to_le_bytes(i64_to_bits(*self));
        writer.write(bytes.as_slice())
    }
}

/// A number is its own resolver: it is the same at every position.
impl Resolve for i64 {
    type Archived = i64;

    open spec fn resolved(self, pos: nat) -> i64 {
        self
    }

    fn resolve(self, pos: usize) -> (archived: i64) {
        self
    }
}

/// A number keeps nothing out of line, so nothing is written for it.
impl Serialize for i64 {
    type Resolver = i64;

    open spec fn archives(&self, resolver: i64) -> bool {
        resolver == *self
    }

    open spec fn infallible() -> bool {
        true
    }

    open spec fn fails_with(&self, error: ArchiveError) -> bool {
        false
    }

    fn serialize<W: Writer>(&self, serializer: &mut Serializer<W>) -> (done: Result<
        i64,
        ArchiveError,
    >) {
        Ok(*self)
    }
}

/// A number is put down as the four bytes of its two's complement, the lowest first.
impl Emit for i32 {
    open spec fn spec_width() -> nat {
        4
    }

    /// The value in little-endian order.
    open spec fn spec_bytes(&self) -> Seq<u8> {
        spec_u32_to_le_bytes(i32_bits(*self))
    }

    proof fn lemma_width(&self) {
        lemma_auto_spec_u32_to_from_le_bytes();
    }

    fn width() -> (width: Option<usize>) {
        Some(4)
    }

    /// Fails only where the sink refuses the bytes.
    fn emit<W: Writer>(&self, writer: &mut W) -> (done: Result<(), ArchiveError>)
        ensures
            done is Err ==> done == Err::<(), ArchiveError>(ArchiveError::Writer),
    {
        let bytes = u32_to_le_bytes(i32_to_bits(*self));
        writer.write(bytes.as_slice())
    }
}

/// A number is its own resolver: it is the same at every position.
impl Resolve for i32 {
    type Archived = i32;

    open spec fn resolved(self, pos: nat) -> i32 {
        self
    }

    fn resolve(self, pos: usize) -> (archived: i32) {
        self
    }
}

/// A number keeps nothing out of line, so nothing is written for it.
impl Serialize for i32 {
    type Resolver = i32;

    open spec fn archives(&self, resolver: i32) -> bool {
        resolver == *self
    }

    open spec fn infallible() -> bool {
        true
    }

    open spec fn fails_with(&self, error: ArchiveError) -> bool {
        false
    }

    fn serialize<W: Writer>(&self, serializer: &mut Serializer<W>) -> (done: Result<
        i32,
        ArchiveError,
    >) {
        Ok(*self)
    }
}

} // verus!
