//! Hashes of keys, and the comparison of a key that is looked up with a key
//! that is stored.
//!
//! A table finds a key again only if the key hashes alike when it is put in
//! and when it is looked up. So a hash here is a function of the key's
//! value, stated as such.

use crate::ser::{Resolve, Serialize};
use vstd::prelude::*;

verus! {

/// A key with a hash that depends on its value alone.
pub trait HashKey {
    /// The hash of the key.
    spec fn hash_spec(&self) -> u64;

    /// Computes the hash of the key.
    fn hash_key(&self) -> (hash: u64)
        ensures
            hash == self.hash_spec(),
    ;
}

/// A key that can be compared with stored keys of type `K`.
pub trait Equivalent<K> {
    /// Whether this key and `stored` are the same key.
    spec fn equivalent_spec(&self, stored: &K) -> bool;

    /// Decides whether this key and `stored` are the same key.
    fn equivalent(&self, stored: &K) -> (same: bool)
        ensures
            same == self.equivalent_spec(stored),
    ;
}

/// A key that is archived and looked up again: it finds its own archived
/// form, and no other key's.
pub trait ArchiveKey: Serialize + HashKey + Equivalent<
    <<Self as Serialize>::Resolver as Resolve>::Archived,
> + Sized {
    /// Whether this key and `other` are the same key.
    spec fn same_key(&self, other: &Self) -> bool;

    /// A key is the same key as itself. It is the same key as an archived
    /// form, at whatever position, exactly where it is the same key as the
    /// key that was archived, and then the two hash alike.
    proof fn lemma_same_key(&self, other: &Self, resolver: Self::Resolver, pos: nat)
        requires
            other.archives(resolver),
        ensures
            self.same_key(self),
            self.equivalent_spec(&resolver.resolved(pos)) == self.same_key(other),
            self.same_key(other) ==> self.hash_spec() == other.hash_spec(),
    ;
}

/// The hash of `key`.
pub fn hash_value<Q: HashKey>(key: &Q) -> (hash: u64)
    ensures
        hash == key.hash_spec(),
{
    key.hash_key()
}

/// The hash of no bytes.
pub const HASH_SEED: u64 = 0xcbf2_9ce4_8422_2325;

/// The factor by which the hash is multiplied after each byte.
pub const HASH_PRIME: u64 = 0x0000_0100_0000_01b3;

/// The hash of a sequence of bytes: from the seed, for each byte in order,
/// the byte is mixed into the low bits and the whole is multiplied by the
/// prime, modulo two to the 64.
pub open spec fn hash_bytes_spec(bytes: Seq<u8>) -> u64
    decreases bytes.len(),
{
    if bytes.len() == 0 {
        HASH_SEED
    } else {
        (hash_bytes_spec(bytes.drop_last()) ^ (bytes.last() as u64)).wrapping_mul(HASH_PRIME)
    }
}

/// Computes the hash of `bytes`.
pub fn hash_bytes(bytes: &[u8]) -> (hash: u64)
    ensures
        hash == hash_bytes_spec(bytes@),
{
    let mut hash = HASH_SEED;
    let mut i: usize = 0;
    while i < bytes.len()
        invariant
            i <= bytes@.len(),
            hash == hash_bytes_spec(bytes@.subrange(0, i as int)),
        decreases bytes@.len() - i,
    {
        assert(bytes@.subrange(0, i + 1).drop_last() =~= bytes@.subrange(0, i as int));
        hash = (hash ^ (bytes[i] as u64)).wrapping_mul(HASH_PRIME);
        i = i + 1;
    }
    assert(bytes@.subrange(0, i as int) =~= bytes@);
    hash
}

/// A number without sign is its own hash.
impl HashKey for u64 {
    open spec fn hash_spec(&self) -> u64 {
        *self
    }

    fn hash_key(&self) -> (hash: u64) {
        *self
    }
}

/// A number finds itself: it is archived as it is.
impl ArchiveKey for u64 {
    open spec fn same_key(&self, other: &u64) -> bool {
        *self == *other
    }

    proof fn lemma_same_key(&self, other: &u64, resolver: u64, pos: nat) {
    }
}

/// Numbers are the same key where they are equal.
impl Equivalent<u64> for u64 {
    open spec fn equivalent_spec(&self, stored: &u64) -> bool {
        *self == *stored
    }

    fn equivalent(&self, stored: &u64) -> (same: bool) {
        *self == *stored
    }
}

/// A number without sign is its own hash.
impl HashKey for u32 {
    open spec fn hash_spec(&self) -> u64 {
        *self as u64
    }

    fn hash_key(&self) -> (hash: u64) {
        *self as u64
    }
}

/// A number finds itself: it is archived as it is.
impl ArchiveKey for u32 {
    open spec fn same_key(&self, other: &u32) -> bool {
        *self == *other
    }

    proof fn lemma_same_key(&self, other: &u32, resolver: u32, pos: nat) {
    }
}

/// Numbers are the same key where they are equal.
impl Equivalent<u32> for u32 {
    open spec fn equivalent_spec(&self, stored: &u32) -> bool {
        *self == *stored
    }

    fn equivalent(&self, stored: &u32) -> (same: bool) {
        *self == *stored
    }
}

/// A number with sign hashes to its place among the numbers of its type.
impl HashKey for i64 {
    /// The key's place among the 64-bit integers, counted from the least.
    open spec fn hash_spec(&self) -> u64 {
        (*self + 0x8000_0000_0000_0000) as u64
    }

    fn hash_key(&self) -> (hash: u64) {
        (*self as i128 + 0x8000_0000_0000_0000i128) as u64
    }
}

/// A number finds itself: it is archived as it is.
impl ArchiveKey for i64 {
    open spec fn same_key(&self, other: &i64) -> bool {
        *self == *other
    }

    proof fn lemma_same_key(&self, other: &i64, resolver: i64, pos: nat) {
    }
}

/// Numbers are the same key where they are equal.
impl Equivalent<i64> for i64 {
    open spec fn equivalent_spec(&self, stored: &i64) -> bool {
        *self == *stored
    }

    fn equivalent(&self, stored: &i64) -> (same: bool) {
        *self == *stored
    }
}

/// A number with sign hashes to its place among the numbers of its type.
impl HashKey for i32 {
    /// The key's place among the 32-bit integers, counted from the least.
    open spec fn hash_spec(&self) -> u64 {
        (*self + 0x8000_0000) as u64
    }

    fn hash_key(&self) -> (hash: u64) {
        (*self as i64 + 0x8000_0000i64) as u64
    }
}

/// A number finds itself: it is archived as it is.
impl ArchiveKey for i32 {
    open spec fn same_key(&self, other: &i32) -> bool {
        *self == *other
    }

    proof fn lemma_same_key(&self, other: &i32, resolver: i32, pos: nat) {
    }
}

/// Numbers are the same key where they are equal.
impl Equivalent<i32> for i32 {
    open spec fn equivalent_spec(&self, stored: &i32) -> bool {
        *self == *stored
    }

    fn equivalent(&self, stored: &i32) -> (same: bool) {
        *self == *stored
    }
}

} // verus!
