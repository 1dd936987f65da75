//! The archived hash map: a table of entries, looked up by key.

use crate::capacity::{is_capacity, valid_load_factor};
use crate::hash::{hash_value, Equivalent, HashKey};
use crate::plan::is_plan;
use crate::probe::{
    hit, lemma_hit_is_search, lemma_hit_weaken, lemma_miss_is_search, lemma_miss_weaken, miss,
    search,
};
use crate::ser::{ArchiveError, Emit, Resolve, Serialize, Serializer, Writer};
use crate::layout::{table_bytes, HEADER_SIZE};
use crate::table::{
    accepted_by, callable_on, holds_exactly, items_from, lemma_items_behind_stay, lemma_no_items_left,
    rejected_by, ArchivedHashTable, HashTableResolver, RawIter,
};
use vstd::prelude::*;

verus! {

/// A key with its value, as one slot of the table holds them.
#[derive(Debug)]
pub struct Entry<K, V> {
    /// The key, which stays as it was written.
    pub key: K,
    /// The value, which may be written to in place.
    pub value: V,
}

/// A key and a value that are about to be archived as one entry.
pub struct EntryAdapter<'a, KU, VU> {
    /// The key.
    pub key: &'a KU,
    /// The value.
    pub value: &'a VU,
}

/// The resolvers of the two halves of an entry.
pub struct EntryResolver<KR, VR> {
    /// The resolver of the key.
    pub key: KR,
    /// The resolver of the value.
    pub value: VR,
}

/// An entry is put down as its key and, behind the key, its value.
impl<K: Emit, V: Emit> Emit for Entry<K, V> {
    open spec fn spec_width() -> nat {
        K::spec_width() + V::spec_width()
    }

    /// The bytes of the key, then the bytes of the value.
    open spec fn spec_bytes(&self) -> Seq<u8> {
        self.key.spec_bytes() + self.value.spec_bytes()
    }

    proof fn lemma_width(&self) {
        self.key.lemma_width();
        self.value.lemma_width();
    }

    fn width() -> (width: Option<usize>) {
        match K::width() {
            Some(key) => match V::width() {
                Some(value) => key.checked_add(value),
                None => None,
            },
            None => None,
        }
    }

    /// Writes nothing where the key or the value has no bytes.
    fn emit<W: Writer>(&self, writer: &mut W) -> (done: Result<(), ArchiveError>) {
        let mut bytes: Vec<u8> = Vec::new();
        match self.key.emit(&mut bytes) {
            Ok(()) => {},
            Err(_) => {
                return Err(ArchiveError::Value);
            },
        }
        match self.value.emit(&mut bytes) {
            Ok(()) => {},
            Err(_) => {
                return Err(ArchiveError::Value);
            },
        }
        writer.write(bytes.as_slice())
    }
}

/// An entry is resolved half by half, each half for its own position.
impl<KR: Resolve, VR: Resolve> Resolve for EntryResolver<KR, VR> {
    type Archived = Entry<KR::Archived, VR::Archived>;

    /// The key lies at the entry's position and the value behind the key.
    open spec fn resolved(self, pos: nat) -> Entry<KR::Archived, VR::Archived> {
        Entry {
            key: self.key.resolved(pos),
            value: self.value.resolved(pos + <KR::Archived as Emit>::spec_width()),
        }
    }

    fn resolve(self, pos: usize) -> (archived: Entry<KR::Archived, VR::Archived>) {
        let ghost key_width = <KR::Archived as Emit>::spec_width();
        let ghost value_width = <VR::Archived as Emit>::spec_width();
        assert(<Entry<KR::Archived, VR::Archived> as Emit>::spec_width() == key_width
            + value_width);
        let key_size = match <KR::Archived as Emit>::width() {
            Some(size) => size,
            None => 0,
        };
        assert(key_size == key_width);
        let key = self.key.resolve(pos);
        let value = self.value.resolve(pos + key_size);
        Entry { key, value }
    }
}

/// Joins the resolver of a key with what the `serialize` of its value
/// returned: the two make the resolver of the entry, and an error of the
/// value comes back as it is.
pub fn entry_or_stop<KR, VR>(key: KR, value: Result<VR, ArchiveError>) -> (done: Result<
    EntryResolver<KR, VR>,
    ArchiveError,
>)
    ensures
        match value {
            Ok(value) => done == Ok::<EntryResolver<KR, VR>, ArchiveError>(
                EntryResolver { key, value },
            ),
            Err(error) => done == Err::<EntryResolver<KR, VR>, ArchiveError>(error),
        },
{
    match value {
        Ok(value) => Ok(EntryResolver { key, value }),
        Err(error) => Err(error),
    }
}

/// An entry serializes what its key and its value keep out of line.
impl<'a, KU: Serialize, VU: Serialize> Serialize for EntryAdapter<'a, KU, VU> {
    type Resolver = EntryResolver<KU::Resolver, VU::Resolver>;

    open spec fn archives(&self, resolver: EntryResolver<KU::Resolver, VU::Resolver>) -> bool {
        self.key.archives(resolver.key) && self.value.archives(resolver.value)
    }

    open spec fn infallible() -> bool {
        KU::infallible() && VU::infallible()
    }

    /// An entry fails with what its key or its value fails with.
    open spec fn fails_with(&self, error: ArchiveError) -> bool {
        self.key.fails_with(error) || self.value.fails_with(error)
    }

    /// Serializes the key, then the value.
    fn serialize<W: Writer>(&self, serializer: &mut Serializer<W>) -> (done: Result<
        EntryResolver<KU::Resolver, VU::Resolver>,
        ArchiveError,
    >) {
        match self.key.serialize(serializer) {
            Ok(key) => entry_or_stop(key, self.value.serialize(serializer)),
            Err(error) => Err(error),
        }
    }
}

/// The entries that `same` may answer `true` for when asked with `key`.
pub open spec fn key_accepted<K, V, Q, C: Fn(&Q, &K) -> bool>(same: C, key: &Q) -> spec_fn(
    Entry<K, V>,
) -> bool {
    |entry: Entry<K, V>| call_ensures(same, (key, &entry.key), true)
}

/// The entries that `same` may answer `false` for when asked with `key`.
pub open spec fn key_rejected<K, V, Q, C: Fn(&Q, &K) -> bool>(same: C, key: &Q) -> spec_fn(
    Entry<K, V>,
) -> bool {
    |entry: Entry<K, V>| call_ensures(same, (key, &entry.key), false)
}

/// `same` may be asked with `key` about every key that the slots hold.
pub open spec fn comparable<K, V, Q, C: Fn(&Q, &K) -> bool>(
    same: C,
    key: &Q,
    slots: Seq<Option<Entry<K, V>>>,
) -> bool {
    forall|b: int|
        0 <= b < slots.len() && (#[trigger] slots[b]) is Some ==> call_requires(
            same,
            (key, &slots[b].unwrap().key),
        )
}

/// `same` may be asked whether `key` and `stored` are the same key.
pub open spec fn may_ask<K, Q, C: Fn(&Q, &K) -> bool>(same: &C, key: &Q, stored: &K) -> bool {
    call_requires(*same, (key, stored))
}

/// `same` may give `answer` when asked whether `key` and `stored` are the
/// same key.
pub open spec fn may_answer<K, Q, C: Fn(&Q, &K) -> bool>(
    same: &C,
    key: &Q,
    stored: &K,
    answer: bool,
) -> bool {
    call_ensures(*same, (key, stored), answer)
}

/// The entries whose key is `key`.
pub open spec fn wanted_key<K, V, Q: Equivalent<K>>(key: &Q) -> spec_fn(Entry<K, V>) -> bool {
    |entry: Entry<K, V>| key.equivalent_spec(&entry.key)
}

/// The hash of the key of each pair.
pub open spec fn key_hashes<KU: HashKey, VU>(pairs: Seq<(&KU, &VU)>) -> Seq<u64> {
    Seq::new(pairs.len(), |i: int| pairs[i].0.hash_spec())
}

/// What the planning of a map leaves for its writing.
pub struct HashMapResolver<KR, VR>(HashTableResolver<EntryResolver<KR, VR>>);

impl<KR: Resolve, VR: Resolve> HashMapResolver<KR, VR> {
    /// The resolver of the table of entries.
    pub closed spec fn table(&self) -> HashTableResolver<EntryResolver<KR, VR>> {
        self.0
    }

    /// The capacity of the map.
    pub fn capacity(&self) -> (capacity: usize)
        ensures
            capacity == self.table().spec_capacity(),
    {
        self.0.capacity()
    }

    /// The number of entries.
    pub fn len(&self) -> (len: usize)
        ensures
            len == self.table().children().len(),
    {
        self.0.len()
    }

    /// Whether this is a plan for `len` entries at the load factor
    /// `load_factor.0 / load_factor.1`.
    pub fn planned_for(&self, len: usize, load_factor: (usize, usize)) -> (planned: bool)
        ensures
            planned == (self.table().children().len() == len && is_capacity(
                self.table().spec_capacity(),
                len as nat,
                load_factor,
            )),
    {
        self.0.planned_for(len, load_factor)
    }

    /// Whether the map, written at position `pos`, ends where a buffer can
    /// end.
    pub fn fits_at(&self, pos: usize) -> (fits: bool)
        ensures
            fits == self.table().fits(pos as nat),
    {
        self.0.fits_at(pos)
    }
}

/// An archived hash map from keys of type `K` to values of type `V`.
#[derive(Debug)]
pub struct ArchivedHashMap<K, V> {
    table: ArchivedHashTable<Entry<K, V>>,
}

impl<K, V> View for ArchivedHashMap<K, V> {
    type V = Seq<Option<Entry<K, V>>>;

    /// What each bucket holds.
    closed spec fn view(&self) -> Seq<Option<Entry<K, V>>> {
        self.table@
    }
}

impl<K, V> ArchivedHashMap<K, V> {
    /// The table is well formed.
    pub closed spec fn wf(&self) -> bool {
        self.table.wf()
    }

    /// The bucket in which a lookup of `key` ends, if it finds the key.
    pub open spec fn lookup<Q: HashKey + Equivalent<K>>(&self, key: &Q) -> Option<int> {
        search(self@, key.hash_spec(), wanted_key(key))
    }

    /// The map has an entry for the key of `entry`, with a value that is
    /// the same as the value of `entry`.
    pub open spec fn agrees_with(&self, entry: Entry<K, V>) -> bool where
        K: HashKey + Equivalent<K>,
        V: Equivalent<V>,
    {
        match self.lookup(&entry.key) {
            Some(bucket) => match self@[bucket] {
                Some(found) => entry.value.equivalent_spec(&found.value),
                None => false,
            },
            None => false,
        }
    }

    /// The two maps have the same number of entries, and `other` has, for
    /// the key of every entry of this map, an entry with the same value.
    pub open spec fn same_entries(&self, other: &Self) -> bool where
        K: HashKey + Equivalent<K>,
        V: Equivalent<V>,
    {
        &&& items_from(self@, 0).len() == items_from(other@, 0).len()
        &&& forall|b: int|
            0 <= b < self@.len() && (#[trigger] self@[b]) is Some ==> other.agrees_with(
                self@[b].unwrap(),
            )
    }

    /// A well-formed map is no larger than a buffer can be, and holds no
    /// more entries than it has slots.
    pub proof fn lemma_wf(&self)
        requires
            self.wf(),
        ensures
            HEADER_SIZE + self@.len() <= isize::MAX,
            items_from(self@, 0).len() <= self@.len(),
    {
        self.table.lemma_wf();
    }

    /// A map without slots.
    pub fn new() -> (map: Self)
        ensures
            map.wf(),
            map@.len() == 0,
    {
        ArchivedHashMap { table: ArchivedHashTable::new() }
    }

    /// The key and the value of the first entry on the walk of the hash of
    /// `key` that `same` accepts, unless an empty slot or the end of the
    /// walk comes first.
    pub fn get_key_value_with<Q: HashKey, C: Fn(&Q, &K) -> bool>(&self, key: &Q, same: C) -> (found:
        Option<(&K, &V)>)
        requires
            self.wf(),
            comparable(same, key, self@),
        ensures
            match found {
                Some((k, v)) => exists|bucket: int|
                    {
                        &&& #[trigger] hit(
                            self@,
                            key.hash_spec(),
                            key_accepted(same, key),
                            key_rejected(same, key),
                            bucket,
                        )
                        &&& 0 <= bucket < self@.len()
                        &&& self@[bucket] == Some(Entry { key: *k, value: *v })
                    },
                None => miss(self@, key.hash_spec(), key_rejected(same, key)),
            },
    {
        let hash = hash_value(key);
        let same = &same;
        let pred = |entry: &Entry<K, V>| -> (same_key: bool)
            requires
                may_ask(same, key, &entry.key),
            ensures
                may_answer(same, key, &entry.key, same_key),
            { same(key, &entry.key) };
        assert(callable_on(pred, self.table@)) by {
            assert forall|b: int|
                0 <= b < self.table@.len() && (#[trigger] self.table@[b]) is Some implies call_requires(
                pred,
                (&self.table@[b].unwrap(),),
            ) by {
                assert(call_requires(*same, (key, &self@[b].unwrap().key)));
            }
        }
        match self.table.get_with(hash, pred) {
            Some(entry) => {
                proof {
                    let bucket = choose|bucket: int|
                        {
                            &&& #[trigger] hit(
                                self.table@,
                                hash,
                                accepted_by(pred),
                                rejected_by(pred),
                                bucket,
                            )
                            &&& 0 <= bucket < self.table@.len()
                            &&& self.table@[bucket] == Some(*entry)
                        };
                    lemma_hit_weaken(
                        self@,
                        hash,
                        accepted_by(pred),
                        rejected_by(pred),
                        key_accepted(*same, key),
                        key_rejected(*same, key),
                        bucket,
                    );
                }
                Some((&entry.key, &entry.value))
            },
            None => {
                proof {
                    lemma_miss_weaken(
                        self@,
                        hash,
                        rejected_by(pred),
                        key_rejected(*same, key),
                    );
                }
                None
            },
        }
    }

    /// The key and the value of the entry for `key`, if the map holds one.
    pub fn get_key_value<Q: HashKey + Equivalent<K>>(&self, key: &Q) -> (found: Option<(&K, &V)>)
        requires
            self.wf(),
        ensures
            match found {
                Some((k, v)) => match self.lookup(key) {
                    Some(bucket) => 0 <= bucket < self@.len() && self@[bucket] == Some(
                        Entry { key: *k, value: *v },
                    ),
                    None => false,
                },
                None => self.lookup(key) is None,
            },
    {
        let same = |q: &Q, k: &K| -> (same: bool)
            ensures
                same == q.equivalent_spec(k),
            { q.equivalent(k) };
        let found = self.get_key_value_with(key, same);
        proof {
            let wanted = wanted_key::<K, V, Q>(key);
            let accepted = key_accepted::<K, V, Q, _>(same, key);
            let rejected = key_rejected::<K, V, Q, _>(same, key);
            assert forall|entry: Entry<K, V>| #[trigger] accepted(entry) implies wanted(entry) by {}
            assert forall|entry: Entry<K, V>| #[trigger] rejected(entry) implies !wanted(entry) by {}
            match found {
                Some((k, v)) => {
                    let bucket = choose|bucket: int|
                        {
                            &&& #[trigger] hit(self@, key.hash_spec(), accepted, rejected, bucket)
                            &&& 0 <= bucket < self@.len()
                            &&& self@[bucket] == Some(Entry { key: *k, value: *v })
                        };
                    lemma_hit_is_search(self@, key.hash_spec(), wanted, accepted, rejected, bucket);
                },
                None => {
                    lemma_miss_is_search(self@, key.hash_spec(), wanted, rejected);
                },
            }
        }
        found
    }

    /// The value of the first entry on the walk of the hash of `key` that
    /// `same` accepts, unless an empty slot or the end of the walk comes
    /// first.
    pub fn get_with<Q: HashKey, C: Fn(&Q, &K) -> bool>(&self, key: &Q, same: C) -> (found: Option<
        &V,
    >)
        requires
            self.wf(),
            comparable(same, key, self@),
        ensures
            match found {
                Some(v) => exists|bucket: int|
                    {
                        &&& #[trigger] hit(
                            self@,
                            key.hash_spec(),
                            key_accepted(same, key),
                            key_rejected(same, key),
                            bucket,
                        )
                        &&& 0 <= bucket < self@.len()
                        &&& self@[bucket] is Some
                        &&& self@[bucket].unwrap().value == *v
                    },
                None => miss(self@, key.hash_spec(), key_rejected(same, key)),
            },
    {
        match self.get_key_value_with(key, same) {
            Some((_, value)) => Some(value),
            None => None,
        }
    }

    /// The value for `key`, if the map holds one.
    pub fn get<Q: HashKey + Equivalent<K>>(&self, key: &Q) -> (found: Option<&V>)
        requires
            self.wf(),
        ensures
            match found {
                Some(v) => match self.lookup(key) {
                    Some(bucket) => 0 <= bucket < self@.len() && self@[bucket] is Some
                        && self@[bucket].unwrap().value == *v,
                    None => false,
                },
                None => self.lookup(key) is None,
            },
    {
        match self.get_key_value(key) {
            Some((_, value)) => Some(value),
            None => None,
        }
    }

    /// Whether the map holds an entry for `key`.
    pub fn contains_key<Q: HashKey + Equivalent<K>>(&self, key: &Q) -> (found: bool)
        requires
            self.wf(),
        ensures
            found == self.lookup(key) is Some,
    {
        self.get(key).is_some()
    }

    /// The value for a key that the map holds.
    pub fn index<Q: HashKey + Equivalent<K>>(&self, key: &Q) -> (value: &V)
        requires
            self.wf(),
            self.lookup(key) is Some,
        ensures
            self@[self.lookup(key).unwrap()] is Some,
            self@[self.lookup(key).unwrap()].unwrap().value == *value,
    {
        self.get(key).unwrap()
    }

    /// Whether the two maps have the same entries, in whatever order: the
    /// same number of them, and in `other`, for the key of every entry of
    /// this map, an entry with the same value.
    pub fn eq(&self, other: &Self) -> (equal: bool) where
        K: HashKey + Equivalent<K>,
        V: Equivalent<V>,

        requires
            self.wf(),
            other.wf(),
        ensures
            equal == self.same_entries(other),
    {
        if self.len() != other.len() {
            return false;
        }
        let mut cursor = self.table.raw_iter();
        while cursor.len() > 0
            invariant
                self.wf(),
                other.wf(),
                cursor.valid_for(self@),
                items_from(self@, 0).len() == items_from(other@, 0).len(),
                forall|b: int|
                    0 <= b < cursor.position() && (#[trigger] self@[b]) is Some
                        ==> other.agrees_with(self@[b].unwrap()),
            decreases cursor.remaining(),
        {
            match cursor.next(&self.table) {
                Some(bucket) => {
                    match self.table.slot(bucket) {
                        Some(entry) => {
                            let same = match other.get(&entry.key) {
                                Some(value) => entry.value.equivalent(value),
                                None => false,
                            };
                            if !same {
                                assert(!other.agrees_with(self@[bucket as int].unwrap()));
                                return false;
                            }
                        },
                        None => {},
                    }
                },
                None => {},
            }
        }
        proof {
            lemma_no_items_left(self@, cursor.position());
        }
        true
    }

    /// Whether the map holds no entry.
    pub fn is_empty(&self) -> (empty: bool)
        requires
            self.wf(),
        ensures
            empty == (items_from(self@, 0).len() == 0),
    {
        self.table.is_empty()
    }

    /// The number of entries.
    pub fn len(&self) -> (len: usize)
        requires
            self.wf(),
        ensures
            len == items_from(self@, 0).len(),
            len <= self@.len(),
    {
        self.table.len()
    }

    /// The number of slots.
    pub fn capacity(&self) -> (capacity: usize)
        requires
            self.wf(),
        ensures
            capacity == self@.len(),
    {
        self.table.capacity()
    }

    /// As `get_key_value_with`, with the value for writing: what is written
    /// replaces the value in its slot, and nothing else changes.
    pub fn get_key_value_mut_with<Q: HashKey, C: Fn(&Q, &K) -> bool>(
        &mut self,
        key: &Q,
        same: C,
    ) -> (found: Option<(&K, &mut V)>)
        requires
            old(self).wf(),
            comparable(same, key, old(self)@),
        ensures
            final(self).wf(),
            items_from(final(self)@, 0).len() == items_from(old(self)@, 0).len(),
            match found {
                Some((k, v)) => exists|bucket: int|
                    {
                        &&& #[trigger] hit(
                            old(self)@,
                            key.hash_spec(),
                            key_accepted(same, key),
                            key_rejected(same, key),
                            bucket,
                        )
                        &&& 0 <= bucket < old(self)@.len()
                        &&& old(self)@[bucket] == Some(Entry { key: *k, value: *v })
                        &&& final(self)@ == old(self)@.update(
                            bucket,
                            Some(Entry { key: *k, value: *final(v) }),
                        )
                    },
                None => miss(old(self)@, key.hash_spec(), key_rejected(same, key)) && final(self)@
                    == old(self)@,
            },
    {
        let hash = hash_value(key);
        let same = &same;
        let pred = |entry: &Entry<K, V>| -> (same_key: bool)
            requires
                may_ask(same, key, &entry.key),
            ensures
                may_answer(same, key, &entry.key, same_key),
            { same(key, &entry.key) };
        let ghost before = self.table@;
        assert(callable_on(pred, before)) by {
            assert forall|b: int|
                0 <= b < before.len() && (#[trigger] before[b]) is Some implies call_requires(
                pred,
                (&before[b].unwrap(),),
            ) by {
                assert(call_requires(*same, (key, &before[b].unwrap().key)));
            }
        }
        match self.table.find(hash, pred) {
            Some(bucket) => {
                proof {
                    lemma_hit_weaken(
                        before,
                        hash,
                        accepted_by(pred),
                        rejected_by(pred),
                        key_accepted(*same, key),
                        key_rejected(*same, key),
                        bucket as int,
                    );
                }
                match self.table.slot_mut(bucket) {
                    Some(entry) => Some((&entry.key, &mut entry.value)),
                    None => None,
                }
            },
            None => {
                proof {
                    lemma_miss_weaken(before, hash, rejected_by(pred), key_rejected(*same, key));
                }
                None
            },
        }
    }

    /// The key of the entry for `key`, and its value for writing, if the map
    /// holds one. What is written replaces the value in its slot, and
    /// nothing else changes.
    pub fn get_key_value_mut<Q: HashKey + Equivalent<K>>(&mut self, key: &Q) -> (found: Option<
        (&K, &mut V),
    >)
        requires
            old(self).wf(),
        ensures
            final(self).wf(),
            items_from(final(self)@, 0).len() == items_from(old(self)@, 0).len(),
            match found {
                Some((k, v)) => match old(self).lookup(key) {
                    Some(bucket) => {
                        &&& 0 <= bucket < old(self)@.len()
                        &&& old(self)@[bucket] == Some(Entry { key: *k, value: *v })
                        &&& final(self)@ == old(self)@.update(
                            bucket,
                            Some(Entry { key: *k, value: *final(v) }),
                        )
                    },
                    None => false,
                },
                None => old(self).lookup(key) is None && final(self)@ == old(self)@,
            },
    {
        let same = |q: &Q, k: &K| -> (same: bool)
            ensures
                same == q.equivalent_spec(k),
            { q.equivalent(k) };
        let ghost before = self@;
        proof {
            let wanted = wanted_key::<K, V, Q>(key);
            let accepted = key_accepted::<K, V, Q, _>(same, key);
            let rejected = key_rejected::<K, V, Q, _>(same, key);
            assert forall|entry: Entry<K, V>| #[trigger] accepted(entry) implies wanted(entry) by {}
            assert forall|entry: Entry<K, V>| #[trigger] rejected(entry) implies !wanted(entry) by {}
            assert forall|bucket: int| #[trigger]
                hit(before, key.hash_spec(), accepted, rejected, bucket) implies search(
                before,
                key.hash_spec(),
                wanted,
            ) == Some(bucket) by {
                lemma_hit_is_search(before, key.hash_spec(), wanted, accepted, rejected, bucket);
            }
            if miss(before, key.hash_spec(), rejected) {
                lemma_miss_is_search(before, key.hash_spec(), wanted, rejected);
            }
        }
        self.get_key_value_mut_with(key, same)
    }

    /// As `get_with`, for writing: what is written replaces the value in its
    /// slot, and nothing else changes.
    pub fn get_mut_with<Q: HashKey, C: Fn(&Q, &K) -> bool>(&mut self, key: &Q, same: C) -> (found:
        Option<&mut V>)
        requires
            old(self).wf(),
            comparable(same, key, old(self)@),
        ensures
            final(self).wf(),
            items_from(final(self)@, 0).len() == items_from(old(self)@, 0).len(),
            match found {
                Some(v) => exists|bucket: int|
                    {
                        &&& #[trigger] hit(
                            old(self)@,
                            key.hash_spec(),
                            key_accepted(same, key),
                            key_rejected(same, key),
                            bucket,
                        )
                        &&& 0 <= bucket < old(self)@.len()
                        &&& old(self)@[bucket] is Some
                        &&& old(self)@[bucket].unwrap().value == *v
                        &&& final(self)@ == old(self)@.update(
                            bucket,
                            Some(
                                Entry { key: old(self)@[bucket].unwrap().key, value: *final(v) },
                            ),
                        )
                    },
                None => miss(old(self)@, key.hash_spec(), key_rejected(same, key)) && final(self)@
                    == old(self)@,
            },
    {
        match self.get_key_value_mut_with(key, same) {
            Some((_, value)) => Some(value),
            None => None,
        }
    }

    /// The value for `key` for writing, if the map holds one. What is
    /// written replaces the value in its slot, and nothing else changes.
    pub fn get_mut<Q: HashKey + Equivalent<K>>(&mut self, key: &Q) -> (found: Option<&mut V>)
        requires
            old(self).wf(),
        ensures
            final(self).wf(),
            items_from(final(self)@, 0).len() == items_from(old(self)@, 0).len(),
            match found {
                Some(v) => match old(self).lookup(key) {
                    Some(bucket) => {
                        &&& 0 <= bucket < old(self)@.len()
                        &&& old(self)@[bucket] is Some
                        &&& old(self)@[bucket].unwrap().value == *v
                        &&& final(self)@ == old(self)@.update(
                            bucket,
                            Some(
                                Entry { key: old(self)@[bucket].unwrap().key, value: *final(v) },
                            ),
                        )
                    },
                    None => false,
                },
                None => old(self).lookup(key) is None && final(self)@ == old(self)@,
            },
    {
        match self.get_key_value_mut(key) {
            Some((_, value)) => Some(value),
            None => None,
        }
    }

    /// A cursor over the entries, in ascending bucket order.
    pub fn iter(&self) -> (entries: Iter<'_, K, V>)
        requires
            self.wf(),
        ensures
            entries.wf(),
            entries.rest() == items_from(self@, 0),
    {
        Iter { table: &self.table, raw: self.table.raw_iter() }
    }

    /// A cursor over the keys, in ascending bucket order.
    pub fn keys(&self) -> (keys: Keys<'_, K, V>)
        requires
            self.wf(),
        ensures
            keys.wf(),
            keys.rest() == items_from(self@, 0),
    {
        Keys { table: &self.table, raw: self.table.raw_iter() }
    }

    /// A cursor over the values, in ascending bucket order.
    pub fn values(&self) -> (values: Values<'_, K, V>)
        requires
            self.wf(),
        ensures
            values.wf(),
            values.rest() == items_from(self@, 0),
    {
        Values { table: &self.table, raw: self.table.raw_iter() }
    }

    /// A cursor over the values, in ascending bucket order, that hands out
    /// each value for writing.
    pub fn values_mut(&mut self) -> (values: ValuesMut<'_, K, V>)
        requires
            old(self).wf(),
        ensures
            values.wf(),
            values.rest() == items_from(old(self)@, 0),
            final(self)@ == final(values.table)@,
            final(self).wf() == final(values.table).wf(),
    {
        let raw = self.table.raw_iter();
        ValuesMut { table: &mut self.table, raw }
    }

    /// A cursor over the entries, in ascending bucket order, that hands out
    /// each value for writing.
    pub fn iter_mut(&mut self) -> (entries: IterMut<'_, K, V>)
        requires
            old(self).wf(),
        ensures
            entries.wf(),
            entries.rest() == items_from(old(self)@, 0),
            final(self)@ == final(entries.table)@,
            final(self).wf() == final(entries.table).wf(),
    {
        let raw = self.table.raw_iter();
        IterMut { table: &mut self.table, raw }
    }

    /// Appends the bytes of the map to `writer`: the header, the control
    /// tags, the slots. A failure leaves what was written by then.
    ///
    /// Nothing is written where an entry is wider than a buffer can be and
    /// the map has a slot.
    pub fn write_to<W: Writer>(&self, writer: &mut W) -> (done: Result<(), ArchiveError>) where
        K: Emit,
        V: Emit,

        requires
            self.wf(),
        ensures
            old(writer).written().is_prefix_of(final(writer).written()),
            match done {
                Ok(()) => final(writer).written() == old(writer).written() + table_bytes(self@),
                Err(ArchiveError::CapacityOverflow) => {
                    &&& K::spec_width() + V::spec_width() > isize::MAX
                    &&& self@.len() > 0
                    &&& final(writer).written() == old(writer).written()
                },
                Err(error) => {
                    &&& error == ArchiveError::Writer || error == ArchiveError::Value
                    &&& K::spec_width() + V::spec_width() <= isize::MAX || self@.len() == 0
                },
            },
    {
        self.table.write_to(writer)
    }

    /// Plans a map for `pairs` at the load factor
    /// `load_factor.0 / load_factor.1`: serializes every key and value, in
    /// order, and then gives each entry its bucket by the hash of its key.
    ///
    /// The load factor and the sizes are judged before anything is written.
    /// After that only a key or a value that fails to serialize stops the
    /// planning, so a planning of no pairs does not fail there. The first
    /// error comes back as it is, and nothing behind it is serialized: a
    /// value waits for its key (`entry_or_stop`), an entry for the entries
    /// before it (`keep_or_stop`). What was written by then stays written.
    pub fn serialize_from_iter<'a, KU, VU, W>(
        pairs: &[(&'a KU, &'a VU)],
        load_factor: (usize, usize),
        serializer: &mut Serializer<W>,
    ) -> (done: Result<HashMapResolver<KU::Resolver, VU::Resolver>, ArchiveError>) where
        K: Emit,
        V: Emit,
        KU: Serialize + HashKey,
        KU::Resolver: Resolve<Archived = K>,
        VU: Serialize,
        VU::Resolver: Resolve<Archived = V>,
        W: Writer,

        requires
            old(serializer).wf(),
        ensures
            final(serializer).wf(),
            final(serializer).arena.spec_used() == old(serializer).arena.spec_used(),
            old(serializer).writer.written().is_prefix_of(final(serializer).writer.written()),
            match done {
                Ok(resolver) => {
                    &&& valid_load_factor(load_factor)
                    &&& is_capacity(resolver.table().spec_capacity(), pairs@.len(), load_factor)
                    &&& old(serializer).arena.spec_used() + resolver.table().spec_capacity()
                        <= isize::MAX
                    &&& is_plan(
                        resolver.table().spec_capacity(),
                        key_hashes(pairs@),
                        resolver.table().buckets(),
                    )
                    &&& resolver.table().wf()
                    &&& resolver.table().children().len() == pairs@.len()
                    &&& forall|i: int|
                        0 <= i < pairs@.len() ==> {
                            let child = #[trigger] resolver.table().children()[i];
                            pairs@[i].0.archives(child.key) && pairs@[i].1.archives(child.value)
                        }
                },
                Err(ArchiveError::InvalidLoadFactor) => {
                    &&& !valid_load_factor(load_factor)
                    &&& final(serializer).writer.written() == old(serializer).writer.written()
                },
                Err(ArchiveError::CapacityOverflow) => {
                    &&& valid_load_factor(load_factor)
                    &&& forall|c: nat|
                        is_capacity(c, pairs@.len(), load_factor)
                            ==> old(serializer).arena.spec_used() + c > isize::MAX
                    &&& final(serializer).writer.written() == old(serializer).writer.written()
                },
                Err(error) => {
                    &&& error == ArchiveError::Value || error == ArchiveError::Writer
                    &&& valid_load_factor(load_factor)
                    &&& exists|c: nat|
                        is_capacity(c, pairs@.len(), load_factor)
                            && old(serializer).arena.spec_used() + c <= isize::MAX
                    &&& pairs@.len() > 0
                    &&& !(KU::infallible() && VU::infallible())
                    &&& exists|i: int|
                        0 <= i < pairs@.len() && ((#[trigger] pairs@[i]).0.fails_with(error)
                            || pairs@[i].1.fails_with(error))
                },
            },
    {
        let mut items: Vec<EntryAdapter<'a, KU, VU>> = Vec::new();
        let mut hashes: Vec<u64> = Vec::new();
        let mut i: usize = 0;
        while i < pairs.len()
            invariant
                i <= pairs@.len(),
                items@.len() == i,
                hashes@.len() == i,
                forall|k: int|
                    0 <= k < i ==> (#[trigger] items@[k]).key == pairs@[k].0 && items@[k].value
                        == pairs@[k].1,
                forall|k: int| 0 <= k < i ==> #[trigger] hashes@[k] == pairs@[k].0.hash_spec(),
            decreases pairs@.len() - i,
        {
            let (key, value) = pairs[i];
            items.push(EntryAdapter { key, value });
            hashes.push(hash_value(key));
            i = i + 1;
        }
        assert(hashes@ =~= key_hashes(pairs@));
        match ArchivedHashTable::<Entry<K, V>>::serialize_from_iter(
            items.as_slice(),
            hashes.as_slice(),
            load_factor,
            serializer,
        ) {
            Ok(resolver) => {
                assert forall|i: int| 0 <= i < pairs@.len() implies {
                    let child = #[trigger] resolver.children()[i];
                    pairs@[i].0.archives(child.key) && pairs@[i].1.archives(child.value)
                } by {}
                Ok(HashMapResolver(resolver))
            },
            Err(error) => Err(error),
        }
    }

    /// Writes the map that `resolver` plans into `out`, which will lie at
    /// position `pos` of the archive.
    ///
    /// `len` and `load_factor` are those of the planning.
    pub fn resolve_from_len<KR: Resolve<Archived = K>, VR: Resolve<Archived = V>>(
        len: usize,
        load_factor: (usize, usize),
        pos: usize,
        resolver: HashMapResolver<KR, VR>,
        out: &mut Self,
    ) where K: Emit, V: Emit
        requires
            resolver.table().wf(),
            resolver.table().children().len() == len,
            is_capacity(resolver.table().spec_capacity(), len as nat, load_factor),
            resolver.table().fits(pos as nat),
        ensures
            final(out).wf(),
            final(out)@.len() == resolver.table().spec_capacity(),
            holds_exactly(
                final(out)@,
                resolver.table().buckets(),
                resolver.table().archived(pos as nat),
            ),
            items_from(final(out)@, 0).len() == len,
    {
        ArchivedHashTable::<Entry<K, V>>::resolve_from_len(
            len,
            load_factor,
            pos,
            resolver.0,
            &mut out.table,
        )
    }
}

/// A cursor over the entries of a map, in ascending bucket order, that
/// hands out each value for writing.
pub struct IterMut<'a, K, V> {
    /// The table of the map, for as long as the cursor lives.
    pub table: &'a mut ArchivedHashTable<Entry<K, V>>,
    /// Where the cursor stands.
    pub raw: RawIter,
}

impl<'a, K, V> IterMut<'a, K, V> {
    /// The cursor stands inside a well-formed table.
    pub open spec fn wf(&self) -> bool {
        self.table.wf() && self.raw.valid_for(self.table@)
    }

    /// The entries that are still to come.
    pub open spec fn rest(&self) -> Seq<Entry<K, V>> {
        items_from(self.table@, self.raw.position())
    }

    /// The number of entries that are still to come.
    pub fn len(&self) -> (len: usize)
        requires
            self.wf(),
        ensures
            len == self.rest().len(),
    {
        self.raw.len()
    }

    /// The next entry: its key, and its value for writing.
    pub fn next(&mut self) -> (entry: Option<(&K, &mut V)>)
        requires
            old(self).wf(),
        ensures
            final(self).wf(),
            items_from(final(self).table@, 0).len() == items_from(old(self).table@, 0).len(),
            match entry {
                Some((k, v)) => {
                    &&& old(self).rest().len() > 0
                    &&& old(self).rest()[0] == Entry { key: *k, value: *v }
                    &&& final(self).rest() == old(self).rest().drop_first()
                    &&& exists|bucket: int|
                        {
                            &&& 0 <= bucket < old(self).table@.len()
                            &&& #[trigger] old(self).table@[bucket] == Some(
                                Entry { key: *k, value: *v },
                            )
                            &&& final(self).table@ == old(self).table@.update(
                                bucket,
                                Some(Entry { key: *k, value: *final(v) }),
                            )
                        }
                },
                None => {
                    &&& old(self).rest().len() == 0
                    &&& final(self).rest() == old(self).rest()
                    &&& final(self).table@ == old(self).table@
                },
            },
    {
        match self.raw.next(&*self.table) {
            Some(bucket) => {
                proof {
                    lemma_items_behind_stay(self.table@, bucket as int);
                }
                match self.table.slot_mut(bucket) {
                    Some(entry) => Some((&entry.key, &mut entry.value)),
                    None => None,
                }
            },
            None => None,
        }
    }
}

/// A cursor over the entries of a map, in ascending bucket order.
pub struct Iter<'a, K, V> {
    table: &'a ArchivedHashTable<Entry<K, V>>,
    raw: RawIter,
}

impl<'a, K, V> Iter<'a, K, V> {
    /// The cursor stands inside a well-formed table.
    pub closed spec fn wf(&self) -> bool {
        self.table.wf() && self.raw.valid_for(self.table@)
    }

    /// The entries that are still to come.
    pub closed spec fn rest(&self) -> Seq<Entry<K, V>> {
        items_from(self.table@, self.raw.position())
    }

    /// The number of entries that are still to come.
    pub fn len(&self) -> (len: usize)
        requires
            self.wf(),
        ensures
            len == self.rest().len(),
    {
        self.raw.len()
    }

    /// The key and the value of the next entry.
    pub fn next(&mut self) -> (entry: Option<(&'a K, &'a V)>)
        requires
            old(self).wf(),
        ensures
            final(self).wf(),
            match entry {
                Some((k, v)) => {
                    &&& old(self).rest().len() > 0
                    &&& old(self).rest()[0] == Entry { key: *k, value: *v }
                    &&& final(self).rest() == old(self).rest().drop_first()
                },
                None => old(self).rest().len() == 0 && final(self).rest() == old(self).rest(),
            },
    {
        let table = self.table;
        match self.raw.next(table) {
            Some(bucket) => {
                proof {
                    assert((seq![table@[bucket as int].unwrap()] + items_from(
                        table@,
                        bucket + 1,
                    )).drop_first() =~= items_from(table@, bucket + 1));
                }
                match table.slot(bucket) {
                    Some(entry) => Some((&entry.key, &entry.value)),
                    None => None,
                }
            },
            None => None,
        }
    }
}

/// A cursor over the keys of a map, in ascending bucket order.
pub struct Keys<'a, K, V> {
    table: &'a ArchivedHashTable<Entry<K, V>>,
    raw: RawIter,
}

impl<'a, K, V> Keys<'a, K, V> {
    /// The cursor stands inside a well-formed table.
    pub closed spec fn wf(&self) -> bool {
        self.table.wf() && self.raw.valid_for(self.table@)
    }

    /// The entries whose keys are still to come.
    pub closed spec fn rest(&self) -> Seq<Entry<K, V>> {
        items_from(self.table@, self.raw.position())
    }

    /// The number of keys that are still to come.
    pub fn len(&self) -> (len: usize)
        requires
            self.wf(),
        ensures
            len == self.rest().len(),
    {
        self.raw.len()
    }

    /// The next key.
    pub fn next(&mut self) -> (key: Option<&'a K>)
        requires
            old(self).wf(),
        ensures
            final(self).wf(),
            match key {
                Some(k) => {
                    &&& old(self).rest().len() > 0
                    &&& old(self).rest()[0].key == *k
                    &&& final(self).rest() == old(self).rest().drop_first()
                },
                None => old(self).rest().len() == 0 && final(self).rest() == old(self).rest(),
            },
    {
        let table = self.table;
        match self.raw.next(table) {
            Some(bucket) => {
                proof {
                    assert((seq![table@[bucket as int].unwrap()] + items_from(
                        table@,
                        bucket + 1,
                    )).drop_first() =~= items_from(table@, bucket + 1));
                }
                match table.slot(bucket) {
                    Some(entry) => Some(&entry.key),
                    None => None,
                }
            },
            None => None,
        }
    }
}

/// A cursor over the values of a map, in ascending bucket order.
pub struct Values<'a, K, V> {
    table: &'a ArchivedHashTable<Entry<K, V>>,
    raw: RawIter,
}

impl<'a, K, V> Values<'a, K, V> {
    /// The cursor stands inside a well-formed table.
    pub closed spec fn wf(&self) -> bool {
        self.table.wf() && self.raw.valid_for(self.table@)
    }

    /// The entries whose values are still to come.
    pub closed spec fn rest(&self) -> Seq<Entry<K, V>> {
        items_from(self.table@, self.raw.position())
    }

    /// The number of values that are still to come.
    pub fn len(&self) -> (len: usize)
        requires
            self.wf(),
        ensures
            len == self.rest().len(),
    {
        self.raw.len()
    }

    /// The next value.
    pub fn next(&mut self) -> (value: Option<&'a V>)
        requires
            old(self).wf(),
        ensures
            final(self).wf(),
            match value {
                Some(v) => {
                    &&& old(self).rest().len() > 0
                    &&& old(self).rest()[0].value == *v
                    &&& final(self).rest() == old(self).rest().drop_first()
                },
                None => old(self).rest().len() == 0 && final(self).rest() == old(self).rest(),
            },
    {
        let table = self.table;
        match self.raw.next(table) {
            Some(bucket) => {
                proof {
                    assert((seq![table@[bucket as int].unwrap()] + items_from(
                        table@,
                        bucket + 1,
                    )).drop_first() =~= items_from(table@, bucket + 1));
                }
                match table.slot(bucket) {
                    Some(entry) => Some(&entry.value),
                    None => None,
                }
            },
            None => None,
        }
    }
}

/// A cursor over the values of a map, in ascending bucket order, that hands
/// out each value for writing.
pub struct ValuesMut<'a, K, V> {
    /// The table of the map, for as long as the cursor lives.
    pub table: &'a mut ArchivedHashTable<Entry<K, V>>,
    /// Where the cursor stands.
    pub raw: RawIter,
}

impl<'a, K, V> ValuesMut<'a, K, V> {
    /// The cursor stands inside a well-formed table.
    pub open spec fn wf(&self) -> bool {
        self.table.wf() && self.raw.valid_for(self.table@)
    }

    /// The entries whose values are still to come.
    pub open spec fn rest(&self) -> Seq<Entry<K, V>> {
        items_from(self.table@, self.raw.position())
    }

    /// The number of values that are still to come.
    pub fn len(&self) -> (len: usize)
        requires
            self.wf(),
        ensures
            len == self.rest().len(),
    {
        self.raw.len()
    }

    /// The next value, for writing.
    pub fn next(&mut self) -> (value: Option<&mut V>)
        requires
            old(self).wf(),
        ensures
            final(self).wf(),
            items_from(final(self).table@, 0).len() == items_from(old(self).table@, 0).len(),
            match value {
                Some(v) => {
                    &&& old(self).rest().len() > 0
                    &&& old(self).rest()[0].value == *v
                    &&& final(self).rest() == old(self).rest().drop_first()
                    &&& exists|bucket: int|
                        {
                            &&& 0 <= bucket < old(self).table@.len()
                            &&& (#[trigger] old(self).table@[bucket]) is Some
                            &&& old(self).table@[bucket].unwrap().value == *v
                            &&& final(self).table@ == old(self).table@.update(
                                bucket,
                                Some(
                                    Entry {
                                        key: old(self).table@[bucket].unwrap().key,
                                        value: *final(v),
                                    },
                                ),
                            )
                        }
                },
                None => {
                    &&& old(self).rest().len() == 0
                    &&& final(self).rest() == old(self).rest()
                    &&& final(self).table@ == old(self).table@
                },
            },
    {
        match self.raw.next(&*self.table) {
            Some(bucket) => {
                proof {
                    lemma_items_behind_stay(self.table@, bucket as int);
                }
                match self.table.slot_mut(bucket) {
                    Some(entry) => Some(&mut entry.value),
                    None => None,
                }
            },
            None => None,
        }
    }
}

} // verus!
