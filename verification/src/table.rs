//! The archived hash table: a header, one control tag per slot, and the
//! slots themselves.
//!
//! A table is written once and never resized. Its slots are addressed by
//! bucket index; the control tag of a slot is read before the slot, and an
//! empty slot is never read as an item.

use crate::capacity::{
    capacity_from_len, is_capacity, lemma_capacity_holds_len, lemma_capacity_unique,
    valid_load_factor,
};
use crate::layout::{control_bytes, header_bytes, slots_bytes, table_bytes, HEADER_SIZE};
use crate::plan::{distinct_in, is_plan, lemma_plan_distinct, plan_buckets, taken};
use crate::probe::{hit, home_bucket, miss, next_bucket, passes, probe, probed};
use crate::ser::{keep_or_stop, ArchiveError, Emit, Resolve, Serialize, Serializer, Writer};
use vstd::bytes::{lemma_auto_spec_u64_to_from_le_bytes, u64_to_le_bytes};
use vstd::prelude::*;

verus! {

/// The tag of one slot.
#[derive(Clone, Copy, Debug)]
pub enum Control {
    /// The slot holds nothing, and its content is not to be read.
    Empty,
    /// The slot holds an item.
    Occupied,
}

/// The items of the occupied slots from bucket `start` on, in ascending
/// bucket order.
pub open spec fn items_from<T>(slots: Seq<Option<T>>, start: int) -> Seq<T>
    decreases slots.len() - start,
{
    if start < 0 || start >= slots.len() {
        Seq::empty()
    } else {
        match slots[start] {
            Some(item) => seq![item] + items_from(slots, start + 1),
            None => items_from(slots, start + 1),
        }
    }
}

/// The items that `pred` may answer `true` for.
pub open spec fn accepted_by<T, P: Fn(&T) -> bool>(pred: P) -> spec_fn(T) -> bool {
    |item: T| call_ensures(pred, (&item,), true)
}

/// The items that `pred` may answer `false` for.
pub open spec fn rejected_by<T, P: Fn(&T) -> bool>(pred: P) -> spec_fn(T) -> bool {
    |item: T| call_ensures(pred, (&item,), false)
}

/// `pred` may be called on every item that the slots hold.
pub open spec fn callable_on<T, P: Fn(&T) -> bool>(pred: P, slots: Seq<Option<T>>) -> bool {
    forall|b: int|
        0 <= b < slots.len() && (#[trigger] slots[b]) is Some ==> call_requires(
            pred,
            (&slots[b].unwrap(),),
        )
}

/// Two tables have the same slots occupied.
pub open spec fn same_shape<T>(a: Seq<Option<T>>, b: Seq<Option<T>>) -> bool {
    &&& a.len() == b.len()
    &&& forall|i: int| 0 <= i < a.len() ==> ((#[trigger] a[i]) is Some <==> b[i] is Some)
}

/// Tables with the same slots occupied hold the same number of items.
pub proof fn lemma_same_shape_same_len<T>(a: Seq<Option<T>>, b: Seq<Option<T>>, start: int)
    requires
        same_shape(a, b),
    ensures
        items_from(a, start).len() == items_from(b, start).len(),
    decreases a.len() - start,
{
    if 0 <= start < a.len() {
        lemma_same_shape_same_len(a, b, start + 1);
        assert(a[start] is Some <==> b[start] is Some);
    }
}

/// No more items than slots.
pub proof fn lemma_items_len_bound<T>(slots: Seq<Option<T>>, start: int)
    requires
        0 <= start <= slots.len(),
    ensures
        items_from(slots, start).len() <= slots.len() - start,
    decreases slots.len() - start,
{
    if start < slots.len() {
        lemma_items_len_bound(slots, start + 1);
    }
}

/// Putting an item into an empty slot adds one to the number of items.
pub proof fn lemma_items_len_insert<T>(slots: Seq<Option<T>>, start: int, bucket: int, item: T)
    requires
        0 <= start <= bucket < slots.len(),
        slots[bucket] is None,
    ensures
        items_from(slots.update(bucket, Some(item)), start).len() == items_from(slots, start).len()
            + 1,
    decreases slots.len() - start,
{
    let updated = slots.update(bucket, Some(item));
    if start < bucket {
        lemma_items_len_insert(slots, start + 1, bucket, item);
    } else {
        lemma_items_from_suffix(slots, updated, start + 1);
    }
}

/// The items from a bucket on depend on the slots from there on only.
pub proof fn lemma_items_from_suffix<T>(a: Seq<Option<T>>, b: Seq<Option<T>>, start: int)
    requires
        a.len() == b.len(),
        forall|i: int| start <= i < a.len() ==> a[i] == b[i],
    ensures
        items_from(a, start) == items_from(b, start),
    decreases a.len() - start,
{
    if 0 <= start < a.len() {
        lemma_items_from_suffix(a, b, start + 1);
    }
}

/// Whatever is written to the slots up to `bucket`, the items of the slots
/// behind it stay.
pub proof fn lemma_items_behind_stay<T>(slots: Seq<Option<T>>, bucket: int)
    ensures
        forall|other: Seq<Option<T>>|
            other.len() == slots.len() && (forall|i: int|
                bucket < i < slots.len() ==> other[i] == slots[i]) ==> (#[trigger] items_from(
                other,
                bucket + 1,
            )) == items_from(slots, bucket + 1),
{
    assert forall|other: Seq<Option<T>>|
        other.len() == slots.len() && (forall|i: int|
            bucket < i < slots.len() ==> other[i] == slots[i]) implies (#[trigger] items_from(
        other,
        bucket + 1,
    )) == items_from(slots, bucket + 1) by {
        lemma_items_from_suffix(other, slots, bucket + 1);
    }
}

/// Where no item is left from a bucket on, every slot from there on is
/// empty.
pub proof fn lemma_no_items_left<T>(slots: Seq<Option<T>>, start: int)
    requires
        0 <= start,
        items_from(slots, start).len() == 0,
    ensures
        forall|b: int| start <= b < slots.len() ==> (#[trigger] slots[b]) is None,
    decreases slots.len() - start,
{
    if start < slots.len() {
        lemma_no_items_left(slots, start + 1);
    }
}

/// No slot of an all-empty table holds an item.
pub proof fn lemma_items_none<T>(slots: Seq<Option<T>>, start: int)
    requires
        forall|i: int| 0 <= i < slots.len() ==> (#[trigger] slots[i]) is None,
    ensures
        items_from(slots, start).len() == 0,
    decreases slots.len() - start,
{
    if 0 <= start < slots.len() {
        lemma_items_none(slots, start + 1);
    }
}

/// The slots hold `items[i]` in bucket `buckets[i]`, for every `i`, and
/// nothing else.
pub open spec fn holds_exactly<T>(slots: Seq<Option<T>>, buckets: Seq<usize>, items: Seq<T>) -> bool {
    &&& buckets.len() == items.len()
    &&& forall|i: int|
        0 <= i < buckets.len() ==> (#[trigger] buckets[i]) < slots.len() && slots[buckets[i] as int]
            == Some(items[i])
    &&& forall|b: int|
        0 <= b < slots.len() && (#[trigger] slots[b]) is Some ==> taken(
            buckets,
            buckets.len() as int,
            b,
        )
}

/// What the planning of a table leaves for its writing: the capacity, and
/// for each item, in the order of the construction, its bucket and the
/// resolver of its archived form. It is made once and used up once.
pub struct HashTableResolver<R> {
    capacity: usize,
    buckets: Vec<usize>,
    children: Vec<R>,
}

impl<R: Resolve> HashTableResolver<R> {
    /// The capacity of the table.
    pub closed spec fn spec_capacity(&self) -> nat {
        self.capacity as nat
    }

    /// The bucket of each item.
    pub closed spec fn buckets(&self) -> Seq<usize> {
        self.buckets@
    }

    /// The resolver of each item.
    pub closed spec fn children(&self) -> Seq<R> {
        self.children@
    }

    /// Every item has a bucket of its own inside the table.
    pub open spec fn wf(&self) -> bool {
        &&& self.buckets().len() == self.children().len()
        &&& distinct_in(self.spec_capacity(), self.buckets())
    }

    /// The number of bytes of each slot: the width of an archived item.
    pub open spec fn stride() -> nat {
        <R::Archived as Emit>::spec_width()
    }

    /// The position of the slot `bucket` of a table at position `pos`.
    pub open spec fn slot_position(pos: nat, capacity: nat, bucket: nat) -> nat {
        pos + HEADER_SIZE as nat + capacity + bucket * Self::stride()
    }

    /// The table, written at position `pos`, ends where a buffer can end.
    pub open spec fn fits(&self, pos: nat) -> bool {
        Self::slot_position(pos, self.spec_capacity(), self.spec_capacity()) <= isize::MAX
    }

    /// The archived form of each item when the table is written at `pos`.
    pub open spec fn archived(&self, pos: nat) -> Seq<R::Archived> {
        Seq::new(
            self.children().len(),
            |i: int|
                self.children()[i].resolved(
                    Self::slot_position(pos, self.spec_capacity(), self.buckets()[i] as nat),
                ),
        )
    }

    /// The capacity of the table.
    pub fn capacity(&self) -> (capacity: usize)
        ensures
            capacity == self.spec_capacity(),
    {
        self.capacity
    }

    /// The number of items.
    pub fn len(&self) -> (len: usize)
        ensures
            len == self.children().len(),
    {
        self.children.len()
    }

    /// Whether this is a plan for `len` items at the load factor
    /// `load_factor.0 / load_factor.1`.
    pub fn planned_for(&self, len: usize, load_factor: (usize, usize)) -> (planned: bool)
        ensures
            planned == (self.children().len() == len && is_capacity(
                self.spec_capacity(),
                len as nat,
                load_factor,
            )),
    {
        if self.children.len() != len {
            return false;
        }
        match capacity_from_len(len, load_factor) {
            Some(capacity) => {
                proof {
                    if is_capacity(self.spec_capacity(), len as nat, load_factor) {
                        lemma_capacity_unique(
                            capacity as nat,
                            self.spec_capacity(),
                            len as nat,
                            load_factor,
                        );
                    }
                }
                capacity == self.capacity
            },
            None => false,
        }
    }

    /// Whether the table, written at position `pos`, ends where a buffer can
    /// end.
    pub fn fits_at(&self, pos: usize) -> (fits: bool)
        ensures
            fits == self.fits(pos as nat),
    {
        let capacity = self.capacity;
        let slots = match <R::Archived as Emit>::width() {
            Some(stride) => match capacity.checked_mul(stride) {
                Some(slots) => slots,
                None => {
                    return false;
                },
            },
            None => {
                let ghost stride = Self::stride();
                if capacity == 0 {
                    assert(0 * stride == 0) by (nonlinear_arith);
                    0
                } else {
                    assert(capacity * stride >= stride) by (nonlinear_arith)
                        requires
                            capacity >= 1,
                    ;
                    return false;
                }
            },
        };
        match pos.checked_add(HEADER_SIZE) {
            Some(control) => match control.checked_add(capacity) {
                Some(start) => match start.checked_add(slots) {
                    Some(end) => end <= isize::MAX as usize,
                    None => false,
                },
                None => false,
            },
            None => false,
        }
    }
}

/// An archived hash table of items of type `T`.
#[derive(Debug)]
pub struct ArchivedHashTable<T> {
    control_offset: usize,
    slots_offset: usize,
    capacity: usize,
    len: usize,
    control: Vec<Control>,
    slots: Vec<Option<T>>,
}

impl<T> View for ArchivedHashTable<T> {
    type V = Seq<Option<T>>;

    /// What each bucket holds.
    closed spec fn view(&self) -> Seq<Option<T>> {
        self.slots@
    }
}

impl<T> ArchivedHashTable<T> {
    /// The header agrees with the control tags, and the control tags with
    /// the slots.
    pub closed spec fn wf(&self) -> bool {
        &&& self.control.len() == self.capacity
        &&& self.slots.len() == self.capacity
        &&& forall|b: int|
            0 <= b < self.capacity ==> ((#[trigger] self.control[b]) is Occupied
                <==> self.slots[b] is Some)
        &&& self.len == items_from(self.slots@, 0).len()
        &&& self.control_offset == HEADER_SIZE
        &&& self.slots_offset == HEADER_SIZE + self.capacity
        &&& HEADER_SIZE + self.capacity <= isize::MAX
    }

    /// A well-formed table is no larger than a buffer can be, and holds no
    /// more items than it has slots.
    pub proof fn lemma_wf(&self)
        requires
            self.wf(),
        ensures
            HEADER_SIZE + self@.len() <= isize::MAX,
            items_from(self@, 0).len() <= self@.len(),
    {
        lemma_items_len_bound(self@, 0);
    }

    /// A table without slots.
    pub fn new() -> (table: Self)
        ensures
            table.wf(),
            table@.len() == 0,
    {
        ArchivedHashTable {
            control_offset: HEADER_SIZE,
            slots_offset: HEADER_SIZE,
            capacity: 0,
            len: 0,
            control: Vec::new(),
            slots: Vec::new(),
        }
    }

    /// The number of items.
    pub fn len(&self) -> (len: usize)
        requires
            self.wf(),
        ensures
            len == items_from(self@, 0).len(),
            len <= self@.len(),
    {
        proof {
            lemma_items_len_bound(self@, 0);
        }
        self.len
    }

    /// The number of slots.
    pub fn capacity(&self) -> (capacity: usize)
        requires
            self.wf(),
        ensures
            capacity == self@.len(),
    {
        self.capacity
    }

    /// Whether the table holds no item.
    pub fn is_empty(&self) -> (empty: bool)
        requires
            self.wf(),
        ensures
            empty == (items_from(self@, 0).len() == 0),
    {
        self.len == 0
    }

    /// Where the control tags start, counted from the table's own position.
    pub fn control_offset(&self) -> (offset: usize)
        requires
            self.wf(),
        ensures
            offset == HEADER_SIZE,
    {
        self.control_offset
    }

    /// Where the slots start, counted from the table's own position.
    pub fn slots_offset(&self) -> (offset: usize)
        requires
            self.wf(),
        ensures
            offset == HEADER_SIZE + self@.len(),
    {
        self.slots_offset
    }

    /// A cursor at the first bucket.
    pub fn raw_iter(&self) -> (cursor: RawIter)
        requires
            self.wf(),
        ensures
            cursor.valid_for(self@),
            cursor.position() == 0,
    {
        RawIter { position: 0, remaining: self.len }
    }

    /// The item in `bucket`, if the slot is occupied.
    pub fn slot(&self, bucket: usize) -> (item: Option<&T>)
        requires
            self.wf(),
            bucket < self@.len(),
        ensures
            match item {
                Some(item) => self@[bucket as int] == Some(*item),
                None => self@[bucket as int] is None,
            },
    {
        match self.control[bucket] {
            Control::Empty => None,
            Control::Occupied => self.slots[bucket].as_ref(),
        }
    }

    /// The item in `bucket` for writing, if the slot is occupied. What is
    /// written replaces the item; the slot stays occupied.
    pub fn slot_mut(&mut self, bucket: usize) -> (item: Option<&mut T>)
        requires
            old(self).wf(),
            bucket < old(self)@.len(),
        ensures
            final(self).wf(),
            items_from(final(self)@, 0).len() == items_from(old(self)@, 0).len(),
            match item {
                Some(item) => old(self)@[bucket as int] == Some(*item) && final(self)@ == old(
                    self,
                )@.update(bucket as int, Some(*final(item))),
                None => old(self)@[bucket as int] is None && final(self)@ == old(self)@,
            },
    {
        proof {
            let slots = self.slots@;
            assert forall|other: Seq<Option<T>>| same_shape(slots, other) implies (
            #[trigger] items_from(other, 0)).len() == items_from(slots, 0).len() by {
                lemma_same_shape_same_len(slots, other, 0);
            }
        }
        match &mut self.slots[bucket] {
            Some(item) => Some(item),
            None => None,
        }
    }

    /// The bucket at which the walk of `hash` first meets an item that
    /// `pred` accepts, unless an empty slot or the end of the walk comes
    /// first.
    pub fn find<P: Fn(&T) -> bool>(&self, hash: u64, pred: P) -> (found: Option<usize>)
        requires
            self.wf(),
            callable_on(pred, self@),
        ensures
            match found {
                Some(bucket) => bucket < self@.len() && hit(
                    self@,
                    hash,
                    accepted_by(pred),
                    rejected_by(pred),
                    bucket as int,
                ),
                None => miss(self@, hash, rejected_by(pred)),
            },
    {
        let capacity = self.capacity;
        if capacity == 0 {
            assert(passes(self@, hash, rejected_by(pred), 0));
            return None;
        }
        let mut bucket = home_bucket(hash, capacity);
        let mut step: usize = 0;
        while step < capacity
            invariant
                self.wf(),
                callable_on(pred, self@),
                capacity == self.capacity,
                capacity > 0,
                step <= capacity,
                step < capacity ==> bucket == probe(hash, capacity as nat, step as int),
                bucket < capacity,
                passes(self@, hash, rejected_by(pred), step as int),
            decreases capacity - step,
        {
            match self.control[bucket] {
                Control::Empty => {
                    assert(probed(self@, hash, step as int) is None);
                    return None;
                },
                Control::Occupied => {
                    match &self.slots[bucket] {
                        Some(item) => {
                            assert(self@[bucket as int] is Some);
                            if pred(item) {
                                assert(accepted_by(pred)(*item));
                                return Some(bucket);
                            }
                            assert(rejected_by(pred)(*item));
                            assert(probed(self@, hash, step as int) == Some(*item));
                        },
                        None => {
                            return None;
                        },
                    }
                },
            }
            bucket = next_bucket(bucket, capacity);
            step = step + 1;
        }
        None
    }

    /// The first item on the walk of `hash` that `pred` accepts, unless an
    /// empty slot or the end of the walk comes first.
    pub fn get_with<P: Fn(&T) -> bool>(&self, hash: u64, pred: P) -> (found: Option<&T>)
        requires
            self.wf(),
            callable_on(pred, self@),
        ensures
            match found {
                Some(item) => exists|bucket: int|
                    {
                        &&& #[trigger] hit(
                            self@,
                            hash,
                            accepted_by(pred),
                            rejected_by(pred),
                            bucket,
                        )
                        &&& 0 <= bucket < self@.len()
                        &&& self@[bucket] == Some(*item)
                    },
                None => miss(self@, hash, rejected_by(pred)),
            },
    {
        match self.find(hash, pred) {
            Some(bucket) => {
                let item = self.slot(bucket);
                assert(hit(self@, hash, accepted_by(pred), rejected_by(pred), bucket as int));
                item
            },
            None => None,
        }
    }

    /// As `get_with`, for writing: what is written replaces the item in its
    /// slot, and nothing else changes.
    pub fn get_with_mut<P: Fn(&T) -> bool>(&mut self, hash: u64, pred: P) -> (found: Option<&mut T>)
        requires
            old(self).wf(),
            callable_on(pred, old(self)@),
        ensures
            final(self).wf(),
            items_from(final(self)@, 0).len() == items_from(old(self)@, 0).len(),
            match found {
                Some(item) => exists|bucket: int|
                    {
                        &&& #[trigger] hit(
                            old(self)@,
                            hash,
                            accepted_by(pred),
                            rejected_by(pred),
                            bucket,
                        )
                        &&& 0 <= bucket < old(self)@.len()
                        &&& old(self)@[bucket] == Some(*item)
                        &&& final(self)@ == old(self)@.update(bucket, Some(*final(item)))
                    },
                None => miss(old(self)@, hash, rejected_by(pred)) && final(self)@ == old(self)@,
            },
    {
        match self.find(hash, pred) {
            Some(bucket) => {
                assert(hit(self@, hash, accepted_by(pred), rejected_by(pred), bucket as int));
                self.slot_mut(bucket)
            },
            None => None,
        }
    }

    /// Appends the bytes of the table to `writer`: the header, the control
    /// tags, the slots. A failure leaves what was written by then.
    ///
    /// Nothing is written where an item is wider than a buffer can be and
    /// the table has a slot.
    pub fn write_to<W: Writer>(&self, writer: &mut W) -> (done: Result<(), ArchiveError>) where
        T: Emit,

        requires
            self.wf(),
        ensures
            old(writer).written().is_prefix_of(final(writer).written()),
            match done {
                Ok(()) => final(writer).written() == old(writer).written() + table_bytes(self@),
                Err(ArchiveError::CapacityOverflow) => {
                    &&& T::spec_width() > isize::MAX
                    &&& self@.len() > 0
                    &&& final(writer).written() == old(writer).written()
                },
                Err(error) => {
                    &&& error == ArchiveError::Writer || error == ArchiveError::Value
                    &&& T::spec_width() <= isize::MAX || self@.len() == 0
                },
            },
    {
        let capacity = self.capacity;
        let width = match T::width() {
            Some(width) => width,
            None => usize::MAX,
        };
        let width = if width <= isize::MAX as usize {
            width
        } else {
            if capacity > 0 {
                return Err(ArchiveError::CapacityOverflow);
            }
            0
        };
        proof {
            lemma_items_len_bound(self@, 0);
            lemma_auto_spec_u64_to_from_le_bytes();
        }
        let mut head = u64_to_le_bytes(self.control_offset as u64);
        let mut field = u64_to_le_bytes(self.slots_offset as u64);
        head.append(&mut field);
        let mut field = u64_to_le_bytes(capacity as u64);
        head.append(&mut field);
        let mut field = u64_to_le_bytes(self.len as u64);
        head.append(&mut field);
        assert(head@ =~= header_bytes(self@.len(), items_from(self@, 0).len()));
        let mut at: usize = 0;
        while at < capacity
            invariant
                self.wf(),
                capacity == self.capacity,
                at <= capacity,
                head@ == header_bytes(self@.len(), items_from(self@, 0).len()) + control_bytes(
                    self@,
                ).subrange(0, at as int),
            decreases capacity - at,
        {
            let tag = match self.control[at] {
                Control::Occupied => 1u8,
                Control::Empty => 0u8,
            };
            head.push(tag);
            at = at + 1;
        }
        assert(control_bytes(self@).subrange(0, capacity as int) =~= control_bytes(self@));
        match writer.write(head.as_slice()) {
            Ok(()) => {},
            Err(error) => {
                return Err(error);
            },
        }
        let zeros = vec![0u8; width];
        assert(self@.len() > 0 ==> zeros@ =~= Seq::new(T::spec_width(), |i: int| 0u8));
        let ghost start = writer.written();
        assert(start =~= start + slots_bytes(self@, 0));
        let mut at: usize = 0;
        while at < capacity
            invariant
                self.wf(),
                capacity == self.capacity,
                at <= capacity,
                capacity > 0 ==> T::spec_width() <= isize::MAX,
                capacity > 0 ==> zeros@ == Seq::new(T::spec_width(), |i: int| 0u8),
                old(writer).written().is_prefix_of(start),
                start == old(writer).written() + header_bytes(
                    self@.len(),
                    items_from(self@, 0).len(),
                ) + control_bytes(self@),
                writer.written() == start + slots_bytes(self@, at as int),
            decreases capacity - at,
        {
            let ghost before = writer.written();
            let done = match self.control[at] {
                Control::Occupied => match &self.slots[at] {
                    Some(item) => item.emit(writer),
                    None => Ok(()),
                },
                Control::Empty => writer.write(zeros.as_slice()),
            };
            match done {
                Ok(()) => {},
                Err(error) => {
                    assert(start.is_prefix_of(before));
                    return Err(error);
                },
            }
            assert(writer.written() =~= start + slots_bytes(self@, at + 1));
            at = at + 1;
        }
        assert(writer.written() =~= old(writer).written() + table_bytes(self@));
        Ok(())
    }

    /// Plans a table for `items`, whose hashes are `hashes`, at the load
    /// factor `load_factor.0 / load_factor.1`: serializes every item, in
    /// order, and then gives each its bucket.
    ///
    /// The load factor and the sizes are judged before anything is written.
    /// After that only an item that fails to serialize stops the planning,
    /// so a planning of no items does not fail there. `keep_or_stop` takes in
    /// what each item returned: the first error comes back as it is, and no
    /// item behind it is serialized. What was written by then stays written.
    pub fn serialize_from_iter<U, W>(
        items: &[U],
        hashes: &[u64],
        load_factor: (usize, usize),
        serializer: &mut Serializer<W>,
    ) -> (done: Result<HashTableResolver<U::Resolver>, ArchiveError>) where
        T: Emit,
        U: Serialize,
        U::Resolver: Resolve<Archived = T>,
        W: Writer,

        requires
            old(serializer).wf(),
            items@.len() == hashes@.len(),
        ensures
            final(serializer).wf(),
            final(serializer).arena.spec_used() == old(serializer).arena.spec_used(),
            old(serializer).writer.written().is_prefix_of(final(serializer).writer.written()),
            match done {
                Ok(resolver) => {
                    &&& valid_load_factor(load_factor)
                    &&& is_capacity(resolver.spec_capacity(), items@.len(), load_factor)
                    &&& old(serializer).arena.spec_used() + resolver.spec_capacity() <= isize::MAX
                    &&& is_plan(resolver.spec_capacity(), hashes@, resolver.buckets())
                    &&& resolver.wf()
                    &&& resolver.children().len() == items@.len()
                    &&& forall|i: int|
                        0 <= i < items@.len() ==> items@[i].archives(
                            #[trigger] resolver.children()[i],
                        )
                },
                Err(ArchiveError::InvalidLoadFactor) => {
                    &&& !valid_load_factor(load_factor)
                    &&& final(serializer).writer.written() == old(serializer).writer.written()
                },
                Err(ArchiveError::CapacityOverflow) => {
                    &&& valid_load_factor(load_factor)
                    &&& forall|c: nat|
                        is_capacity(c, items@.len(), load_factor)
                            ==> old(serializer).arena.spec_used() + c > isize::MAX
                    &&& final(serializer).writer.written() == old(serializer).writer.written()
                },
                Err(error) => {
                    &&& error == ArchiveError::Value || error == ArchiveError::Writer
                    &&& valid_load_factor(load_factor)
                    &&& exists|c: nat|
                        is_capacity(c, items@.len(), load_factor)
                            && old(serializer).arena.spec_used() + c <= isize::MAX
                    &&& items@.len() > 0
                    &&& !U::infallible()
                    &&& exists|i: int|
                        0 <= i < items@.len() && (#[trigger] items@[i]).fails_with(error)
                },
            },
    {
        let len = items.len();
        if load_factor.0 == 0 || load_factor.0 > load_factor.1 {
            return Err(ArchiveError::InvalidLoadFactor);
        }
        let capacity = match capacity_from_len(len, load_factor) {
            Some(capacity) => capacity,
            None => {
                return Err(ArchiveError::CapacityOverflow);
            },
        };
        proof {
            serializer.arena.lemma_wf();
        }
        if capacity > isize::MAX as usize - serializer.arena.used() {
            return Err(ArchiveError::CapacityOverflow);
        }
        let mut children: Vec<U::Resolver> = Vec::new();
        let mut i: usize = 0;
        while i < len
            invariant
                serializer.wf(),
                serializer.arena.spec_used() == old(serializer).arena.spec_used(),
                old(serializer).writer.written().is_prefix_of(serializer.writer.written()),
                len == items@.len(),
                valid_load_factor(load_factor),
                is_capacity(capacity as nat, items@.len(), load_factor),
                old(serializer).arena.spec_used() + capacity <= isize::MAX,
                i <= len,
                children@.len() == i,
                forall|k: int| 0 <= k < i ==> items@[k].archives(#[trigger] children@[k]),
            decreases len - i,
        {
            let done = items[i].serialize(serializer);
            match keep_or_stop(done, &mut children) {
                Some(error) => {
                    return Err(error);
                },
                None => {},
            }
            i = i + 1;
        }
        proof {
            lemma_capacity_holds_len(capacity as nat, len as nat, load_factor);
        }
        match plan_buckets(hashes, capacity, &mut serializer.arena) {
            Some(buckets) => {
                proof {
                    lemma_plan_distinct(capacity as nat, hashes@, buckets@);
                }
                Ok(HashTableResolver { capacity, buckets, children })
            },
            None => Err(ArchiveError::CapacityOverflow),
        }
    }

    /// Writes the table that `resolver` plans into `out`, which will lie at
    /// position `pos` of the archive: the header, the control tags, and each
    /// item, resolved for the position of its slot, in its bucket.
    ///
    /// `len` and `load_factor` are those of the planning.
    pub fn resolve_from_len<R: Resolve<Archived = T>>(
        len: usize,
        load_factor: (usize, usize),
        pos: usize,
        resolver: HashTableResolver<R>,
        out: &mut Self,
    ) where T: Emit
        requires
            resolver.wf(),
            resolver.children().len() == len,
            is_capacity(resolver.spec_capacity(), len as nat, load_factor),
            resolver.fits(pos as nat),
        ensures
            final(out).wf(),
            final(out)@.len() == resolver.spec_capacity(),
            holds_exactly(final(out)@, resolver.buckets(), resolver.archived(pos as nat)),
            items_from(final(out)@, 0).len() == len,
    {
        let capacity = resolver.capacity;
        let mut buckets = resolver.buckets;
        let mut children = resolver.children;
        let ghost all_buckets = buckets@;
        let ghost all_children = children@;
        let ghost archived = resolver.archived(pos as nat);
        let stride = match <R::Archived as Emit>::width() {
            Some(stride) => stride,
            None => 0,
        };
        let mut control: Vec<Control> = Vec::new();
        let mut slots: Vec<Option<T>> = Vec::new();
        let mut made: usize = 0;
        while made < capacity
            invariant
                made <= capacity,
                control@.len() == made,
                slots@.len() == made,
                forall|b: int| 0 <= b < made ==> (#[trigger] control@[b]) is Empty,
                forall|b: int| 0 <= b < made ==> (#[trigger] slots@[b]) is None,
            decreases capacity - made,
        {
            control.push(Control::Empty);
            slots.push(None);
            made = made + 1;
        }
        proof {
            lemma_items_none(slots@, 0);
        }
        while buckets.len() > 0
            invariant
                resolver.wf(),
                resolver.fits(pos as nat),
                capacity == resolver.spec_capacity(),
                all_buckets == resolver.buckets(),
                all_children == resolver.children(),
                archived == resolver.archived(pos as nat),
                all_children.len() == len,
                stride == (if HashTableResolver::<R>::stride() <= usize::MAX {
                    HashTableResolver::<R>::stride() as usize
                } else {
                    0
                }),
                buckets@.len() == children@.len(),
                buckets@.len() <= all_buckets.len(),
                buckets@ == all_buckets.subrange(0, buckets@.len() as int),
                children@ == all_children.subrange(0, buckets@.len() as int),
                control@.len() == capacity,
                slots@.len() == capacity,
                forall|b: int|
                    0 <= b < capacity ==> ((#[trigger] control@[b]) is Occupied
                        <==> slots@[b] is Some),
                forall|i: int|
                    buckets@.len() <= i < all_buckets.len() ==> slots@[(
                    #[trigger] all_buckets[i]) as int] == Some(archived[i]),
                forall|b: int|
                    0 <= b < capacity && (#[trigger] slots@[b]) is Some ==> taken_from(
                        all_buckets,
                        buckets@.len() as int,
                        b,
                    ),
                items_from(slots@, 0).len() == all_buckets.len() - buckets@.len(),
            decreases buckets@.len(),
        {
            let ghost k = buckets@.len() - 1;
            let bucket = buckets.pop().unwrap();
            let child = children.pop().unwrap();
            proof {
                assert(bucket == all_buckets[k]);
                assert(child == all_children[k]);
                assert(bucket < capacity);
                let width = HashTableResolver::<R>::stride();
                assert(bucket * width + width <= capacity * width) by (nonlinear_arith)
                    requires
                        bucket + 1 <= capacity,
                ;
                if slots@[bucket as int] is Some {
                    let j = choose|j: int|
                        k + 1 <= j < all_buckets.len() && (#[trigger] all_buckets[j]) == bucket;
                    assert(all_buckets[k] != all_buckets[j]);
                }
                lemma_items_len_insert(
                    slots@,
                    0,
                    bucket as int,
                    child.resolved(
                        HashTableResolver::<R>::slot_position(
                            pos as nat,
                            capacity as nat,
                            bucket as nat,
                        ),
                    ),
                );
            }
            let at = pos + HEADER_SIZE + capacity + bucket * stride;
            let item = child.resolve(at);
            let ghost slots_before = slots@;
            slots[bucket] = Some(item);
            control[bucket] = Control::Occupied;
            proof {
                assert(buckets@ =~= all_buckets.subrange(0, k));
                assert(children@ =~= all_children.subrange(0, k));
                assert(item == archived[k]);
                assert forall|i: int| k <= i < all_buckets.len() implies slots@[(
                #[trigger] all_buckets[i]) as int] == Some(archived[i]) by {
                    if i > k {
                        assert(all_buckets[k] != all_buckets[i]);
                        assert(slots_before[all_buckets[i] as int] == Some(archived[i]));
                    }
                }
                assert forall|b: int|
                    0 <= b < capacity && (#[trigger] slots@[b]) is Some implies taken_from(
                    all_buckets,
                    k,
                    b,
                ) by {
                    if b == bucket {
                        assert(all_buckets[k] == b);
                    } else {
                        assert(slots_before[b] is Some);
                        let j = choose|j: int|
                            k + 1 <= j < all_buckets.len() && (#[trigger] all_buckets[j]) == b;
                        assert(all_buckets[j] == b);
                    }
                }
            }
        }
        proof {
            assert forall|b: int| 0 <= b < capacity && (#[trigger] slots@[b]) is Some implies taken(
                all_buckets,
                all_buckets.len() as int,
                b,
            ) by {
                let j = choose|j: int| 0 <= j < all_buckets.len() && (#[trigger] all_buckets[j]) == b;
                assert(all_buckets[j] == b);
            }
        }
        *out = ArchivedHashTable {
            control_offset: HEADER_SIZE,
            slots_offset: HEADER_SIZE + capacity,
            capacity,
            len,
            control,
            slots,
        };
    }
}

/// A cursor over the occupied slots of a table, in ascending bucket order.
/// It holds no part of the table: the table is handed to each step.
pub struct RawIter {
    position: usize,
    remaining: usize,
}

impl RawIter {
    /// The bucket at which the next step starts to look.
    pub closed spec fn position(&self) -> int {
        self.position as int
    }

    /// The number of items that are still to come.
    pub closed spec fn remaining(&self) -> nat {
        self.remaining as nat
    }

    /// The cursor stands inside the table and has counted what is left.
    pub open spec fn valid_for<T>(&self, slots: Seq<Option<T>>) -> bool {
        &&& 0 <= self.position() <= slots.len()
        &&& self.remaining() == items_from(slots, self.position()).len()
    }

    /// The number of items that are still to come.
    pub fn len(&self) -> (len: usize)
        ensures
            len == self.remaining(),
    {
        self.remaining
    }

    /// The next occupied bucket, if there is one.
    pub fn next<T>(&mut self, table: &ArchivedHashTable<T>) -> (bucket: Option<usize>)
        requires
            table.wf(),
            old(self).valid_for(table@),
        ensures
            final(self).valid_for(table@),
            match bucket {
                Some(bucket) => {
                    &&& old(self).position() <= bucket < table@.len()
                    &&& table@[bucket as int] is Some
                    &&& forall|b: int|
                        old(self).position() <= b < bucket ==> (#[trigger] table@[b]) is None
                    &&& final(self).position() == bucket + 1
                    &&& items_from(table@, old(self).position()) == seq![
                        table@[bucket as int].unwrap(),
                    ] + items_from(table@, final(self).position())
                },
                None => {
                    &&& items_from(table@, old(self).position()).len() == 0
                    &&& final(self).position() == old(self).position()
                },
            },
    {
        if self.remaining == 0 {
            return None;
        }
        let mut at = self.position;
        while at < table.capacity
            invariant
                table.wf(),
                self.position == old(self).position,
                self.remaining == old(self).remaining,
                self.remaining > 0,
                self.remaining == items_from(table@, self.position as int).len(),
                self.position <= at <= table.capacity,
                forall|b: int| self.position <= b < at ==> (#[trigger] table@[b]) is None,
                items_from(table@, self.position as int) == items_from(table@, at as int),
            decreases table.capacity - at,
        {
            match table.control[at] {
                Control::Occupied => {
                    assert(table@[at as int] is Some);
                    self.position = at + 1;
                    self.remaining = self.remaining - 1;
                    return Some(at);
                },
                Control::Empty => {
                    at = at + 1;
                },
            }
        }
        None
    }
}

/// One of the placements from `from` on took `bucket`.
spec fn taken_from(buckets: Seq<usize>, from: int, bucket: int) -> bool {
    exists|j: int| from <= j < buckets.len() && (#[trigger] buckets[j]) == bucket
}

} // verus!
