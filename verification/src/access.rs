//! Reading a table where it lies: in the bytes of an archive.
//!
//! Nothing is decoded ahead of a lookup. The header is read once; after
//! that a walk reads one control tag for every step, and the bytes of a slot
//! only where the tag says that the slot is occupied.

use crate::probe::{hit, home_bucket, miss, next_bucket, passes, probe, probed};
use crate::laws::lemma_written_bytes_keep_table;
use crate::layout::HEADER_SIZE;
use vstd::bytes::{spec_u64_from_le_bytes, u64_from_le_bytes};
use vstd::prelude::*;
use vstd::slice::slice_subrange;

verus! {

/// The header field with the index `index` of a table at position `pos`:
/// the 64 bits in little-endian order that lie `8 * index` bytes behind the
/// position.
pub open spec fn field(bytes: Seq<u8>, pos: int, index: int) -> u64 {
    spec_u64_from_le_bytes(bytes.subrange(pos + 8 * index, pos + 8 * index + 8))
}

/// Where the control tags of a table at position `pos` start.
pub open spec fn control_start(bytes: Seq<u8>, pos: int) -> int {
    pos + field(bytes, pos, 0)
}

/// Where the slots of a table at position `pos` start.
pub open spec fn slots_start(bytes: Seq<u8>, pos: int) -> int {
    pos + field(bytes, pos, 1)
}

/// The capacity that the header of a table at position `pos` states.
pub open spec fn stated_capacity(bytes: Seq<u8>, pos: int) -> int {
    field(bytes, pos, 2) as int
}

/// The length that the header of a table at position `pos` states.
pub open spec fn stated_len(bytes: Seq<u8>, pos: int) -> int {
    field(bytes, pos, 3) as int
}

/// The bytes hold, at position `pos`, the header of a table whose control
/// tags and slots, of `width` bytes each, lie inside the bytes, and which
/// states no more items than slots.
pub open spec fn well_placed(bytes: Seq<u8>, pos: int, width: int) -> bool {
    &&& 0 <= pos
    &&& 0 <= width
    &&& pos + HEADER_SIZE <= bytes.len()
    &&& control_start(bytes, pos) + stated_capacity(bytes, pos) <= bytes.len()
    &&& slots_start(bytes, pos) + stated_capacity(bytes, pos) * width <= bytes.len()
    &&& stated_len(bytes, pos) <= stated_capacity(bytes, pos)
}

/// Where the slot of `bucket` lies.
pub open spec fn slot_start(bytes: Seq<u8>, pos: int, width: int, bucket: int) -> int {
    slots_start(bytes, pos) + bucket * width
}

/// What each bucket of the table at position `pos` holds: the position of
/// its slot, where its control tag is not zero.
pub open spec fn raw_slots(bytes: Seq<u8>, pos: int, width: int) -> Seq<Option<usize>> {
    Seq::new(
        stated_capacity(bytes, pos) as nat,
        |bucket: int|
            if bytes[control_start(bytes, pos) + bucket] != 0 {
                Some(slot_start(bytes, pos, width, bucket) as usize)
            } else {
                None
            },
    )
}

/// The slots that `pred` may answer `true` for.
pub open spec fn accepted_at<P: Fn(&[u8], usize) -> bool>(pred: P, bytes: &[u8]) -> spec_fn(
    usize,
) -> bool {
    |slot: usize| call_ensures(pred, (bytes, slot), true)
}

/// The slots that `pred` may answer `false` for.
pub open spec fn rejected_at<P: Fn(&[u8], usize) -> bool>(pred: P, bytes: &[u8]) -> spec_fn(
    usize,
) -> bool {
    |slot: usize| call_ensures(pred, (bytes, slot), false)
}

/// `pred` may be called on every occupied slot.
pub open spec fn callable_at<P: Fn(&[u8], usize) -> bool>(
    pred: P,
    bytes: &[u8],
    slots: Seq<Option<usize>>,
) -> bool {
    forall|b: int|
        0 <= b < slots.len() && (#[trigger] slots[b]) is Some ==> call_requires(
            pred,
            (bytes, slots[b].unwrap()),
        )
}

/// A table in the bytes of an archive.
pub struct RawTable<'a> {
    bytes: &'a [u8],
    pos: usize,
    width: usize,
    capacity: usize,
    len: usize,
    control: usize,
    slots: usize,
}

impl<'a> View for RawTable<'a> {
    type V = Seq<Option<usize>>;

    /// The position of the slot of each bucket that is occupied.
    closed spec fn view(&self) -> Seq<Option<usize>> {
        raw_slots(self.bytes@, self.pos as int, self.width as int)
    }
}

/// Reads one field of the header.
fn read_field(bytes: &[u8], pos: usize, index: usize) -> (value: u64)
    requires
        index < 4,
        pos + HEADER_SIZE <= bytes@.len() <= usize::MAX,
    ensures
        value == field(bytes@, pos as int, index as int),
{
    let start = pos + 8 * index;
    u64_from_le_bytes(slice_subrange(bytes, start, start + 8))
}

impl<'a> RawTable<'a> {
    /// The bytes of the archive.
    pub closed spec fn bytes(&self) -> &'a [u8] {
        self.bytes
    }

    /// The position of the table in the archive.
    pub closed spec fn spec_pos(&self) -> int {
        self.pos as int
    }

    /// The number of bytes of each slot.
    pub closed spec fn spec_width(&self) -> int {
        self.width as int
    }

    /// The table lies inside the bytes, and what was read off its header is
    /// what the header states.
    pub closed spec fn wf(&self) -> bool {
        &&& well_placed(self.bytes@, self.pos as int, self.width as int)
        &&& self.bytes@.len() <= usize::MAX
        &&& self.capacity == stated_capacity(self.bytes@, self.pos as int)
        &&& self.len == stated_len(self.bytes@, self.pos as int)
        &&& self.control == control_start(self.bytes@, self.pos as int)
        &&& self.slots == slots_start(self.bytes@, self.pos as int)
    }

    /// Opens the table at position `pos` of `bytes`, whose slots take
    /// `width` bytes each. Only the header is read. There is no table where
    /// the header, the control tags or the slots would lie outside the
    /// bytes, or where the header states more items than slots.
    pub fn access(bytes: &'a [u8], pos: usize, width: usize) -> (table: Option<RawTable<'a>>)
        ensures
            match table {
                Some(table) => {
                    &&& table.wf()
                    &&& table.bytes() == bytes
                    &&& table.spec_pos() == pos
                    &&& table.spec_width() == width
                    &&& table@ == raw_slots(bytes@, pos as int, width as int)
                },
                None => !well_placed(bytes@, pos as int, width as int),
            },
    {
        let total = bytes.len();
        if total < HEADER_SIZE || pos > total - HEADER_SIZE {
            return None;
        }
        let control_offset = read_field(bytes, pos, 0);
        let slots_offset = read_field(bytes, pos, 1);
        let capacity = read_field(bytes, pos, 2);
        let len = read_field(bytes, pos, 3);
        let room = (total - pos) as u64;
        if control_offset > room || capacity > room - control_offset {
            return None;
        }
        if slots_offset > room {
            return None;
        }
        if len > capacity {
            return None;
        }
        let capacity = capacity as usize;
        let control = pos + control_offset as usize;
        let slots = pos + slots_offset as usize;
        let size = match capacity.checked_mul(width) {
            Some(size) => size,
            None => {
                proof {
                    assert(capacity * width > total - slots) by (nonlinear_arith)
                        requires
                            capacity * width > usize::MAX,
                            total <= usize::MAX,
                            slots >= 0,
                    ;
                }
                return None;
            },
        };
        if size > total - slots {
            return None;
        }
        Some(RawTable { bytes, pos, width, capacity, len: len as usize, control, slots })
    }

    /// The number of slots.
    pub fn capacity(&self) -> (capacity: usize)
        requires
            self.wf(),
        ensures
            capacity == self@.len(),
            capacity == stated_capacity(self.bytes()@, self.spec_pos()),
    {
        self.capacity
    }

    /// The number of items that the header states.
    pub fn len(&self) -> (len: usize)
        requires
            self.wf(),
        ensures
            len == stated_len(self.bytes()@, self.spec_pos()),
            len <= self@.len(),
    {
        self.len
    }

    /// Whether the header states that the table holds no item.
    pub fn is_empty(&self) -> (empty: bool)
        requires
            self.wf(),
        ensures
            empty == (stated_len(self.bytes()@, self.spec_pos()) == 0),
    {
        self.len == 0
    }

    /// The position of the slot of `bucket`, if its control tag says that
    /// it is occupied. The slot lies inside the bytes.
    pub fn slot(&self, bucket: usize) -> (slot: Option<usize>)
        requires
            self.wf(),
            bucket < self@.len(),
        ensures
            slot == self@[bucket as int],
            match slot {
                Some(slot) => slot + self.spec_width() <= self.bytes()@.len(),
                None => true,
            },
    {
        proof {
            self.lemma_slot_inside(bucket as int);
        }
        if self.bytes[self.control + bucket] != 0 {
            Some(self.slots + bucket * self.width)
        } else {
            None
        }
    }

    /// The slot of every bucket lies inside the bytes.
    pub proof fn lemma_slot_inside(&self, bucket: int)
        requires
            self.wf(),
            0 <= bucket < self@.len(),
        ensures
            0 <= slot_start(self.bytes()@, self.spec_pos(), self.spec_width(), bucket),
            slot_start(self.bytes()@, self.spec_pos(), self.spec_width(), bucket)
                + self.spec_width() <= self.bytes()@.len(),
            control_start(self.bytes()@, self.spec_pos()) + bucket < self.bytes()@.len(),
            self.bytes()@.len() <= usize::MAX,
    {
        let width = self.width as int;
        let capacity = self.capacity as int;
        assert(bucket * width + width <= capacity * width) by (nonlinear_arith)
            requires
                0 <= bucket,
                bucket + 1 <= capacity,
                0 <= width,
        ;
        assert(0 <= bucket * width) by (nonlinear_arith)
            requires
                0 <= bucket,
                0 <= width,
        ;
    }

    /// The bucket at which the walk of `hash` first meets a slot that `pred`
    /// accepts, unless an empty slot or the end of the walk comes first.
    /// `pred` is handed the bytes of the archive and the position of the
    /// slot.
    pub fn find<P: Fn(&[u8], usize) -> bool>(&self, hash: u64, pred: P) -> (found: Option<usize>)
        requires
            self.wf(),
            callable_at(pred, self.bytes(), self@),
        ensures
            match found {
                Some(bucket) => bucket < self@.len() && hit(
                    self@,
                    hash,
                    accepted_at(pred, self.bytes()),
                    rejected_at(pred, self.bytes()),
                    bucket as int,
                ),
                None => miss(self@, hash, rejected_at(pred, self.bytes())),
            },
    {
        let capacity = self.capacity;
        if capacity == 0 {
            assert(passes(self@, hash, rejected_at(pred, self.bytes()), 0));
            return None;
        }
        let mut bucket = home_bucket(hash, capacity);
        let mut step: usize = 0;
        while step < capacity
            invariant
                self.wf(),
                callable_at(pred, self.bytes(), self@),
                capacity == self.capacity,
                capacity > 0,
                step <= capacity,
                step < capacity ==> bucket == probe(hash, capacity as nat, step as int),
                bucket < capacity,
                passes(self@, hash, rejected_at(pred, self.bytes()), step as int),
            decreases capacity - step,
        {
            match self.slot(bucket) {
                None => {
                    assert(probed(self@, hash, step as int) is None);
                    return None;
                },
                Some(slot) => {
                    assert(self@[bucket as int] == Some(slot));
                    if pred(self.bytes, slot) {
                        assert(accepted_at(pred, self.bytes())(slot));
                        return Some(bucket);
                    }
                    assert(rejected_at(pred, self.bytes())(slot));
                    assert(probed(self@, hash, step as int) == Some(slot));
                },
            }
            bucket = next_bucket(bucket, capacity);
            step = step + 1;
        }
        None
    }

    /// The first occupied bucket from `from` on, if there is one.
    pub fn next_occupied(&self, from: usize) -> (bucket: Option<usize>)
        requires
            self.wf(),
        ensures
            match bucket {
                Some(bucket) => {
                    &&& from <= bucket < self@.len()
                    &&& self@[bucket as int] is Some
                    &&& forall|b: int| from <= b < bucket ==> (#[trigger] self@[b]) is None
                },
                None => forall|b: int| from <= b < self@.len() ==> (#[trigger] self@[b]) is None,
            },
    {
        let mut at = from;
        while at < self.capacity
            invariant
                self.wf(),
                from <= at,
                forall|b: int| from <= b < at && b < self@.len() ==> (#[trigger] self@[b]) is None,
            decreases self.capacity - at,
        {
            if self.slot(at).is_some() {
                return Some(at);
            }
            at = at + 1;
        }
        None
    }
}

/// The bytes of `value` may be written `offset` bytes behind the start of
/// the slot of `bucket`: the table lies inside the bytes, the slot is
/// occupied, the value ends inside the slot, and the slot lies clear of the
/// header and of the control tags.
pub open spec fn writable(
    bytes: Seq<u8>,
    pos: int,
    width: int,
    bucket: int,
    offset: int,
    len: int,
) -> bool {
    &&& well_placed(bytes, pos, width)
    &&& 0 <= bucket < stated_capacity(bytes, pos)
    &&& raw_slots(bytes, pos, width)[bucket] is Some
    &&& 0 <= offset
    &&& offset + len <= width
    &&& {
        let start = slot_start(bytes, pos, width, bucket);
        let control = control_start(bytes, pos);
        &&& start + width <= pos || pos + HEADER_SIZE <= start
        &&& start + width <= control || control + stated_capacity(bytes, pos) <= start
    }
}

/// Writes `value` into the slot of `bucket` of the table at position `pos`,
/// `offset` bytes behind the start of the slot, where that can be done
/// without touching the table itself. The table keeps its slots: what was
/// occupied stays occupied, at the same place. Nothing is written otherwise.
pub fn write_value(
    bytes: &mut [u8],
    pos: usize,
    width: usize,
    bucket: usize,
    offset: usize,
    value: &[u8],
) -> (done: bool)
    ensures
        done == writable(
            old(bytes)@,
            pos as int,
            width as int,
            bucket as int,
            offset as int,
            value@.len() as int,
        ),
        final(bytes)@.len() == old(bytes)@.len(),
        !done ==> final(bytes)@ == old(bytes)@,
        done ==> {
            let start = slot_start(old(bytes)@, pos as int, width as int, bucket as int) + offset;
            &&& final(bytes)@.subrange(start, start + value@.len()) == value@
            &&& forall|i: int|
                0 <= i < old(bytes)@.len() && !(start <= i < start + value@.len())
                    ==> final(bytes)@[i] == old(bytes)@[i]
            &&& well_placed(final(bytes)@, pos as int, width as int)
            &&& raw_slots(final(bytes)@, pos as int, width as int) == raw_slots(
                old(bytes)@,
                pos as int,
                width as int,
            )
        },
{
    let start = {
        let table = match RawTable::access(&*bytes, pos, width) {
            Some(table) => table,
            None => {
                return false;
            },
        };
        if bucket >= table.capacity() {
            return false;
        }
        let slot = match table.slot(bucket) {
            Some(slot) => slot,
            None => {
                return false;
            },
        };
        proof {
            table.lemma_slot_inside(bucket as int);
        }
        if offset > width || value.len() > width - offset {
            return false;
        }
        if !(slot + width <= pos || pos + HEADER_SIZE <= slot) {
            return false;
        }
        if !(slot + width <= table.control || table.control + table.capacity <= slot) {
            return false;
        }
        slot + offset
    };
    let ghost before = bytes@;
    let mut i: usize = 0;
    while i < value.len()
        invariant
            i <= value@.len(),
            start + value@.len() <= before.len(),
            bytes@.len() == before.len(),
            before.len() <= usize::MAX,
            forall|k: int| 0 <= k < i ==> bytes@[start + k] == value@[k],
            forall|k: int|
                0 <= k < before.len() && !(start <= k < start + i) ==> bytes@[k] == before[k],
        decreases value@.len() - i,
    {
        bytes[start + i] = value[i];
        i = i + 1;
    }
    proof {
        assert(bytes@.subrange(start as int, start + value@.len()) =~= value@);
        lemma_written_bytes_keep_table(before, bytes@, pos as int, width as int);
    }
    true
}

} // verus!
