//! The layout of a table in bytes: the header, then one control tag for
//! each slot, then the slots.
//!
//! Every place is counted from the position of the table itself, so the
//! bytes mean the same wherever they are copied to.

use crate::ser::Emit;
use crate::table::items_from;
use vstd::bytes::{lemma_auto_spec_u64_to_from_le_bytes, spec_u64_to_le_bytes};
use vstd::prelude::*;

verus! {

/// The size of the table's header in the archive: two offsets, the capacity
/// and the length, eight bytes each.
pub const HEADER_SIZE: usize = 32;

/// The bytes of the header of a table with `capacity` slots and `len`
/// items: where the control tags start and where the slots start, both
/// counted from the table's own position, then the capacity and the length,
/// each as 64 bits in little-endian order.
pub open spec fn header_bytes(capacity: nat, len: nat) -> Seq<u8> {
    spec_u64_to_le_bytes(HEADER_SIZE as u64) + spec_u64_to_le_bytes(
        (HEADER_SIZE + capacity) as u64,
    ) + spec_u64_to_le_bytes(capacity as u64) + spec_u64_to_le_bytes(len as u64)
}

/// The control tags as bytes: one for an occupied slot, zero for an empty
/// one.
pub open spec fn control_bytes<T>(slots: Seq<Option<T>>) -> Seq<u8> {
    Seq::new(
        slots.len(),
        |b: int|
            if slots[b] is Some {
                1u8
            } else {
                0u8
            },
    )
}

/// The bytes of one slot: those of its item, or as many zeros where it is
/// empty.
pub open spec fn slot_bytes<T: Emit>(slot: Option<T>) -> Seq<u8> {
    match slot {
        Some(item) => item.spec_bytes(),
        None => Seq::new(T::spec_width(), |i: int| 0u8),
    }
}

/// The bytes of the first `count` slots, one slot after the other.
pub open spec fn slots_bytes<T: Emit>(slots: Seq<Option<T>>, count: int) -> Seq<u8>
    decreases count,
{
    if count <= 0 {
        Seq::empty()
    } else {
        slots_bytes(slots, count - 1) + slot_bytes(slots[count - 1])
    }
}

/// The bytes of a table: the header, the control tags, the slots.
pub open spec fn table_bytes<T: Emit>(slots: Seq<Option<T>>) -> Seq<u8> {
    header_bytes(slots.len(), items_from(slots, 0).len()) + control_bytes(slots) + slots_bytes(
        slots,
        slots.len() as int,
    )
}

/// Every slot takes the width of an item, so the first `count` slots take
/// `count` times that.
pub proof fn lemma_slots_bytes_len<T: Emit>(slots: Seq<Option<T>>, count: int)
    requires
        0 <= count <= slots.len(),
    ensures
        slots_bytes(slots, count).len() == count * T::spec_width(),
    decreases count,
{
    if count > 0 {
        lemma_slots_bytes_len(slots, count - 1);
        match slots[count - 1] {
            Some(item) => {
                item.lemma_width();
            },
            None => {},
        }
        assert((count - 1) * T::spec_width() + T::spec_width() == count * T::spec_width())
            by (nonlinear_arith);
    } else {
        assert(0 * T::spec_width() == 0) by (nonlinear_arith);
    }
}

/// The bytes of a table are those of its header, of one control tag for
/// each slot, and of its slots.
pub proof fn lemma_table_bytes_len<T: Emit>(slots: Seq<Option<T>>)
    ensures
        table_bytes(slots).len() == HEADER_SIZE + slots.len() + slots.len() * T::spec_width(),
        header_bytes(slots.len(), items_from(slots, 0).len()).len() == HEADER_SIZE,
{
    lemma_auto_spec_u64_to_from_le_bytes();
    lemma_slots_bytes_len(slots, slots.len() as int);
}

/// The layout of a table in bytes. The header takes `HEADER_SIZE` bytes,
/// the control tag of bucket `bucket` lies right behind it at offset
/// `bucket`, and the slot of the bucket lies behind the control tags at
/// offset `bucket` times the width of an item. These are the positions for
/// which the items of a table are resolved.
pub proof fn lemma_table_layout<T: Emit>(slots: Seq<Option<T>>, bucket: int)
    requires
        0 <= bucket < slots.len(),
    ensures
        table_bytes(slots).len() == HEADER_SIZE + slots.len() + slots.len() * T::spec_width(),
        table_bytes(slots)[HEADER_SIZE + bucket] == (if slots[bucket] is Some {
            1u8
        } else {
            0u8
        }),
        table_bytes(slots).subrange(
            HEADER_SIZE + slots.len() + bucket * T::spec_width(),
            HEADER_SIZE + slots.len() + (bucket + 1) * T::spec_width(),
        ) == slot_bytes(slots[bucket]),
{
    lemma_auto_spec_u64_to_from_le_bytes();
    let capacity = slots.len() as int;
    let width = T::spec_width() as int;
    lemma_slots_bytes_len(slots, capacity);
    lemma_slots_bytes_len(slots, bucket);
    lemma_slots_bytes_len(slots, bucket + 1);
    lemma_slots_prefix(slots, bucket + 1, capacity);
    assert((bucket + 1) * width == bucket * width + width) by (nonlinear_arith);
    assert((bucket + 1) * width <= capacity * width) by (nonlinear_arith)
        requires
            bucket + 1 <= capacity,
            width >= 0,
    ;
    let all = slots_bytes(slots, capacity);
    let upto = slots_bytes(slots, bucket + 1);
    let here = slot_bytes(slots[bucket]);
    let before = slots_bytes(slots, bucket);
    assert(upto == before + here);
    assert(before.len() == bucket * width);
    assert(upto.len() == (bucket + 1) * width);
    assert(here.len() == width);
    assert(upto == all.subrange(0, (bucket + 1) * width));
    assert forall|i: int| 0 <= i < width implies all.subrange(
        bucket * width,
        (bucket + 1) * width,
    )[i] == here[i] by {
        assert(all.subrange(0, (bucket + 1) * width)[bucket * width + i] == all[bucket * width
            + i]);
        assert(upto[bucket * width + i] == here[i]);
    }
    assert(all.subrange(bucket * width, (bucket + 1) * width) =~= here);
    assert(table_bytes(slots).subrange(
        HEADER_SIZE + capacity + bucket * width,
        HEADER_SIZE + capacity + (bucket + 1) * width,
    ) =~= all.subrange(bucket * width, (bucket + 1) * width));
}

/// The bytes of the first slots are the start of the bytes of more slots.
pub proof fn lemma_slots_prefix<T: Emit>(slots: Seq<Option<T>>, count: int, more: int)
    requires
        0 <= count <= more <= slots.len(),
    ensures
        slots_bytes(slots, count).is_prefix_of(slots_bytes(slots, more)),
        slots_bytes(slots, count) == slots_bytes(slots, more).subrange(
            0,
            slots_bytes(slots, count).len() as int,
        ),
    decreases more - count,
{
    if count < more {
        lemma_slots_prefix(slots, count, more - 1);
    }
}

} // verus!
