//! What holds of every table that was planned and written as this library
//! does it, stated over the slots, the plan and the probing rule.

use crate::access::{
    control_start, field, raw_slots, slot_start, slots_start, stated_capacity, stated_len,
    well_placed,
};
use crate::capacity::{is_capacity, lemma_capacity_unique};
use crate::hash::{ArchiveKey, Equivalent, HashKey};
use crate::map::{
    key_hashes, wanted_key, ArchivedHashMap, Entry, EntryResolver, HashMapResolver,
};
use crate::plan::{distinct_in, is_plan, lemma_plan_unique, placed, placed_at, taken};
use crate::probe::{
    home, lemma_same_home_same_walk, lemma_search_skips, passes, probe, probed, search,
    search_from,
};
use crate::layout::{
    header_bytes, lemma_table_bytes_len, lemma_table_layout, table_bytes, HEADER_SIZE,
};
use crate::ser::{Emit, Resolve, Serialize};
use crate::table::{
    holds_exactly, items_from, lemma_items_from_suffix, lemma_items_len_bound, lemma_items_none,
    same_shape, HashTableResolver,
};
use vstd::bytes::{lemma_auto_spec_u64_to_from_le_bytes, spec_u64_to_le_bytes};
use vstd::prelude::*;
use vstd::seq_lib::{to_multiset_build, to_multiset_insert};

verus! {

/// A search finds only what is wanted: where it ends at a bucket, the bucket
/// holds a wanted item.
pub proof fn lemma_search_sound<T>(
    slots: Seq<Option<T>>,
    hash: u64,
    wanted: spec_fn(T) -> bool,
    step: int,
)
    requires
        slots.len() > 0 ==> 0 <= step,
    ensures
        match search_from(slots, hash, wanted, step) {
            Some(bucket) => 0 <= bucket < slots.len() && match slots[bucket] {
                Some(item) => wanted(item),
                None => false,
            },
            None => true,
        },
    decreases slots.len() - step,
{
    if 0 <= step < slots.len() {
        match probed(slots, hash, step) {
            None => {},
            Some(item) => {
                if !wanted(item) {
                    lemma_search_sound(slots, hash, wanted, step + 1);
                }
            },
        }
    }
}

/// Looking up finds the first of the wanted items, in the order of the
/// construction, when it is asked with a hash that starts where that item's
/// hash starts.
///
/// With keys that occur once this is the round trip: every key that went in
/// is found, with its own entry. With a key that occurs more than once it
/// says which entry every lookup returns: the one that came first.
pub proof fn lemma_lookup_finds_first<T>(
    slots: Seq<Option<T>>,
    hashes: Seq<u64>,
    buckets: Seq<usize>,
    items: Seq<T>,
    hash: u64,
    wanted: spec_fn(T) -> bool,
    i: int,
)
    requires
        is_plan(slots.len(), hashes, buckets),
        holds_exactly(slots, buckets, items),
        0 <= i < items.len(),
        home(hash, slots.len()) == home(hashes[i], slots.len()),
        wanted(items[i]),
        forall|j: int| 0 <= j < i ==> !wanted(#[trigger] items[j]),
    ensures
        search(slots, hash, wanted) == Some(buckets[i] as int),
{
    let capacity = slots.len();
    assert(placed(capacity, hashes[i], buckets, i));
    let step = choose|step: int| #[trigger] placed_at(capacity, hashes[i], buckets, i, step);
    let unwanted = |item: T| !wanted(item);
    assert forall|e: int| 0 <= e < step implies match #[trigger] probed(slots, hash, e) {
        Some(item) => unwanted(item),
        None => false,
    } by {
        lemma_same_home_same_walk(hash, hashes[i], capacity, e);
        assert(taken(buckets, i, probe(hashes[i], capacity, e)));
        let j = choose|j: int|
            0 <= j < i && j < buckets.len() && (#[trigger] buckets[j]) == probe(
                hashes[i],
                capacity,
                e,
            );
        assert(slots[buckets[j] as int] == Some(items[j]));
        assert(!wanted(items[j]));
    }
    assert(passes(slots, hash, unwanted, step));
    lemma_search_skips(slots, hash, wanted, unwanted, step);
    lemma_same_home_same_walk(hash, hashes[i], capacity, step);
    assert(slots[buckets[i] as int] == Some(items[i]));
}

/// Looking up what never went in finds nothing, whatever the hash.
pub proof fn lemma_lookup_misses<T>(
    slots: Seq<Option<T>>,
    buckets: Seq<usize>,
    items: Seq<T>,
    hash: u64,
    wanted: spec_fn(T) -> bool,
)
    requires
        holds_exactly(slots, buckets, items),
        forall|j: int| 0 <= j < items.len() ==> !wanted(#[trigger] items[j]),
    ensures
        search(slots, hash, wanted) is None,
{
    lemma_search_sound(slots, hash, wanted, 0);
    if search(slots, hash, wanted) is Some {
        let bucket = search(slots, hash, wanted).unwrap();
        assert(slots[bucket] is Some);
        assert(taken(buckets, buckets.len() as int, bucket));
        let j = choose|j: int|
            0 <= j < buckets.len() && j < buckets.len() && (#[trigger] buckets[j]) == bucket;
        assert(slots[buckets[j] as int] == Some(items[j]));
        assert(!wanted(items[j]));
    }
}

/// A lookup does not tell two tables apart that have the same slots
/// occupied by items that are wanted alike. So writing to the value of an
/// entry, which leaves its key as it was, changes no lookup by key.
pub proof fn lemma_search_same_keys<T>(
    before: Seq<Option<T>>,
    after: Seq<Option<T>>,
    hash: u64,
    wanted: spec_fn(T) -> bool,
    step: int,
)
    requires
        same_shape(before, after),
        forall|b: int|
            0 <= b < before.len() && (#[trigger] before[b]) is Some ==> wanted(before[b].unwrap())
                == wanted(after[b].unwrap()),
        before.len() > 0 ==> 0 <= step,
    ensures
        search_from(before, hash, wanted, step) == search_from(after, hash, wanted, step),
    decreases before.len() - step,
{
    if 0 <= step < before.len() {
        let bucket = probe(hash, before.len(), step);
        assert(before[bucket] is Some <==> after[bucket] is Some);
        if before[bucket] is Some {
            lemma_search_same_keys(before, after, hash, wanted, step + 1);
        }
    }
}

/// The occupied buckets from `start` on, in ascending order.
pub open spec fn occupied_from<T>(slots: Seq<Option<T>>, start: int) -> Seq<int>
    decreases slots.len() - start,
{
    if start < 0 || start >= slots.len() {
        Seq::empty()
    } else if slots[start] is Some {
        seq![start] + occupied_from(slots, start + 1)
    } else {
        occupied_from(slots, start + 1)
    }
}

/// Iteration is complete and without repetition: the items that it yields
/// are those of the occupied buckets, one for each, in ascending bucket
/// order.
pub proof fn lemma_items_are_occupied_slots<T>(slots: Seq<Option<T>>, start: int)
    requires
        0 <= start,
    ensures
        items_from(slots, start).len() == occupied_from(slots, start).len(),
        forall|k: int|
            0 <= k < occupied_from(slots, start).len() ==> {
                let bucket = #[trigger] occupied_from(slots, start)[k];
                &&& start <= bucket < slots.len()
                &&& slots[bucket] == Some(items_from(slots, start)[k])
            },
        forall|k: int, l: int|
            0 <= k < l < occupied_from(slots, start).len() ==> (#[trigger] occupied_from(
                slots,
                start,
            )[k]) < (#[trigger] occupied_from(slots, start)[l]),
        forall|b: int|
            start <= b < slots.len() && (#[trigger] slots[b]) is Some ==> occupied_from(
                slots,
                start,
            ).contains(b),
    decreases slots.len() - start,
{
    if start < slots.len() {
        lemma_items_are_occupied_slots(slots, start + 1);
        let rest = occupied_from(slots, start + 1);
        let all = occupied_from(slots, start);
        if slots[start] is Some {
            assert forall|k: int| 0 <= k < all.len() implies {
                let bucket = #[trigger] all[k];
                &&& start <= bucket < slots.len()
                &&& slots[bucket] == Some(items_from(slots, start)[k])
            } by {}
            assert forall|b: int|
                start <= b < slots.len() && (#[trigger] slots[b]) is Some implies all.contains(
                b,
            ) by {
                if b == start {
                    assert(all[0] == b);
                } else {
                    let k = choose|k: int| 0 <= k < rest.len() && rest[k] == b;
                    assert(all[k + 1] == b);
                }
            }
        }
    }
}

/// The round trip of a map. Of the pairs that went into the map, in their
/// order, let the `i`th be the first whose archived key is the key that is
/// looked up. Then the lookup ends at the bucket of that pair, which holds
/// its entry, provided the key that is looked up hashes as the key of the
/// pair did.
///
/// Where every key went in once, each key finds its own value. Where a key
/// went in more than once, every lookup returns the entry that went in
/// first.
pub proof fn lemma_map_finds_first<KU: HashKey, VU, K, V, Q: HashKey + Equivalent<K>>(
    map: ArchivedHashMap<K, V>,
    pairs: Seq<(&KU, &VU)>,
    buckets: Seq<usize>,
    entries: Seq<Entry<K, V>>,
    key: &Q,
    i: int,
)
    requires
        is_plan(map@.len(), key_hashes(pairs), buckets),
        holds_exactly(map@, buckets, entries),
        0 <= i < entries.len(),
        key.hash_spec() == pairs[i].0.hash_spec(),
        key.equivalent_spec(&entries[i].key),
        forall|j: int| 0 <= j < i ==> !key.equivalent_spec(&(#[trigger] entries[j]).key),
    ensures
        map.lookup(key) == Some(buckets[i] as int),
        map@[buckets[i] as int] == Some(entries[i]),
{
    lemma_lookup_finds_first(
        map@,
        key_hashes(pairs),
        buckets,
        entries,
        key.hash_spec(),
        wanted_key::<K, V, Q>(key),
        i,
    );
}

/// A key that is none of the archived keys of a map is not found in it.
pub proof fn lemma_map_misses<K, V, Q: HashKey + Equivalent<K>>(
    map: ArchivedHashMap<K, V>,
    buckets: Seq<usize>,
    entries: Seq<Entry<K, V>>,
    key: &Q,
)
    requires
        holds_exactly(map@, buckets, entries),
        forall|j: int| 0 <= j < entries.len() ==> !key.equivalent_spec(&(#[trigger] entries[j]).key),
    ensures
        map.lookup(key) is None,
{
    lemma_lookup_misses(map@, buckets, entries, key.hash_spec(), wanted_key::<K, V, Q>(key));
}

/// Writing to the value of an entry changes no lookup: every key is found
/// in the bucket in which it was found before, or is missed as before.
pub proof fn lemma_write_keeps_lookups<K, V, Q: HashKey + Equivalent<K>>(
    before: ArchivedHashMap<K, V>,
    after: ArchivedHashMap<K, V>,
    bucket: int,
    value: V,
    key: &Q,
)
    requires
        0 <= bucket < before@.len(),
        before@[bucket] is Some,
        after@ == before@.update(
            bucket,
            Some(Entry { key: before@[bucket].unwrap().key, value: value }),
        ),
    ensures
        after.lookup(key) == before.lookup(key),
{
    lemma_search_same_keys(before@, after@, key.hash_spec(), wanted_key::<K, V, Q>(key), 0);
}

/// An item that is put into an empty slot is one more item for iteration.
proof fn lemma_items_insert_multiset<T>(slots: Seq<Option<T>>, start: int, bucket: int, item: T)
    requires
        0 <= start <= bucket < slots.len(),
        slots[bucket] is None,
    ensures
        items_from(slots.update(bucket, Some(item)), start).to_multiset() == items_from(
            slots,
            start,
        ).to_multiset().insert(item),
    decreases bucket - start,
{
    let updated = slots.update(bucket, Some(item));
    let rest = items_from(slots, start + 1);
    if start == bucket {
        lemma_items_from_suffix(updated, slots, start + 1);
        assert(items_from(updated, start) =~= rest.insert(0, item));
        to_multiset_insert(rest, 0, item);
    } else {
        lemma_items_insert_multiset(slots, start + 1, bucket, item);
        let updated_rest = items_from(updated, start + 1);
        match slots[start] {
            Some(first) => {
                assert(items_from(updated, start) =~= updated_rest.insert(0, first));
                assert(items_from(slots, start) =~= rest.insert(0, first));
                to_multiset_insert(updated_rest, 0, first);
                to_multiset_insert(rest, 0, first);
                assert(rest.to_multiset().insert(item).insert(first) =~= rest.to_multiset().insert(
                    first,
                ).insert(item));
            },
            None => {},
        }
    }
}

/// Iteration yields what went in: the items of a table that was written
/// from a plan are, each as often as it went in, the items that iteration
/// yields.
pub proof fn lemma_iteration_yields_items<T>(
    slots: Seq<Option<T>>,
    buckets: Seq<usize>,
    items: Seq<T>,
)
    requires
        holds_exactly(slots, buckets, items),
        distinct_in(slots.len(), buckets),
    ensures
        items_from(slots, 0).to_multiset() == items.to_multiset(),
        items_from(slots, 0).len() == items.len(),
    decreases items.len(),
{
    if items.len() == 0 {
        assert forall|b: int| 0 <= b < slots.len() implies (#[trigger] slots[b]) is None by {
            if slots[b] is Some {
                assert(taken(buckets, 0, b));
            }
        }
        lemma_items_none(slots, 0);
        assert(items_from(slots, 0) =~= items);
    } else {
        let last = items.len() - 1;
        let bucket = buckets[last] as int;
        let emptied = slots.update(bucket, None);
        let fewer_buckets = buckets.drop_last();
        let fewer = items.drop_last();
        assert(slots[bucket] == Some(items[last]));
        assert forall|i: int| 0 <= i < fewer_buckets.len() implies (#[trigger] fewer_buckets[i])
            < emptied.len() && emptied[fewer_buckets[i] as int] == Some(fewer[i]) by {
            assert(buckets[i] != buckets[last]);
            assert(slots[buckets[i] as int] == Some(items[i]));
        }
        assert forall|b: int| 0 <= b < emptied.len() && (#[trigger] emptied[b]) is Some implies taken(
            fewer_buckets,
            fewer_buckets.len() as int,
            b,
        ) by {
            assert(slots[b] is Some);
            assert(taken(buckets, buckets.len() as int, b));
            let j = choose|j: int|
                0 <= j < buckets.len() && j < buckets.len() && (#[trigger] buckets[j]) == b;
            assert(j != last);
            assert(fewer_buckets[j] == b);
        }
        lemma_iteration_yields_items(emptied, fewer_buckets, fewer);
        lemma_items_insert_multiset(emptied, 0, bucket, items[last]);
        assert(emptied.update(bucket, Some(items[last])) =~= slots);
        to_multiset_build(fewer, items[last]);
        assert(fewer.push(items[last]) =~= items);
        vstd::seq_lib::to_multiset_len(items_from(slots, 0));
        vstd::seq_lib::to_multiset_len(items);
    }
}

/// A lookup does not tell a table from another, of whatever items, that has
/// the same slots occupied by items that are wanted alike.
pub proof fn lemma_search_mirrors<A, B>(
    one: Seq<Option<A>>,
    other: Seq<Option<B>>,
    hash: u64,
    wanted_one: spec_fn(A) -> bool,
    wanted_other: spec_fn(B) -> bool,
    step: int,
)
    requires
        one.len() == other.len(),
        forall|b: int| 0 <= b < one.len() ==> ((#[trigger] one[b]) is Some <==> other[b] is Some),
        forall|b: int|
            0 <= b < one.len() && (#[trigger] one[b]) is Some ==> wanted_one(one[b].unwrap())
                == wanted_other(other[b].unwrap()),
        one.len() > 0 ==> 0 <= step,
    ensures
        search_from(one, hash, wanted_one, step) == search_from(other, hash, wanted_other, step),
    decreases one.len() - step,
{
    if 0 <= step < one.len() {
        let bucket = probe(hash, one.len(), step);
        assert(one[bucket] is Some <==> other[bucket] is Some);
        if one[bucket] is Some {
            lemma_search_mirrors(one, other, hash, wanted_one, wanted_other, step + 1);
        }
    }
}

/// The fields of a header that was written are what was written.
proof fn lemma_header_fields(bytes: Seq<u8>, pos: int, capacity: nat, len: nat)
    requires
        0 <= pos,
        pos + HEADER_SIZE <= bytes.len(),
        bytes.subrange(pos, pos + HEADER_SIZE) == header_bytes(capacity, len),
        HEADER_SIZE + capacity <= u64::MAX,
        len <= u64::MAX,
    ensures
        field(bytes, pos, 0) == HEADER_SIZE,
        field(bytes, pos, 1) == HEADER_SIZE + capacity,
        field(bytes, pos, 2) == capacity,
        field(bytes, pos, 3) == len,
{
    lemma_auto_spec_u64_to_from_le_bytes();
    let head = bytes.subrange(pos, pos + HEADER_SIZE);
    let first = spec_u64_to_le_bytes(HEADER_SIZE as u64);
    let second = spec_u64_to_le_bytes((HEADER_SIZE + capacity) as u64);
    let third = spec_u64_to_le_bytes(capacity as u64);
    let fourth = spec_u64_to_le_bytes(len as u64);
    assert(bytes.subrange(pos, pos + 8) =~= first);
    assert(bytes.subrange(pos + 8, pos + 16) =~= second) by {
        assert(bytes.subrange(pos + 8, pos + 16) =~= head.subrange(8, 16));
    }
    assert(bytes.subrange(pos + 16, pos + 24) =~= third) by {
        assert(bytes.subrange(pos + 16, pos + 24) =~= head.subrange(16, 24));
    }
    assert(bytes.subrange(pos + 24, pos + 32) =~= fourth) by {
        assert(bytes.subrange(pos + 24, pos + 32) =~= head.subrange(24, 32));
    }
}

/// The bytes of a table are the table. Where the bytes that `write_to`
/// writes for a table lie at position `pos`, the header states the capacity
/// and the length of the table, the control tags are not zero where the
/// table has an item, and the slot of every item holds the bytes of the
/// item.
pub proof fn lemma_bytes_mirror_table<T: Emit>(bytes: Seq<u8>, pos: int, slots: Seq<Option<T>>)
    requires
        0 <= pos,
        pos + table_bytes(slots).len() <= bytes.len(),
        bytes.subrange(pos, pos + table_bytes(slots).len()) == table_bytes(slots),
        HEADER_SIZE + slots.len() <= isize::MAX,
    ensures
        well_placed(bytes, pos, T::spec_width() as int),
        stated_capacity(bytes, pos) == slots.len(),
        stated_len(bytes, pos) == items_from(slots, 0).len(),
        control_start(bytes, pos) == pos + HEADER_SIZE,
        slots_start(bytes, pos) == pos + HEADER_SIZE + slots.len(),
        raw_slots(bytes, pos, T::spec_width() as int).len() == slots.len(),
        forall|b: int|
            0 <= b < slots.len() ==> ((#[trigger] raw_slots(
                bytes,
                pos,
                T::spec_width() as int,
            )[b]) is Some <==> slots[b] is Some),
        forall|b: int|
            0 <= b < slots.len() && (#[trigger] slots[b]) is Some ==> bytes.subrange(
                slot_start(bytes, pos, T::spec_width() as int, b),
                slot_start(bytes, pos, T::spec_width() as int, b) + T::spec_width(),
            ) == slots[b].unwrap().spec_bytes(),
{
    let all = table_bytes(slots);
    let width = T::spec_width() as int;
    let capacity = slots.len() as int;
    let len = items_from(slots, 0).len();
    lemma_table_bytes_len(slots);
    lemma_items_len_bound(slots, 0);
    assert(bytes.subrange(pos, pos + HEADER_SIZE) =~= header_bytes(slots.len(), len));
    lemma_header_fields(bytes, pos, slots.len(), len);
    assert forall|b: int| 0 <= b < slots.len() implies ((#[trigger] raw_slots(
        bytes,
        pos,
        width,
    )[b]) is Some <==> slots[b] is Some) by {
        lemma_table_layout(slots, b);
        assert(bytes.subrange(pos, pos + all.len())[HEADER_SIZE + b] == bytes[pos + HEADER_SIZE
            + b]);
    }
    assert forall|b: int| 0 <= b < slots.len() && (#[trigger] slots[b]) is Some implies bytes.subrange(
        slot_start(bytes, pos, width, b),
        slot_start(bytes, pos, width, b) + width,
    ) == slots[b].unwrap().spec_bytes() by {
        lemma_table_layout(slots, b);
        assert((b + 1) * width == b * width + width) by (nonlinear_arith);
        assert(0 <= b * width && (b + 1) * width <= capacity * width) by (nonlinear_arith)
            requires
                0 <= b,
                b + 1 <= capacity,
                0 <= width,
        ;
        assert(bytes.subrange(
            slot_start(bytes, pos, width, b),
            slot_start(bytes, pos, width, b) + width,
        ) =~= bytes.subrange(pos, pos + all.len()).subrange(
            HEADER_SIZE + capacity + b * width,
            HEADER_SIZE + capacity + (b + 1) * width,
        ));
    }
}

/// A lookup in the bytes of a table finds the bucket that the lookup in the
/// table finds, where the predicate on a slot in the bytes answers as the
/// predicate on the item of the slot.
pub proof fn lemma_raw_search_is_table_search<T: Emit>(
    bytes: Seq<u8>,
    pos: int,
    slots: Seq<Option<T>>,
    hash: u64,
    wanted_slot: spec_fn(usize) -> bool,
    wanted_item: spec_fn(T) -> bool,
)
    requires
        0 <= pos,
        pos + table_bytes(slots).len() <= bytes.len(),
        bytes.subrange(pos, pos + table_bytes(slots).len()) == table_bytes(slots),
        HEADER_SIZE + slots.len() <= isize::MAX,
        forall|b: int|
            0 <= b < slots.len() && (#[trigger] slots[b]) is Some ==> wanted_slot(
                slot_start(bytes, pos, T::spec_width() as int, b) as usize,
            ) == wanted_item(slots[b].unwrap()),
    ensures
        search(raw_slots(bytes, pos, T::spec_width() as int), hash, wanted_slot) == search(
            slots,
            hash,
            wanted_item,
        ),
{
    lemma_bytes_mirror_table(bytes, pos, slots);
    let raw = raw_slots(bytes, pos, T::spec_width() as int);
    assert forall|b: int| 0 <= b < raw.len() && (#[trigger] raw[b]) is Some implies wanted_slot(
        raw[b].unwrap(),
    ) == wanted_item(slots[b].unwrap()) by {
        assert(slots[b] is Some);
    }
    lemma_search_mirrors(raw, slots, hash, wanted_slot, wanted_item, 0);
}

/// Writing to values in the bytes changes no table. Bytes that differ from
/// an archive only outside the header and the control tags of a table hold,
/// at the same position, a table with the same slots occupied at the same
/// places.
pub proof fn lemma_written_bytes_keep_table(before: Seq<u8>, after: Seq<u8>, pos: int, width: int)
    requires
        well_placed(before, pos, width),
        after.len() == before.len(),
        forall|i: int| pos <= i < pos + HEADER_SIZE ==> after[i] == before[i],
        forall|i: int|
            control_start(before, pos) <= i < control_start(before, pos) + stated_capacity(
                before,
                pos,
            ) ==> after[i] == before[i],
    ensures
        well_placed(after, pos, width),
        raw_slots(after, pos, width) == raw_slots(before, pos, width),
{
    assert forall|index: int| 0 <= index < 4 implies field(after, pos, index) == field(
        before,
        pos,
        index,
    ) by {
        assert(after.subrange(pos + 8 * index, pos + 8 * index + 8) =~= before.subrange(
            pos + 8 * index,
            pos + 8 * index + 8,
        ));
    }
}

/// `map` is what comes of `pairs` when they are planned and the plan,
/// `resolver`, is written for position `pos`: what `serialize_from_iter`
/// and `resolve_from_len` promise, taken together.
pub open spec fn built_from<KU: ArchiveKey, VU: Serialize>(
    map: ArchivedHashMap<<KU::Resolver as Resolve>::Archived, <VU::Resolver as Resolve>::Archived>,
    pairs: Seq<(&KU, &VU)>,
    resolver: HashMapResolver<KU::Resolver, VU::Resolver>,
    pos: nat,
) -> bool {
    let plan = resolver.table();
    &&& map@.len() == plan.spec_capacity()
    &&& is_plan(plan.spec_capacity(), key_hashes(pairs), plan.buckets())
    &&& plan.children().len() == pairs.len()
    &&& forall|i: int|
        0 <= i < pairs.len() ==> {
            let child = #[trigger] plan.children()[i];
            pairs[i].0.archives(child.key) && pairs[i].1.archives(child.value)
        }
    &&& holds_exactly(map@, plan.buckets(), plan.archived(pos))
}

/// Every key that went in is found. Looking up `key` in a map that was
/// built from `pairs` ends at the entry of the first pair whose key is the
/// same key: its bucket holds the archived forms of that pair's key and
/// value.
///
/// Where every key went in once, this is the entry of the key itself. Where
/// a key went in more than once, it is the entry that went in first, at
/// every lookup.
pub proof fn lemma_key_is_found<KU: ArchiveKey, VU: Serialize>(
    map: ArchivedHashMap<<KU::Resolver as Resolve>::Archived, <VU::Resolver as Resolve>::Archived>,
    pairs: Seq<(&KU, &VU)>,
    resolver: HashMapResolver<KU::Resolver, VU::Resolver>,
    pos: nat,
    key: &KU,
    i: int,
)
    requires
        built_from(map, pairs, resolver, pos),
        0 <= i < pairs.len(),
        key.same_key(pairs[i].0),
        forall|j: int| 0 <= j < i ==> !key.same_key((#[trigger] pairs[j]).0),
    ensures
        map.lookup(key) == Some(resolver.table().buckets()[i] as int),
        map@[resolver.table().buckets()[i] as int] == Some(resolver.table().archived(pos)[i]),
        pairs[i].0.archives(resolver.table().children()[i].key),
        pairs[i].1.archives(resolver.table().children()[i].value),
{
    let plan = resolver.table();
    let entries = plan.archived(pos);
    assert forall|j: int| 0 <= j <= i implies key.equivalent_spec(&(#[trigger] entries[j]).key)
        == key.same_key(pairs[j].0) by {
        let child = plan.children()[j];
        key.lemma_same_key(
            pairs[j].0,
            child.key,
            HashTableResolver::<EntryResolver<KU::Resolver, VU::Resolver>>::slot_position(
                pos,
                plan.spec_capacity(),
                plan.buckets()[j] as nat,
            ),
        );
    }
    let child = plan.children()[i];
    key.lemma_same_key(
        pairs[i].0,
        child.key,
        HashTableResolver::<EntryResolver<KU::Resolver, VU::Resolver>>::slot_position(
            pos,
            plan.spec_capacity(),
            plan.buckets()[i] as nat,
        ),
    );
    assert(key_hashes(pairs)[i] == pairs[i].0.hash_spec());
    lemma_map_finds_first(map, pairs, plan.buckets(), entries, key, i);
}

/// A key that never went in is missed: a map that was built from `pairs`
/// holds no entry for a key that is the same key as none of theirs.
pub proof fn lemma_key_is_missed<KU: ArchiveKey, VU: Serialize>(
    map: ArchivedHashMap<<KU::Resolver as Resolve>::Archived, <VU::Resolver as Resolve>::Archived>,
    pairs: Seq<(&KU, &VU)>,
    resolver: HashMapResolver<KU::Resolver, VU::Resolver>,
    pos: nat,
    key: &KU,
)
    requires
        built_from(map, pairs, resolver, pos),
        forall|j: int| 0 <= j < pairs.len() ==> !key.same_key((#[trigger] pairs[j]).0),
    ensures
        map.lookup(key) is None,
{
    let plan = resolver.table();
    let entries = plan.archived(pos);
    assert forall|j: int| 0 <= j < entries.len() implies !key.equivalent_spec(
        &(#[trigger] entries[j]).key,
    ) by {
        let child = plan.children()[j];
        key.lemma_same_key(
            pairs[j].0,
            child.key,
            HashTableResolver::<EntryResolver<KU::Resolver, VU::Resolver>>::slot_position(
                pos,
                plan.spec_capacity(),
                plan.buckets()[j] as nat,
            ),
        );
        assert(!key.same_key(pairs[j].0));
    }
    lemma_map_misses(map, plan.buckets(), entries, key);
}

/// The first of the first `upto` pairs whose key is the same key as `key`.
pub open spec fn first_same<KU: ArchiveKey, VU>(pairs: Seq<(&KU, &VU)>, key: &KU, upto: int) -> int
    decreases upto,
{
    if upto <= 0 {
        -1
    } else if first_same(pairs, key, upto - 1) >= 0 {
        first_same(pairs, key, upto - 1)
    } else if key.same_key(pairs[upto - 1].0) {
        upto - 1
    } else {
        -1
    }
}

/// `first_same` is the least index of a pair with the same key, and is
/// negative exactly where there is none.
pub proof fn lemma_first_same<KU: ArchiveKey, VU>(pairs: Seq<(&KU, &VU)>, key: &KU, upto: int)
    requires
        0 <= upto <= pairs.len(),
    ensures
        first_same(pairs, key, upto) < upto,
        first_same(pairs, key, upto) >= 0 ==> key.same_key(pairs[first_same(pairs, key, upto)].0),
        forall|j: int|
            0 <= j < upto && (first_same(pairs, key, upto) < 0 || j < first_same(pairs, key, upto))
                ==> !key.same_key((#[trigger] pairs[j]).0),
    decreases upto,
{
    if upto > 0 {
        lemma_first_same(pairs, key, upto - 1);
    }
}

/// A map that was built from `pairs` holds a key exactly where a pair with
/// the same key went in.
pub proof fn lemma_found_keys_went_in<KU: ArchiveKey, VU: Serialize>(
    map: ArchivedHashMap<<KU::Resolver as Resolve>::Archived, <VU::Resolver as Resolve>::Archived>,
    pairs: Seq<(&KU, &VU)>,
    resolver: HashMapResolver<KU::Resolver, VU::Resolver>,
    pos: nat,
    key: &KU,
)
    requires
        built_from(map, pairs, resolver, pos),
    ensures
        map.lookup(key) is Some <==> exists|j: int|
            0 <= j < pairs.len() && key.same_key((#[trigger] pairs[j]).0),
{
    lemma_first_same(pairs, key, pairs.len() as int);
    let first = first_same(pairs, key, pairs.len() as int);
    if first >= 0 {
        lemma_key_is_found(map, pairs, resolver, pos, key, first);
        assert(key.same_key(pairs[first].0));
    } else {
        lemma_key_is_missed(map, pairs, resolver, pos, key);
    }
}

/// Two plannings of the same items give the same table: the length and the
/// load factor decide the capacity, and the capacity and the hashes, in
/// their order, decide the bucket of every item.
pub proof fn lemma_same_input_same_plan(
    len: nat,
    load_factor: (usize, usize),
    hashes: Seq<u64>,
    capacity: nat,
    buckets: Seq<usize>,
    other_capacity: nat,
    other_buckets: Seq<usize>,
)
    requires
        is_capacity(capacity, len, load_factor),
        is_capacity(other_capacity, len, load_factor),
        is_plan(capacity, hashes, buckets),
        is_plan(other_capacity, hashes, other_buckets),
    ensures
        capacity == other_capacity,
        buckets == other_buckets,
{
    lemma_capacity_unique(capacity, other_capacity, len, load_factor);
    lemma_plan_unique(capacity, hashes, buckets, other_buckets);
}

/// Writing to values, however many, changes no lookup: a map with the same
/// slots occupied by the same keys finds every key where it was found
/// before, and misses what was missed.
pub proof fn lemma_values_keep_lookups<K, V, Q: HashKey + Equivalent<K>>(
    before: ArchivedHashMap<K, V>,
    after: ArchivedHashMap<K, V>,
    key: &Q,
)
    requires
        same_shape(before@, after@),
        forall|b: int|
            0 <= b < before@.len() && (#[trigger] before@[b]) is Some ==> after@[b].unwrap().key
                == before@[b].unwrap().key,
    ensures
        after.lookup(key) == before.lookup(key),
{
    lemma_search_same_keys(before@, after@, key.hash_spec(), wanted_key::<K, V, Q>(key), 0);
}

} // verus!
