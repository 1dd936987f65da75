//! Planning: which bucket each item of a construction gets.
//!
//! Items are placed in the order in which they come. Each takes the first
//! bucket on the walk of its hash that no earlier item has taken. The plan is
//! made in scratch memory, one byte per bucket, before anything is written
//! to its final place.

use crate::arena::Arena;
use crate::probe::{home_bucket, lemma_probe_reaches, next_bucket, probe, step_to};
use vstd::prelude::*;

verus! {

/// One of the first `count` placements took `bucket`.
pub open spec fn taken(buckets: Seq<usize>, count: int, bucket: int) -> bool {
    exists|j: int| 0 <= j < count && j < buckets.len() && (#[trigger] buckets[j]) == bucket
}

/// Item `i` sits at step `step` of the walk of `hash`: no earlier item has
/// taken its bucket, and earlier items have taken every bucket that the walk
/// visits before.
pub open spec fn placed_at(capacity: nat, hash: u64, buckets: Seq<usize>, i: int, step: int) -> bool {
    &&& 0 <= step < capacity
    &&& probe(hash, capacity, step) == buckets[i]
    &&& !taken(buckets, i, buckets[i] as int)
    &&& forall|e: int| 0 <= e < step ==> #[trigger] taken(buckets, i, probe(hash, capacity, e))
}

/// Item `i` sits at the first bucket on the walk of `hash` that no earlier
/// item has taken.
pub open spec fn placed(capacity: nat, hash: u64, buckets: Seq<usize>, i: int) -> bool {
    exists|step: int| #[trigger] placed_at(capacity, hash, buckets, i, step)
}

/// `buckets` places the items with the hashes `hashes`, in their order, in a
/// table of `capacity` slots.
pub open spec fn is_plan(capacity: nat, hashes: Seq<u64>, buckets: Seq<usize>) -> bool {
    &&& buckets.len() == hashes.len()
    &&& forall|i: int| 0 <= i < buckets.len() ==> #[trigger] placed(capacity, hashes[i], buckets, i)
}

/// No two items share a bucket, and every bucket lies in a table of
/// `capacity` slots.
pub open spec fn distinct_in(capacity: nat, buckets: Seq<usize>) -> bool {
    &&& forall|i: int| 0 <= i < buckets.len() ==> (#[trigger] buckets[i]) < capacity
    &&& forall|i: int, j: int|
        0 <= i < j < buckets.len() ==> (#[trigger] buckets[i]) != (#[trigger] buckets[j])
}

/// Whether a bucket was taken among the first placements does not depend on
/// the later ones.
pub proof fn lemma_taken_prefix(a: Seq<usize>, b: Seq<usize>, count: int, bucket: int)
    requires
        count <= a.len(),
        count <= b.len(),
        forall|j: int| 0 <= j < count ==> a[j] == b[j],
    ensures
        taken(a, count, bucket) == taken(b, count, bucket),
{
    if taken(a, count, bucket) {
        let j = choose|j: int| 0 <= j < count && j < a.len() && (#[trigger] a[j]) == bucket;
        assert(b[j] == bucket);
    }
    if taken(b, count, bucket) {
        let j = choose|j: int| 0 <= j < count && j < b.len() && (#[trigger] b[j]) == bucket;
        assert(a[j] == bucket);
    }
}

/// Where an item was placed does not depend on the items after it.
pub proof fn lemma_placed_prefix(capacity: nat, hash: u64, a: Seq<usize>, b: Seq<usize>, i: int)
    requires
        0 <= i < a.len(),
        i < b.len(),
        forall|j: int| 0 <= j <= i ==> a[j] == b[j],
        placed(capacity, hash, a, i),
    ensures
        placed(capacity, hash, b, i),
{
    let step = choose|step: int| #[trigger] placed_at(capacity, hash, a, i, step);
    lemma_taken_prefix(a, b, i, a[i] as int);
    assert forall|e: int| 0 <= e < step implies #[trigger] taken(
        b,
        i,
        probe(hash, capacity, e),
    ) by {
        assert(taken(a, i, probe(hash, capacity, e)));
        lemma_taken_prefix(a, b, i, probe(hash, capacity, e));
    }
    assert(placed_at(capacity, hash, b, i, step));
}

/// A plan gives every item a bucket of its own inside the table.
pub proof fn lemma_plan_distinct(capacity: nat, hashes: Seq<u64>, buckets: Seq<usize>)
    requires
        is_plan(capacity, hashes, buckets),
    ensures
        distinct_in(capacity, buckets),
{
    assert forall|i: int| 0 <= i < buckets.len() implies (#[trigger] buckets[i]) < capacity by {
        assert(placed(capacity, hashes[i], buckets, i));
        let step = choose|step: int| #[trigger] placed_at(capacity, hashes[i], buckets, i, step);
        assert(placed_at(capacity, hashes[i], buckets, i, step));
    }
    assert forall|i: int, j: int| 0 <= i < j < buckets.len() implies (#[trigger] buckets[i]) != (
    #[trigger] buckets[j]) by {
        assert(placed(capacity, hashes[j], buckets, j));
        let step = choose|step: int| #[trigger] placed_at(capacity, hashes[j], buckets, j, step);
        assert(placed_at(capacity, hashes[j], buckets, j, step));
        if buckets[i] == buckets[j] {
            assert(taken(buckets, j, buckets[j] as int));
        }
    }
}

/// The hashes and the capacity decide the plan: two plans for the same
/// hashes in a table of the same capacity are the same plan.
pub proof fn lemma_plan_unique(capacity: nat, hashes: Seq<u64>, a: Seq<usize>, b: Seq<usize>)
    requires
        is_plan(capacity, hashes, a),
        is_plan(capacity, hashes, b),
    ensures
        a == b,
{
    assert forall|i: int| 0 <= i < a.len() implies a[i] == b[i] by {
        lemma_plan_agrees(capacity, hashes, a, b, i);
    }
    assert(a =~= b);
}

/// Two plans for the same hashes agree up to every item.
proof fn lemma_plan_agrees(capacity: nat, hashes: Seq<u64>, a: Seq<usize>, b: Seq<usize>, i: int)
    requires
        is_plan(capacity, hashes, a),
        is_plan(capacity, hashes, b),
        0 <= i < a.len(),
    ensures
        forall|j: int| 0 <= j <= i ==> a[j] == b[j],
    decreases i,
{
    if i > 0 {
        lemma_plan_agrees(capacity, hashes, a, b, i - 1);
    }
    let hash = hashes[i];
    assert(placed(capacity, hash, a, i));
    assert(placed(capacity, hash, b, i));
    let step_a = choose|step: int| #[trigger] placed_at(capacity, hash, a, i, step);
    let step_b = choose|step: int| #[trigger] placed_at(capacity, hash, b, i, step);
    if step_a < step_b {
        assert(taken(b, i, probe(hash, capacity, step_a)));
        lemma_taken_prefix(a, b, i, a[i] as int);
    } else if step_b < step_a {
        assert(taken(a, i, probe(hash, capacity, step_b)));
        lemma_taken_prefix(a, b, i, b[i] as int);
    }
}

/// The number of flags that are set.
pub open spec fn count_set(flags: Seq<u8>) -> nat
    decreases flags.len(),
{
    if flags.len() == 0 {
        0
    } else {
        count_set(flags.drop_last()) + if flags.last() != 0 {
            1nat
        } else {
            0nat
        }
    }
}

/// Where no flag is set, none is counted.
proof fn lemma_count_clear(flags: Seq<u8>)
    requires
        forall|b: int| 0 <= b < flags.len() ==> flags[b] == 0,
    ensures
        count_set(flags) == 0,
    decreases flags.len(),
{
    if flags.len() > 0 {
        lemma_count_clear(flags.drop_last());
    }
}

/// Where every flag is set, all are counted.
proof fn lemma_count_full(flags: Seq<u8>)
    requires
        forall|b: int| 0 <= b < flags.len() ==> flags[b] != 0,
    ensures
        count_set(flags) == flags.len(),
    decreases flags.len(),
{
    if flags.len() > 0 {
        lemma_count_full(flags.drop_last());
    }
}

/// Setting a flag that was clear adds one to the count.
proof fn lemma_count_update(flags: Seq<u8>, bucket: int, flag: u8)
    requires
        0 <= bucket < flags.len(),
        flags[bucket] == 0,
        flag != 0,
    ensures
        count_set(flags.update(bucket, flag)) == count_set(flags) + 1,
    decreases flags.len(),
{
    let updated = flags.update(bucket, flag);
    if bucket == flags.len() - 1 {
        assert(updated.drop_last() =~= flags.drop_last());
    } else {
        lemma_count_update(flags.drop_last(), bucket, flag);
        assert(updated.drop_last() =~= flags.drop_last().update(bucket, flag));
    }
}

/// The flags of a plan in progress: one per bucket, set where one of the
/// first `count` items sits.
spec fn flags_match(flags: Seq<u8>, buckets: Seq<usize>, count: int) -> bool {
    forall|b: int| 0 <= b < flags.len() ==> ((#[trigger] flags[b]) != 0 <==> taken(buckets, count, b))
}

/// Places items with the hashes `hashes`, in their order, in a table of
/// `capacity` slots, and returns the bucket of each. The scratch memory is
/// given back before the function returns.
///
/// There is no plan where the scratch memory would become larger than a
/// buffer can be with one flag per bucket on top of what is allocated.
pub fn plan_buckets(hashes: &[u64], capacity: usize, arena: &mut Arena) -> (plan: Option<Vec<usize>>)
    requires
        old(arena).wf(),
        hashes@.len() <= capacity,
    ensures
        final(arena).wf(),
        final(arena).spec_used() == old(arena).spec_used(),
        final(arena).bytes() == old(arena).bytes(),
        match plan {
            Some(buckets) => is_plan(capacity as nat, hashes@, buckets@),
            None => old(arena).spec_used() + capacity > isize::MAX,
        },
{
    let base = match arena.push_alloc(capacity) {
        Some(base) => base,
        None => {
            return None;
        },
    };
    proof {
        arena.lemma_wf();
        lemma_count_clear(arena.bytes().subrange(base as int, base + capacity));
    }
    let mut buckets: Vec<usize> = Vec::new();
    let mut i: usize = 0;
    while i < hashes.len()
        invariant
            arena.wf(),
            base == old(arena).spec_used(),
            arena.spec_used() == base + capacity,
            arena.bytes().len() == base + capacity,
            base + capacity <= isize::MAX,
            arena.bytes().subrange(0, base as int) == old(arena).bytes(),
            hashes@.len() <= capacity,
            i <= hashes@.len(),
            buckets@.len() == i,
            forall|k: int| 0 <= k < i ==> #[trigger] placed(capacity as nat, hashes@[k], buckets@, k),
            flags_match(arena.bytes().subrange(base as int, base + capacity), buckets@, i as int),
            count_set(arena.bytes().subrange(base as int, base + capacity)) == i,
        decreases hashes@.len() - i,
    {
        let hash = hashes[i];
        let ghost flags = arena.bytes().subrange(base as int, base + capacity);
        let mut bucket = home_bucket(hash, capacity);
        let mut step: usize = 0;
        let mut free = false;
        while step < capacity && !free
            invariant
                arena.wf(),
                arena.spec_used() == base + capacity,
                arena.bytes().len() == base + capacity,
                base + capacity <= isize::MAX,
                flags.len() == capacity,
                i < capacity,
                count_set(flags) == i,
                flags == arena.bytes().subrange(base as int, base + capacity),
                flags_match(flags, buckets@, i as int),
                capacity > 0,
                step <= capacity,
                bucket < capacity,
                step < capacity ==> bucket == probe(hash, capacity as nat, step as int),
                free ==> step < capacity && flags[bucket as int] == 0,
                forall|e: int|
                    0 <= e < step ==> #[trigger] taken(
                        buckets@,
                        i as int,
                        probe(hash, capacity as nat, e),
                    ),
            decreases capacity - step + if free { 0int } else { 1int },
        {
            proof {
                arena.lemma_wf();
            }
            let flag = arena.read(base + bucket);
            assert(flag == flags[bucket as int]);
            if flag == 0 {
                free = true;
            } else {
                assert(taken(buckets@, i as int, probe(hash, capacity as nat, step as int)));
                bucket = next_bucket(bucket, capacity);
                step = step + 1;
            }
        }
        proof {
            if !free {
                assert forall|b: int| 0 <= b < flags.len() implies flags[b] != 0 by {
                    lemma_probe_reaches(hash, capacity as nat, b);
                    assert(taken(
                        buckets@,
                        i as int,
                        probe(hash, capacity as nat, step_to(hash, capacity as nat, b)),
                    ));
                }
                lemma_count_full(flags);
                assert(false);
            }
            lemma_count_update(flags, bucket as int, 1u8);
        }
        let ghost before = buckets@;
        arena.write(base + bucket, 1u8);
        buckets.push(bucket);
        proof {
            arena.lemma_wf();
            let after = arena.bytes().subrange(base as int, base + capacity);
            assert(after =~= flags.update(bucket as int, 1u8));
            assert(arena.bytes().subrange(0, base as int) =~= old(arena).bytes());
            assert(!taken(before, i as int, bucket as int));
            assert forall|e: int| 0 <= e < step implies #[trigger] taken(
                buckets@,
                i as int,
                probe(hash, capacity as nat, e),
            ) by {
                assert(taken(before, i as int, probe(hash, capacity as nat, e)));
                lemma_taken_prefix(before, buckets@, i as int, probe(hash, capacity as nat, e));
            }
            lemma_taken_prefix(before, buckets@, i as int, bucket as int);
            assert(placed_at(capacity as nat, hash, buckets@, i as int, step as int));
            assert forall|k: int| 0 <= k < i + 1 implies #[trigger] placed(
                capacity as nat,
                hashes@[k],
                buckets@,
                k,
            ) by {
                if k < i {
                    lemma_placed_prefix(capacity as nat, hashes@[k], before, buckets@, k);
                }
            }
            assert forall|b: int| 0 <= b < after.len() implies ((#[trigger] after[b]) != 0
                <==> taken(buckets@, i + 1, b)) by {
                lemma_taken_prefix(before, buckets@, i as int, b);
                if b == bucket {
                    assert(buckets@[i as int] == b);
                } else {
                    assert(after[b] == flags[b]);
                    if taken(buckets@, i + 1, b) {
                        let j = choose|j: int|
                            0 <= j < i + 1 && j < buckets@.len() && (#[trigger] buckets@[j]) == b;
                        assert(j < i);
                        assert(taken(buckets@, i as int, b));
                    }
                    if taken(buckets@, i as int, b) {
                        let j = choose|j: int|
                            0 <= j < i && j < buckets@.len() && (#[trigger] buckets@[j]) == b;
                        assert(taken(buckets@, i + 1, b));
                    }
                }
            }
        }
        i = i + 1;
    }
    arena.pop_alloc(base);
    Some(buckets)
}

} // verus!
