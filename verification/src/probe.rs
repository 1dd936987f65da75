//! The probing rule: which buckets a hash visits, and in what order.
//!
//! A hash starts at its home bucket, the hash modulo the capacity, and walks
//! forward one bucket at a time, wrapping at the end of the table. Within
//! `capacity` steps it has visited every bucket once. Placement and search
//! both go by this one walk.

use vstd::prelude::*;

verus! {

/// The bucket at which the walk of `hash` starts.
pub open spec fn home(hash: u64, capacity: nat) -> int {
    hash as int % capacity as int
}

/// The bucket that `hash` visits at step `step` of its walk.
pub open spec fn probe(hash: u64, capacity: nat, step: int) -> int {
    let start = home(hash, capacity);
    if start + step < capacity {
        start + step
    } else {
        start + step - capacity
    }
}

/// What the slot holds that `hash` visits at step `step`.
pub open spec fn probed<T>(slots: Seq<Option<T>>, hash: u64, step: int) -> Option<T> {
    slots[probe(hash, slots.len(), step)]
}

/// The first `steps` steps of the walk all meet an occupied slot whose item
/// is in `rejected`.
pub open spec fn passes<T>(
    slots: Seq<Option<T>>,
    hash: u64,
    rejected: spec_fn(T) -> bool,
    steps: int,
) -> bool {
    forall|d: int|
        0 <= d < steps ==> match #[trigger] probed(slots, hash, d) {
            Some(item) => rejected(item),
            None => false,
        }
}

/// The walk of `hash` ends at `bucket` with an item in `accepted`, after
/// passing only occupied slots whose items are in `rejected`.
pub open spec fn hit<T>(
    slots: Seq<Option<T>>,
    hash: u64,
    accepted: spec_fn(T) -> bool,
    rejected: spec_fn(T) -> bool,
    bucket: int,
) -> bool {
    exists|d: int|
        {
            &&& 0 <= d < slots.len()
            &&& #[trigger] probe(hash, slots.len(), d) == bucket
            &&& passes(slots, hash, rejected, d)
            &&& match slots[bucket] {
                Some(item) => accepted(item),
                None => false,
            }
        }
}

/// The walk of `hash` ends without an item: at an empty slot, or after it
/// has visited every bucket, having passed only occupied slots whose items
/// are in `rejected`.
pub open spec fn miss<T>(slots: Seq<Option<T>>, hash: u64, rejected: spec_fn(T) -> bool) -> bool {
    exists|d: int|
        {
            &&& 0 <= d <= slots.len()
            &&& #[trigger] passes(slots, hash, rejected, d)
            &&& (d == slots.len() || probed(slots, hash, d) is None)
        }
}

/// The bucket at which a search for `hash` ends when it starts at step
/// `step`: the first visited slot whose item is `wanted`, unless an empty
/// slot or the end of the walk comes first.
pub open spec fn search_from<T>(
    slots: Seq<Option<T>>,
    hash: u64,
    wanted: spec_fn(T) -> bool,
    step: int,
) -> Option<int>
    decreases slots.len() - step,
{
    if step < 0 || step >= slots.len() {
        None
    } else {
        match probed(slots, hash, step) {
            None => None,
            Some(item) => if wanted(item) {
                Some(probe(hash, slots.len(), step))
            } else {
                search_from(slots, hash, wanted, step + 1)
            },
        }
    }
}

/// The bucket that a search for `hash` and `wanted` finds, if any.
pub open spec fn search<T>(slots: Seq<Option<T>>, hash: u64, wanted: spec_fn(T) -> bool) -> Option<int> {
    search_from(slots, hash, wanted, 0)
}

/// Every step of a walk lands inside the table.
pub proof fn lemma_probe_in_range(hash: u64, capacity: nat, step: int)
    requires
        capacity > 0,
        0 <= step < capacity,
    ensures
        0 <= probe(hash, capacity, step) < capacity,
{
}

/// Two different steps of one walk land on different buckets.
pub proof fn lemma_probe_injective(hash: u64, capacity: nat, a: int, b: int)
    requires
        capacity > 0,
        0 <= a < capacity,
        0 <= b < capacity,
        probe(hash, capacity, a) == probe(hash, capacity, b),
    ensures
        a == b,
{
}

/// The step at which the walk of `hash` reaches `bucket`.
pub open spec fn step_to(hash: u64, capacity: nat, bucket: int) -> int {
    let start = home(hash, capacity);
    if bucket >= start {
        bucket - start
    } else {
        bucket - start + capacity
    }
}

/// A walk reaches every bucket of the table.
pub proof fn lemma_probe_reaches(hash: u64, capacity: nat, bucket: int)
    requires
        capacity > 0,
        0 <= bucket < capacity,
    ensures
        0 <= step_to(hash, capacity, bucket) < capacity,
        probe(hash, capacity, step_to(hash, capacity, bucket)) == bucket,
{
}

/// Hashes with one home bucket walk alike.
pub proof fn lemma_same_home_same_walk(a: u64, b: u64, capacity: nat, step: int)
    requires
        home(a, capacity) == home(b, capacity),
    ensures
        probe(a, capacity, step) == probe(b, capacity, step),
{
}

/// A search that has passed `steps` rejected items goes on from there.
pub proof fn lemma_search_skips<T>(
    slots: Seq<Option<T>>,
    hash: u64,
    wanted: spec_fn(T) -> bool,
    rejected: spec_fn(T) -> bool,
    steps: int,
)
    requires
        0 <= steps <= slots.len(),
        passes(slots, hash, rejected, steps),
        forall|item: T| #[trigger] rejected(item) ==> !wanted(item),
    ensures
        search(slots, hash, wanted) == search_from(slots, hash, wanted, steps),
    decreases steps,
{
    if steps > 0 {
        assert(passes(slots, hash, rejected, steps - 1));
        lemma_search_skips(slots, hash, wanted, rejected, steps - 1);
        assert(probed(slots, hash, steps - 1) is Some);
        assert(rejected(probed(slots, hash, steps - 1).unwrap()));
    }
}

/// Where a predicate decides every item one way, a hit is what `search`
/// computes.
pub proof fn lemma_hit_is_search<T>(
    slots: Seq<Option<T>>,
    hash: u64,
    wanted: spec_fn(T) -> bool,
    accepted: spec_fn(T) -> bool,
    rejected: spec_fn(T) -> bool,
    bucket: int,
)
    requires
        hit(slots, hash, accepted, rejected, bucket),
        forall|item: T| #[trigger] accepted(item) ==> wanted(item),
        forall|item: T| #[trigger] rejected(item) ==> !wanted(item),
    ensures
        search(slots, hash, wanted) == Some(bucket),
{
    let d = choose|d: int|
        {
            &&& 0 <= d < slots.len()
            &&& #[trigger] probe(hash, slots.len(), d) == bucket
            &&& passes(slots, hash, rejected, d)
            &&& match slots[bucket] {
                Some(item) => accepted(item),
                None => false,
            }
        };
    lemma_search_skips(slots, hash, wanted, rejected, d);
    assert(accepted(slots[bucket].unwrap()));
}

/// Where a predicate decides every item one way, a miss is what `search`
/// computes.
pub proof fn lemma_miss_is_search<T>(
    slots: Seq<Option<T>>,
    hash: u64,
    wanted: spec_fn(T) -> bool,
    rejected: spec_fn(T) -> bool,
)
    requires
        miss(slots, hash, rejected),
        forall|item: T| #[trigger] rejected(item) ==> !wanted(item),
    ensures
        search(slots, hash, wanted) is None,
{
    let d = choose|d: int|
        {
            &&& 0 <= d <= slots.len()
            &&& #[trigger] passes(slots, hash, rejected, d)
            &&& (d == slots.len() || probed(slots, hash, d) is None)
        };
    lemma_search_skips(slots, hash, wanted, rejected, d);
}

/// A hit stays a hit under predicates that allow more.
pub proof fn lemma_hit_weaken<T>(
    slots: Seq<Option<T>>,
    hash: u64,
    accepted: spec_fn(T) -> bool,
    rejected: spec_fn(T) -> bool,
    accepted_more: spec_fn(T) -> bool,
    rejected_more: spec_fn(T) -> bool,
    bucket: int,
)
    requires
        hit(slots, hash, accepted, rejected, bucket),
        forall|item: T| #[trigger] accepted(item) ==> accepted_more(item),
        forall|item: T| #[trigger] rejected(item) ==> rejected_more(item),
    ensures
        hit(slots, hash, accepted_more, rejected_more, bucket),
{
    let d = choose|d: int|
        {
            &&& 0 <= d < slots.len()
            &&& #[trigger] probe(hash, slots.len(), d) == bucket
            &&& passes(slots, hash, rejected, d)
            &&& match slots[bucket] {
                Some(item) => accepted(item),
                None => false,
            }
        };
    assert forall|e: int| 0 <= e < d implies match #[trigger] probed(slots, hash, e) {
        Some(item) => rejected_more(item),
        None => false,
    } by {
        assert(rejected(probed(slots, hash, e).unwrap()));
    }
    assert(accepted(slots[bucket].unwrap()));
    assert(probe(hash, slots.len(), d) == bucket);
}

/// A miss stays a miss under a predicate that allows more.
pub proof fn lemma_miss_weaken<T>(
    slots: Seq<Option<T>>,
    hash: u64,
    rejected: spec_fn(T) -> bool,
    rejected_more: spec_fn(T) -> bool,
)
    requires
        miss(slots, hash, rejected),
        forall|item: T| #[trigger] rejected(item) ==> rejected_more(item),
    ensures
        miss(slots, hash, rejected_more),
{
    let d = choose|d: int|
        {
            &&& 0 <= d <= slots.len()
            &&& #[trigger] passes(slots, hash, rejected, d)
            &&& (d == slots.len() || probed(slots, hash, d) is None)
        };
    assert forall|e: int| 0 <= e < d implies match #[trigger] probed(slots, hash, e) {
        Some(item) => rejected_more(item),
        None => false,
    } by {
        assert(rejected(probed(slots, hash, e).unwrap()));
    }
    assert(passes(slots, hash, rejected_more, d));
}

/// The home bucket of `hash` in a table of `capacity` slots.
pub fn home_bucket(hash: u64, capacity: usize) -> (bucket: usize)
    requires
        capacity > 0,
    ensures
        bucket == home(hash, capacity as nat),
        bucket < capacity,
{
    (hash % (capacity as u64)) as usize
}

/// The bucket that follows `bucket` in every walk.
pub fn next_bucket(bucket: usize, capacity: usize) -> (next: usize)
    requires
        bucket < capacity,
    ensures
        next < capacity,
        next == if bucket + 1 < capacity {
            bucket + 1
        } else {
            0
        },
{
    if bucket + 1 < capacity {
        bucket + 1
    } else {
        0
    }
}

} // verus!
