//! The cache of one thread. Nothing else reaches it, so an arena that comes
//! back finds another in the cache only where a pass ran inside a pass. Of
//! the two the larger is kept.

use crate::arena::{Arena, ArenaCache};
use crate::util::{acquire, shrunk_from, starts_with};
use vstd::prelude::*;

verus! {

/// Shrinks `arena` and puts it into the cache, unless a larger arena is
/// there already.
pub fn release(cache: &mut ArenaCache, arena: Arena)
    requires
        old(cache).wf(),
        arena.wf(),
    ensures
        final(cache).wf(),
        final(cache).spec_mode() == old(cache).spec_mode(),
        final(cache)@ is Some,
        match old(cache)@ {
            Some(other) => if other.spec_capacity() > arena.spec_peak() {
                final(cache)@ == Some(other)
            } else {
                shrunk_from(arena, final(cache)@.unwrap())
            },
            None => shrunk_from(arena, final(cache)@.unwrap()),
        },
{
    let mut arena = arena;
    let capacity = arena.shrink();
    match cache.take() {
        Some(other) => {
            if other.capacity() > capacity {
                cache.set(other);
            } else {
                cache.set(arena);
            }
        },
        None => {
            cache.set(arena);
        },
    }
}

/// Calls `f` with exclusive access to the cached arena, or to a new one
/// where nothing is cached, and returns what `f` returns. Afterwards the
/// arena is shrunk and put into the cache for the next call.
pub fn with_arena<T, F: FnOnce(&mut Arena) -> T>(cache: &mut ArenaCache, f: F) -> (result: T)
    requires
        old(cache).wf(),
        forall|arena: &mut Arena| arena.wf() ==> #[trigger] call_requires(f, (arena,)),
        forall|arena: &mut Arena, result: T| #[trigger]
            call_ensures(f, (arena,), result) ==> final(arena).wf(),
    ensures
        final(cache).wf(),
        final(cache).spec_mode() == old(cache).spec_mode(),
        exists|arena: &mut Arena|
            {
                &&& starts_with(old(cache)@, *arena)
                &&& #[trigger] call_ensures(f, (arena,), result)
                &&& final(cache)@ is Some
                &&& shrunk_from(*final(arena), final(cache)@.unwrap())
            },
{
    let mut arena = acquire(cache);
    let result = f(&mut arena);
    release(cache, arena);
    result
}

/// Empties the cache. Nothing happens where it is empty already.
pub fn clear_arena(cache: &mut ArenaCache)
    ensures
        final(cache)@ is None,
        final(cache).spec_mode() == old(cache).spec_mode(),
{
    let _ = cache.take();
}

} // verus!
