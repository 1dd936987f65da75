//! The one cache that all callers share. A caller that finds it empty gets
//! a new arena and does not wait. Of two arenas that come back, the first
//! is kept and the second is let go.

use crate::arena::{Arena, ArenaCache};
use crate::util::{acquire, shrunk_from, starts_with};
use vstd::prelude::*;

verus! {

/// Shrinks `arena` and puts it into the cache if the cache is empty. Where
/// another arena came back first, that one stays and `arena` is let go.
pub fn release(cache: &mut ArenaCache, arena: Arena)
    requires
        old(cache).wf(),
        arena.wf(),
    ensures
        final(cache).wf(),
        final(cache).spec_mode() == old(cache).spec_mode(),
        final(cache)@ is Some,
        match old(cache)@ {
            Some(other) => final(cache)@ == Some(other),
            None => shrunk_from(arena, final(cache)@.unwrap()),
        },
{
    let mut arena = arena;
    arena.shrink();
    if !cache.is_cached() {
        cache.set(arena);
    }
}

/// Calls `f` with exclusive access to the cached arena, or to a new one
/// where nothing is cached, and returns what `f` returns. Afterwards the
/// arena is shrunk and put into the cache for the next call.
pub fn with_arena<T, F: FnOnce(&mut Arena) -> T>(cache: &mut ArenaCache, f: F) -> (result: T)
    requires
        old(cache).wf(),
        forall|arena: &mut Arena| arena.wf() ==> #[trigger] call_requires(f, (arena,)),
        forall|arena: &mut Arena, result: T| #[trigger]
            call_ensures(f, (arena,), result) ==> final(arena).wf(),
    ensures
        final(cache).wf(),
        final(cache).spec_mode() == old(cache).spec_mode(),
        exists|arena: &mut Arena|
            {
                &&& starts_with(old(cache)@, *arena)
                &&& #[trigger] call_ensures(f, (arena,), result)
                &&& final(cache)@ is Some
                &&& shrunk_from(*final(arena), final(cache)@.unwrap())
            },
{
    let mut arena = acquire(cache);
    let result = f(&mut arena);
    release(cache, arena);
    result
}

/// Empties the cache. Nothing happens where it is empty already.
pub fn clear_arena(cache: &mut ArenaCache)
    ensures
        final(cache)@ is None,
        final(cache).spec_mode() == old(cache).spec_mode(),
{
    let _ = cache.take();
}

} // verus!
