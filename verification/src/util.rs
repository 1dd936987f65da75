//! Running a pass with scratch memory from a cache.

pub mod local;
pub mod shared;

use crate::arena::{Arena, ArenaCache, CacheMode};
use crate::ser::{ArchiveError, Emit, Resolve, Serialize, Serializer, Writer};
use vstd::prelude::*;

verus! {

/// `arena` is what a pass starts with when it has taken `cached` out of the
/// cache: the cached arena, or a new one where nothing was cached.
pub open spec fn starts_with(cached: Option<Arena>, arena: Arena) -> bool {
    match cached {
        Some(cached) => arena == cached,
        None => {
            &&& arena.wf()
            &&& arena.spec_capacity() == crate::arena::DEFAULT_CAPACITY
            &&& arena.spec_used() == 0
            &&& arena.spec_peak() == 0
        },
    }
}

/// `kept` is `arena` after a shrink: its capacity is the most that was
/// allocated at one time, and what is allocated is as it was.
pub open spec fn shrunk_from(arena: Arena, kept: Arena) -> bool {
    &&& kept.wf()
    &&& kept.spec_capacity() == arena.spec_peak()
    &&& kept.spec_used() == arena.spec_used()
    &&& kept.spec_peak() == arena.spec_used()
    &&& kept.bytes() == arena.bytes()
}

/// Takes the arena for a pass out of the cache, or makes a new one where
/// nothing is cached. The cache is empty afterwards.
pub fn acquire(cache: &mut ArenaCache) -> (arena: Arena)
    requires
        old(cache).wf(),
    ensures
        arena.wf(),
        starts_with(old(cache)@, arena),
        final(cache)@ is None,
        final(cache).spec_mode() == old(cache).spec_mode(),
{
    match cache.take() {
        Some(arena) => arena,
        None => Arena::new(),
    }
}

/// Shrinks `arena` and puts it back as the cache's mode has it: a cache of
/// one thread keeps the larger of two arenas, a shared cache the one that
/// was there first.
pub fn release(cache: &mut ArenaCache, arena: Arena)
    requires
        old(cache).wf(),
        arena.wf(),
    ensures
        final(cache).wf(),
        final(cache).spec_mode() == old(cache).spec_mode(),
        final(cache)@ is Some,
        match old(cache)@ {
            Some(other) => if old(cache).spec_mode() is Shared || other.spec_capacity()
                > arena.spec_peak() {
                final(cache)@ == Some(other)
            } else {
                shrunk_from(arena, final(cache)@.unwrap())
            },
            None => shrunk_from(arena, final(cache)@.unwrap()),
        },
{
    match cache.mode() {
        CacheMode::PerThread => local::release(cache, arena),
        CacheMode::Shared => shared::release(cache, arena),
    }
}

/// Calls `f` with exclusive access to the cached arena, or to a new one
/// where nothing is cached, and returns what `f` returns. Afterwards the
/// arena is shrunk and put into the cache for the next call.
pub fn with_arena<T, F: FnOnce(&mut Arena) -> T>(cache: &mut ArenaCache, f: F) -> (result: T)
    requires
        old(cache).wf(),
        forall|arena: &mut Arena| arena.wf() ==> #[trigger] call_requires(f, (arena,)),
        forall|arena: &mut Arena, result: T| #[trigger]
            call_ensures(f, (arena,), result) ==> final(arena).wf(),
    ensures
        final(cache).wf(),
        final(cache).spec_mode() == old(cache).spec_mode(),
        exists|arena: &mut Arena|
            {
                &&& starts_with(old(cache)@, *arena)
                &&& #[trigger] call_ensures(f, (arena,), result)
                &&& final(cache)@ is Some
                &&& shrunk_from(*final(arena), final(cache)@.unwrap())
            },
{
    match cache.mode() {
        CacheMode::PerThread => local::with_arena(cache, f),
        CacheMode::Shared => shared::with_arena(cache, f),
    }
}

/// Empties the cache. Nothing happens where it is empty already.
pub fn clear_arena(cache: &mut ArenaCache)
    ensures
        final(cache)@ is None,
        final(cache).spec_mode() == old(cache).spec_mode(),
{
    match cache.mode() {
        CacheMode::PerThread => local::clear_arena(cache),
        CacheMode::Shared => shared::clear_arena(cache),
    }
}

/// Writes the archived form that `resolver` resolves to at the end of
/// `writer`, resolved for the position at which it is written.
///
/// Nothing is written where the archived form would end outside the
/// machine's word, or where it has no bytes.
pub fn emit_root<R: Resolve, W: Writer>(resolver: R, writer: &mut W) -> (done: Result<
    (),
    ArchiveError,
>)
    ensures
        old(writer).written().is_prefix_of(final(writer).written()),
        ({
            let pos = old(writer).written().len();
            let end = pos + <R::Archived as Emit>::spec_width();
            match done {
                Ok(()) => final(writer).written() == old(writer).written() + resolver.resolved(
                    pos,
                ).spec_bytes(),
                Err(ArchiveError::CapacityOverflow) => {
                    &&& end > usize::MAX
                    &&& final(writer).written() == old(writer).written()
                },
                Err(ArchiveError::Writer) => end <= usize::MAX,
                Err(error) => {
                    &&& error == ArchiveError::Value
                    &&& end <= usize::MAX
                    &&& final(writer).written() == old(writer).written()
                },
            }
        }),
{
    let pos = writer.pos();
    let fits = match <R::Archived as Emit>::width() {
        Some(width) => pos.checked_add(width).is_some(),
        None => false,
    };
    if !fits {
        return Err(ArchiveError::CapacityOverflow);
    }
    let archived = resolver.resolve(pos);
    archived.emit(writer)
}

/// What `archive_with` hands back for `value` and `writer`: a sink that
/// holds what `writer` held and ends with the bytes of the archived form of
/// the value, resolved for the position at which it is written; or an error
/// of the value, of the sink or of the size.
pub open spec fn archived_into<T: Serialize, W: Writer>(
    value: &T,
    writer: W,
    done: Result<W, ArchiveError>,
) -> bool {
    match done {
        Ok(out) => {
            let width = <<T::Resolver as Resolve>::Archived as Emit>::spec_width();
            let pos = out.written().len() - width;
            &&& writer.written().is_prefix_of(out.written())
            &&& writer.written().len() <= pos
            &&& exists|resolver: T::Resolver|
                #![trigger value.archives(resolver)]
                value.archives(resolver) && out.written().subrange(
                    pos,
                    out.written().len() as int,
                ) == resolver.resolved(pos as nat).spec_bytes()
        },
        Err(error) => error != ArchiveError::InvalidLoadFactor,
    }
}

/// Archives `value` into `writer` in one pass with `arena` for scratch
/// memory: writes what the value keeps out of line, then the archived form
/// of the value itself, resolved for the position at which it is written.
/// So the archive ends with the value's own bytes. The arena comes back
/// with the result.
///
/// The pass fails where the value fails to serialize and where `emit_root`
/// fails.
pub fn archive_with<T: Serialize, W: Writer>(value: &T, writer: W, arena: Arena) -> (done: (
    Result<W, ArchiveError>,
    Arena,
))
    requires
        arena.wf(),
    ensures
        done.1.wf(),
        done.1.spec_used() == arena.spec_used(),
        archived_into(value, writer, done.0),
{
    let mut serializer = Serializer::new(writer, arena);
    let done = match value.serialize(&mut serializer) {
        Ok(resolver) => {
            let ghost pos = serializer.writer.written().len();
            let ghost archived = resolver.resolved(pos);
            let done = emit_root(resolver, &mut serializer.writer);
            proof {
                if done is Ok {
                    archived.lemma_width();
                    let out = serializer.writer.written();
                    assert(out.subrange(pos as int, out.len() as int) =~= archived.spec_bytes());
                    assert(value.archives(resolver));
                }
            }
            done
        },
        Err(error) => Err(error),
    };
    let (writer, arena) = serializer.into_parts();
    match done {
        Ok(()) => (Ok(writer), arena),
        Err(error) => (Err(error), arena),
    }
}

/// Archives `value` into `writer` in one pass with the cached arena, as
/// `archive_with` does it. The arena goes back to the cache whether the
/// pass fails or not.
pub fn to_bytes_in<T: Serialize, W: Writer>(cache: &mut ArenaCache, value: &T, writer: W) -> (done:
    Result<W, ArchiveError>)
    requires
        old(cache).wf(),
    ensures
        final(cache).wf(),
        final(cache).spec_mode() == old(cache).spec_mode(),
        final(cache)@ is Some,
        archived_into(value, writer, done),
{
    let arena = acquire(cache);
    let (done, arena) = archive_with(value, writer, arena);
    release(cache, arena);
    done
}

/// Archives `value` into a new buffer in one pass with the cached arena.
/// The archive ends with the value's own bytes.
pub fn to_bytes<T: Serialize>(cache: &mut ArenaCache, value: &T) -> (done: Result<
    Vec<u8>,
    ArchiveError,
>)
    requires
        old(cache).wf(),
    ensures
        final(cache).wf(),
        final(cache).spec_mode() == old(cache).spec_mode(),
        final(cache)@ is Some,
        match done {
            Ok(out) => {
                let width = <<T::Resolver as Resolve>::Archived as Emit>::spec_width();
                let pos = out@.len() - width;
                &&& 0 <= pos
                &&& exists|resolver: T::Resolver|
                    #![trigger value.archives(resolver)]
                    value.archives(resolver) && out@.subrange(pos, out@.len() as int)
                        == resolver.resolved(pos as nat).spec_bytes()
            },
            Err(error) => error != ArchiveError::InvalidLoadFactor,
        },
{
    to_bytes_in(cache, value, Vec::new())
}

} // verus!
