//! Scratch memory for one construction pass.
//!
//! An arena hands out zeroed blocks of bytes from one buffer, last in, first
//! out. It grows when a pass asks for more than it holds, remembers the most
//! that a pass had allocated at one time, and can be shrunk to that mark
//! before it is put away for the next pass.

use vstd::prelude::*;

verus! {

/// The number of bytes that a new arena holds.
pub const DEFAULT_CAPACITY: usize = 1024;

/// A bump allocator over one growable buffer.
#[derive(Debug)]
pub struct Arena {
    memory: Vec<u8>,
    used: usize,
    peak: usize,
}

impl Arena {
    /// The marks lie inside the buffer, in order, and the buffer is no
    /// larger than a buffer can be.
    pub closed spec fn wf(&self) -> bool {
        self.used <= self.peak <= self.memory.len() <= isize::MAX
    }

    /// The number of bytes that the arena holds.
    pub closed spec fn spec_capacity(&self) -> nat {
        self.memory.len() as nat
    }

    /// The number of bytes that are allocated.
    pub closed spec fn spec_used(&self) -> nat {
        self.used as nat
    }

    /// The most that was allocated at one time since the last shrink.
    pub closed spec fn spec_peak(&self) -> nat {
        self.peak as nat
    }

    /// The allocated bytes.
    pub closed spec fn bytes(&self) -> Seq<u8> {
        self.memory@.subrange(0, self.used as int)
    }

    /// What a well-formed arena's marks and bytes satisfy.
    pub proof fn lemma_wf(&self)
        requires
            self.wf(),
        ensures
            self.spec_used() <= self.spec_peak() <= self.spec_capacity(),
            self.spec_capacity() <= isize::MAX,
            self.bytes().len() == self.spec_used(),
    {
    }

    /// An arena of `capacity` bytes with nothing allocated.
    pub fn with_capacity(capacity: usize) -> (arena: Arena)
        requires
            capacity <= isize::MAX,
        ensures
            arena.wf(),
            arena.spec_capacity() == capacity,
            arena.spec_used() == 0,
            arena.spec_peak() == 0,
    {
        Arena { memory: vec![0u8; capacity], used: 0, peak: 0 }
    }

    /// An arena of `DEFAULT_CAPACITY` bytes with nothing allocated.
    pub fn new() -> (arena: Arena)
        ensures
            arena.wf(),
            arena.spec_capacity() == DEFAULT_CAPACITY,
            arena.spec_used() == 0,
            arena.spec_peak() == 0,
    {
        Arena::with_capacity(DEFAULT_CAPACITY)
    }

    /// The number of bytes that the arena holds.
    pub fn capacity(&self) -> (capacity: usize)
        ensures
            capacity == self.spec_capacity(),
    {
        self.memory.len()
    }

    /// The number of bytes that are allocated.
    pub fn used(&self) -> (used: usize)
        ensures
            used == self.spec_used(),
    {
        self.used
    }

    /// Allocates `size` zeroed bytes on top of what is allocated and returns
    /// the offset of the first. The arena grows to hold them if it has to.
    /// Nothing is allocated where the arena would become larger than a
    /// buffer can be.
    pub fn push_alloc(&mut self, size: usize) -> (offset: Option<usize>)
        requires
            old(self).wf(),
        ensures
            final(self).wf(),
            match offset {
                Some(offset) => {
                    &&& offset == old(self).spec_used()
                    &&& final(self).spec_used() == offset + size
                    &&& final(self).bytes() == old(self).bytes() + Seq::new(size as nat, |i: int| 0u8)
                    &&& final(self).spec_capacity() == if offset + size > old(self).spec_capacity() {
                        (offset + size) as nat
                    } else {
                        old(self).spec_capacity()
                    }
                    &&& final(self).spec_peak() == if offset + size > old(self).spec_peak() {
                        (offset + size) as nat
                    } else {
                        old(self).spec_peak()
                    }
                },
                None => {
                    &&& old(self).spec_used() + size > isize::MAX
                    &&& *final(self) == *old(self)
                },
            },
    {
        let offset = self.used;
        let end = match offset.checked_add(size) {
            Some(end) => end,
            None => {
                return None;
            },
        };
        if end > isize::MAX as usize {
            return None;
        }
        if end > self.memory.len() {
            self.memory.resize(end, 0u8);
        }
        let ghost before = self.memory@;
        let mut at = offset;
        while at < end
            invariant
                offset <= at <= end,
                end <= self.memory.len(),
                self.memory.len() == before.len(),
                self.used == offset,
                self.peak == old(self).peak,
                forall|i: int| 0 <= i < offset ==> self.memory[i] == before[i],
                forall|i: int| offset <= i < at ==> self.memory[i] == 0u8,
            decreases end - at,
        {
            self.memory[at] = 0u8;
            at = at + 1;
        }
        self.used = end;
        if end > self.peak {
            self.peak = end;
        }
        assert(self.bytes() =~= old(self).bytes() + Seq::new(size as nat, |i: int| 0u8)) by {
            assert(before.subrange(0, old(self).memory.len() as int) == old(self).memory@
                || before == old(self).memory@);
            assert forall|i: int| 0 <= i < offset implies before[i] == old(self).memory[i] by {
                if before != old(self).memory@ {
                    assert(before.subrange(0, old(self).memory.len() as int)[i] == before[i]);
                }
            }
        }
        Some(offset)
    }

    /// Frees what was allocated at `offset` and after it.
    pub fn pop_alloc(&mut self, offset: usize)
        requires
            old(self).wf(),
            offset <= old(self).spec_used(),
        ensures
            final(self).wf(),
            final(self).spec_used() == offset,
            final(self).bytes() == old(self).bytes().subrange(0, offset as int),
            final(self).spec_capacity() == old(self).spec_capacity(),
            final(self).spec_peak() == old(self).spec_peak(),
    {
        self.used = offset;
        assert(self.bytes() =~= old(self).bytes().subrange(0, offset as int));
    }

    /// The allocated byte at `at`.
    pub fn read(&self, at: usize) -> (byte: u8)
        requires
            self.wf(),
            at < self.spec_used(),
        ensures
            byte == self.bytes()[at as int],
    {
        self.memory[at]
    }

    /// Overwrites the allocated byte at `at`.
    pub fn write(&mut self, at: usize, byte: u8)
        requires
            old(self).wf(),
            at < old(self).spec_used(),
        ensures
            final(self).wf(),
            final(self).bytes() == old(self).bytes().update(at as int, byte),
            final(self).spec_used() == old(self).spec_used(),
            final(self).spec_capacity() == old(self).spec_capacity(),
            final(self).spec_peak() == old(self).spec_peak(),
    {
        self.memory[at] = byte;
        assert(self.bytes() =~= old(self).bytes().update(at as int, byte));
    }

    /// Gives back the memory above the most that was allocated at one time
    /// since the last shrink, forgets that mark, and returns the capacity
    /// that is left.
    pub fn shrink(&mut self) -> (capacity: usize)
        requires
            old(self).wf(),
        ensures
            final(self).wf(),
            capacity == old(self).spec_peak(),
            final(self).spec_capacity() == old(self).spec_peak(),
            final(self).spec_used() == old(self).spec_used(),
            final(self).spec_peak() == old(self).spec_used(),
            final(self).bytes() == old(self).bytes(),
    {
        self.memory.truncate(self.peak);
        self.peak = self.used;
        assert(self.bytes() =~= old(self).bytes());
        self.memory.len()
    }
}

/// How a cache decides which arena to keep when one comes back and another
/// is already there.
#[derive(Clone, Copy, Debug)]
pub enum CacheMode {
    /// One cache for each thread: of two arenas the larger is kept.
    PerThread,
    /// One cache for all: the arena that came back first is kept.
    Shared,
}

/// A place for at most one arena between two passes.
pub struct ArenaCache {
    mode: CacheMode,
    slot: Option<Arena>,
}

impl View for ArenaCache {
    type V = Option<Arena>;

    /// The arena that is cached, if any.
    closed spec fn view(&self) -> Option<Arena> {
        self.slot
    }
}

impl ArenaCache {
    /// A cached arena is well formed.
    pub open spec fn wf(&self) -> bool {
        match self@ {
            Some(arena) => arena.wf(),
            None => true,
        }
    }

    /// How the cache decides between two arenas.
    pub closed spec fn spec_mode(&self) -> CacheMode {
        self.mode
    }

    /// An empty cache.
    pub fn new(mode: CacheMode) -> (cache: ArenaCache)
        ensures
            cache@ is None,
            cache.spec_mode() == mode,
    {
        ArenaCache { mode, slot: None }
    }

    /// How the cache decides between two arenas.
    pub fn mode(&self) -> (mode: CacheMode)
        ensures
            mode == self.spec_mode(),
    {
        self.mode
    }

    /// Whether an arena is cached.
    pub fn is_cached(&self) -> (cached: bool)
        ensures
            cached == self@ is Some,
    {
        self.slot.is_some()
    }

    /// Takes the cached arena out, if there is one.
    pub fn take(&mut self) -> (arena: Option<Arena>)
        ensures
            arena == old(self)@,
            final(self)@ is None,
            final(self).spec_mode() == old(self).spec_mode(),
    {
        self.slot.take()
    }

    /// Puts `arena` into the cache in place of what was there.
    pub fn set(&mut self, arena: Arena)
        ensures
            final(self)@ == Some(arena),
            final(self).spec_mode() == old(self).spec_mode(),
    {
        self.slot = Some(arena);
    }
}

} // verus!
