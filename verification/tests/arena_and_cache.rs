use rkyv::arena::{Arena, ArenaCache, CacheMode, DEFAULT_CAPACITY};
use rkyv::map::ArchivedHashMap;
use rkyv::ser::{ArchiveError, Serializer};
use rkyv::util::{
    acquire, archive_with, clear_arena, local, release, shared, to_bytes, to_bytes_in, with_arena,
};

#[test]
fn an_arena_hands_out_zeroed_blocks_last_in_first_out() {
    let mut arena = Arena::new();
    assert_eq!(arena.capacity(), DEFAULT_CAPACITY);
    assert_eq!(arena.capacity(), 1024);
    assert_eq!(arena.used(), 0);
    let first = arena.push_alloc(10).unwrap();
    assert_eq!(first, 0);
    assert_eq!(arena.used(), 10);
    for at in 0..10 {
        assert_eq!(arena.read(at), 0);
    }
    arena.write(3, 7);
    let second = arena.push_alloc(5).unwrap();
    assert_eq!(second, 10);
    assert_eq!(arena.used(), 15);
    arena.write(12, 9);
    assert_eq!(arena.read(3), 7);
    assert_eq!(arena.read(12), 9);
    arena.pop_alloc(second);
    assert_eq!(arena.used(), 10);
    // What is handed out again is zeroed again.
    let again = arena.push_alloc(5).unwrap();
    assert_eq!(again, 10);
    assert_eq!(arena.read(12), 0);
    assert_eq!(arena.read(3), 7);
    arena.pop_alloc(0);
    assert_eq!(arena.used(), 0);
    assert_eq!(arena.capacity(), 1024);
}

#[test]
fn an_arena_grows_and_shrinks_to_what_was_used() {
    let mut arena = Arena::with_capacity(4);
    assert_eq!(arena.capacity(), 4);
    let block = arena.push_alloc(100).unwrap();
    assert_eq!(block, 0);
    assert_eq!(arena.capacity(), 100);
    assert_eq!(arena.read(99), 0);
    arena.pop_alloc(block);
    let small = arena.push_alloc(30).unwrap();
    arena.pop_alloc(small);
    assert_eq!(arena.capacity(), 100);
    assert_eq!(arena.shrink(), 100);
    assert_eq!(arena.capacity(), 100);
    // The next pass uses less; the arena shrinks to that.
    let small = arena.push_alloc(30).unwrap();
    arena.pop_alloc(small);
    assert_eq!(arena.shrink(), 30);
    assert_eq!(arena.capacity(), 30);
    assert_eq!(arena.shrink(), 0);
    assert_eq!(arena.capacity(), 0);

    let mut arena = Arena::new();
    arena.push_alloc(1).unwrap();
    assert_eq!(arena.push_alloc(usize::MAX), None);
    assert_eq!(arena.used(), 1);
    assert_eq!(arena.capacity(), 1024);
}

#[test]
fn with_arena_returns_what_the_pass_returns_and_caches_the_arena() {
    for mode in [CacheMode::PerThread, CacheMode::Shared] {
        let mut cache = ArenaCache::new(mode);
        assert!(!cache.is_cached());
        let result = with_arena(&mut cache, |arena: &mut Arena| {
            let block = arena.push_alloc(2000).unwrap();
            arena.write(block + 1999, 1);
            let read = arena.read(block + 1999);
            arena.pop_alloc(block);
            (arena.capacity(), read)
        });
        assert_eq!(result, (2000, 1));
        assert!(cache.is_cached());
        // The cached arena comes back, shrunk to what the pass used.
        let capacity = with_arena(&mut cache, |arena: &mut Arena| {
            let capacity = arena.capacity();
            let block = arena.push_alloc(10).unwrap();
            arena.pop_alloc(block);
            capacity
        });
        assert_eq!(capacity, 2000);
        let capacity = with_arena(&mut cache, |arena: &mut Arena| arena.capacity());
        assert_eq!(capacity, 10);
        clear_arena(&mut cache);
        assert!(!cache.is_cached());
        clear_arena(&mut cache);
        assert!(!cache.is_cached());
        let capacity = with_arena(&mut cache, |arena: &mut Arena| arena.capacity());
        assert_eq!(capacity, 1024);
    }
}

#[test]
fn the_strategies_by_their_own_names() {
    let mut cache = ArenaCache::new(CacheMode::PerThread);
    assert_eq!(local::with_arena(&mut cache, |arena: &mut Arena| arena.capacity() + 1), 1025);
    assert!(cache.is_cached());
    local::clear_arena(&mut cache);
    assert!(!cache.is_cached());

    let mut cache = ArenaCache::new(CacheMode::Shared);
    assert_eq!(shared::with_arena(&mut cache, |arena: &mut Arena| arena.capacity() + 2), 1026);
    assert!(cache.is_cached());
    shared::clear_arena(&mut cache);
    assert!(!cache.is_cached());
}

#[test]
fn a_cache_of_one_thread_keeps_the_larger_arena() {
    let mut cache = ArenaCache::new(CacheMode::PerThread);
    let mut outer = acquire(&mut cache);
    let mut inner = acquire(&mut cache);
    assert_eq!(outer.capacity(), 1024);
    assert_eq!(inner.capacity(), 1024);
    let block = outer.push_alloc(50).unwrap();
    outer.pop_alloc(block);
    let block = inner.push_alloc(500).unwrap();
    inner.pop_alloc(block);
    local::release(&mut cache, inner);
    local::release(&mut cache, outer);
    assert_eq!(acquire(&mut cache).capacity(), 500);

    let mut first = acquire(&mut cache);
    let mut second = acquire(&mut cache);
    let block = first.push_alloc(50).unwrap();
    first.pop_alloc(block);
    let block = second.push_alloc(500).unwrap();
    second.pop_alloc(block);
    local::release(&mut cache, first);
    local::release(&mut cache, second);
    assert_eq!(acquire(&mut cache).capacity(), 500);
}

fn build(arena: Arena, pairs: &[(u64, u64)]) -> (ArchivedHashMap<u64, u64>, Arena) {
    let refs: Vec<(&u64, &u64)> = pairs.iter().map(|pair| (&pair.0, &pair.1)).collect();
    let mut serializer = Serializer::new(Vec::<u8>::new(), arena);
    let resolver =
        ArchivedHashMap::<u64, u64>::serialize_from_iter(&refs, (1, 2), &mut serializer).unwrap();
    assert!(resolver.fits_at(0));
    let mut map = ArchivedHashMap::new();
    ArchivedHashMap::resolve_from_len(pairs.len(), (1, 2), 0, resolver, &mut map);
    let (_, arena) = serializer.into_parts();
    (map, arena)
}

#[test]
fn two_constructions_at_once_under_a_shared_cache() {
    let one: Vec<(u64, u64)> = (0..700u64).map(|i| (i * 3, i)).collect();
    let two: Vec<(u64, u64)> = (0..20u64).map(|i| (i * 5, i + 1000)).collect();
    for first_back in [1, 2] {
        let mut cache = ArenaCache::new(CacheMode::Shared);
        // Both callers find the cache empty and get an arena of their own.
        let arena_one = acquire(&mut cache);
        assert!(!cache.is_cached());
        let arena_two = acquire(&mut cache);
        let (map_one, arena_one) = build(arena_one, &one);
        let (map_two, arena_two) = build(arena_two, &two);
        if first_back == 1 {
            shared::release(&mut cache, arena_one);
            shared::release(&mut cache, arena_two);
        } else {
            shared::release(&mut cache, arena_two);
            shared::release(&mut cache, arena_one);
        }
        assert!(cache.is_cached());
        // The arena that came back first is the one that stays.
        let kept = acquire(&mut cache);
        assert_eq!(kept.capacity(), if first_back == 1 { 1400 } else { 40 });
        for (key, value) in &one {
            assert_eq!(map_one.get(key), Some(value));
        }
        for (key, value) in &two {
            assert_eq!(map_two.get(key), Some(value));
        }
        assert_eq!(map_one.len(), 700);
        assert_eq!(map_two.len(), 20);
        assert_eq!(map_one.get(&1), None);
        assert_eq!(map_two.get(&1), None);
    }
}

#[test]
fn release_by_the_mode_of_the_cache() {
    let mut cache = ArenaCache::new(CacheMode::Shared);
    assert!(matches!(cache.mode(), CacheMode::Shared));
    let small = Arena::with_capacity(8);
    let mut large = Arena::with_capacity(8);
    let block = large.push_alloc(64).unwrap();
    large.pop_alloc(block);
    release(&mut cache, small);
    release(&mut cache, large);
    assert_eq!(cache.take().unwrap().capacity(), 0);

    let mut cache = ArenaCache::new(CacheMode::PerThread);
    let small = Arena::with_capacity(8);
    let mut large = Arena::with_capacity(8);
    let block = large.push_alloc(64).unwrap();
    large.pop_alloc(block);
    release(&mut cache, small);
    release(&mut cache, large);
    assert_eq!(cache.take().unwrap().capacity(), 64);
    assert!(cache.take().is_none());
    cache.set(Arena::with_capacity(3));
    assert_eq!(cache.take().unwrap().capacity(), 3);
}

#[test]
fn to_bytes_in_vec() {
    let mut cache = ArenaCache::new(CacheMode::PerThread);
    let value = "hello world".to_string();
    let bytes = to_bytes_in(&mut cache, &value, Vec::new()).unwrap();
    assert!(!bytes.is_empty());
}

#[test]
fn the_archive_of_a_string_ends_with_its_archived_form() {
    let mut cache = ArenaCache::new(CacheMode::PerThread);
    let value = "hello world".to_string();
    let bytes = to_bytes(&mut cache, &value).unwrap();
    let mut expected = b"hello world".to_vec();
    // The text lies eleven bytes before the archived string.
    expected.extend_from_slice(&(-11i64).to_le_bytes());
    expected.extend_from_slice(&11u64.to_le_bytes());
    assert_eq!(bytes, expected);
    assert!(cache.is_cached());

    let bytes = to_bytes_in(&mut cache, &String::new(), vec![1u8, 2, 3]).unwrap();
    let mut expected = vec![1u8, 2, 3];
    expected.extend_from_slice(&0i64.to_le_bytes());
    expected.extend_from_slice(&0u64.to_le_bytes());
    assert_eq!(bytes, expected);
}

#[test]
fn the_archive_of_a_number_is_the_number() {
    let mut cache = ArenaCache::new(CacheMode::Shared);
    assert_eq!(to_bytes(&mut cache, &0x0102_0304_0506_0708u64).unwrap(), vec![8, 7, 6, 5, 4, 3, 2, 1]);
    assert_eq!(to_bytes(&mut cache, &0x0102_0304u32).unwrap(), vec![4, 3, 2, 1]);
    assert_eq!(to_bytes(&mut cache, &-2i64).unwrap(), vec![0xfe, 0xff, 0xff, 0xff, 0xff, 0xff, 0xff, 0xff]);
    assert_eq!(to_bytes(&mut cache, &-1i32).unwrap(), vec![0xff, 0xff, 0xff, 0xff]);
    assert_eq!(to_bytes(&mut cache, &i32::MIN).unwrap(), vec![0, 0, 0, 0x80]);
    assert_eq!(to_bytes(&mut cache, &7i32).unwrap(), vec![7, 0, 0, 0]);
    assert_eq!(to_bytes(&mut cache, &i64::MIN).unwrap(), vec![0, 0, 0, 0, 0, 0, 0, 0x80]);
    assert_eq!(to_bytes_in(&mut cache, &5u64, vec![9u8]).unwrap(), vec![9, 5, 0, 0, 0, 0, 0, 0, 0]);
    let error: Result<Vec<u8>, ArchiveError> = to_bytes(&mut cache, &1u64);
    assert!(error.is_ok());
}

#[test]
fn archiving_with_an_arena_of_the_callers() {
    let mut arena = Arena::with_capacity(16);
    let block = arena.push_alloc(4).unwrap();
    let (done, arena) = archive_with(&"hi".to_string(), vec![7u8], arena);
    let mut expected = vec![7u8, b'h', b'i'];
    expected.extend_from_slice(&(-2i64).to_le_bytes());
    expected.extend_from_slice(&2u64.to_le_bytes());
    assert_eq!(done, Ok(expected));
    assert_eq!(arena.used(), 4);
    assert_eq!(block, 0);
    let (done, _) = archive_with(&9u32, Vec::new(), arena);
    assert_eq!(done, Ok(vec![9, 0, 0, 0]));
}
