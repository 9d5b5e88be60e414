use toy_redis::store::allocator::slabAllocator;

#[test]
fn alloc_dealloc() {
    let mut slab: slabAllocator<u64, 8> = slabAllocator::new();
    let h = slab.allocate();
    slab.write(h, 42u64);
    assert_eq!(*slab.get(h).unwrap(), 42);
    slab.dealloc(h);
    assert_eq!(slab.stats().used, 0);
}

#[test]
fn grows_across_slabs() {
    let mut slab: slabAllocator<u32, 4> = slabAllocator::new();
    let mut handles = vec![];
    for i in 0..12u32 {
        let h = slab.allocate();
        slab.write(h, i);
        handles.push(h);
    }
    assert_eq!(slab.stats().slabs_alloc, 3);
    assert_eq!(slab.stats().used, 12);

    for h in handles {
        slab.dealloc(h);
    }
    assert_eq!(slab.stats().used, 0);
}

#[test]
fn cache_locality() {
    let mut slab: slabAllocator<u64, 16> = slabAllocator::new();
    let h1 = slab.allocate();
    let h2 = slab.allocate();
    let distance = if h1 > h2 { h1 - h2 } else { h2 - h1 };
    assert!(distance < 16, "too far apart: {} bytes", distance * std::mem::size_of::<u64>());
    slab.dealloc(h1);
    slab.dealloc(h2);
}

#[test]
fn stress_500k() {
    let mut slab: slabAllocator<u64, 1024> = slabAllocator::new();
    let mut handles = Vec::with_capacity(500_000);

    for i in 0..500_000u64 {
        let h = slab.allocate();
        slab.write(h, i);
        handles.push(h);
    }
    assert_eq!(slab.stats().used, 500_000);

    for h in handles {
        slab.dealloc(h);
    }
    assert_eq!(slab.stats().used, 0);
}

#[test]
fn allocator_starts_empty() {
    let slab: slabAllocator<u8, 4> = slabAllocator::new();
    let s = slab.stats();
    assert_eq!(s.total_cap, 0);
    assert_eq!(s.used, 0);
    assert_eq!(s.slabs_alloc, 0);
}

#[test]
fn allocator_hands_out_lowest_of_new_slab_first() {
    let mut slab: slabAllocator<u8, 4> = slabAllocator::new();
    assert_eq!(slab.allocate(), 0);
    assert_eq!(slab.allocate(), 1);
    assert_eq!(slab.allocate(), 2);
    assert_eq!(slab.allocate(), 3);
    assert_eq!(slab.stats().slabs_alloc, 1);
    assert_eq!(slab.allocate(), 4);
    assert_eq!(slab.stats().slabs_alloc, 2);
    assert_eq!(slab.stats().total_cap, 8);
}

#[test]
fn allocator_reuses_last_freed_handle() {
    let mut slab: slabAllocator<u8, 4> = slabAllocator::new();
    let a = slab.allocate();
    let b = slab.allocate();
    slab.dealloc(a);
    slab.dealloc(b);
    assert_eq!(slab.allocate(), b);
    assert_eq!(slab.allocate(), a);
    assert_eq!(slab.stats().used, 2);
}

#[test]
fn allocator_dealloc_clears_cell() {
    let mut slab: slabAllocator<String, 2> = slabAllocator::new();
    let h = slab.allocate();
    assert!(slab.get(h).is_none());
    slab.write(h, "x".to_string());
    assert_eq!(slab.get(h).map(|s| s.as_str()), Some("x"));
    slab.dealloc(h);
    assert!(slab.get(h).is_none());
}

#[test]
fn allocator_live_count_matches_used() {
    let mut slab: slabAllocator<u8, 3> = slabAllocator::new();
    let mut live = Vec::new();
    for _ in 0..7 {
        live.push(slab.allocate());
    }
    slab.dealloc(live.remove(2));
    slab.dealloc(live.remove(0));
    assert_eq!(slab.stats().used, live.len());
    assert_eq!(slab.stats().total_cap, 9);
    assert_eq!(slab.stats().slabs_alloc, 3);
}
