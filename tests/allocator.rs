use blog_os::allocator::{size_class, slab_count, slab_size, AllocError, SimpleAllocator, Slab, HEAP_SIZE, N_SLABS};

fn capacity(class: usize) -> usize {
    slab_count(slab_size(class))
}

#[test]
fn slab_count_splits_arena_evenly() {
    assert_eq!(slab_count(16), 256);
    assert_eq!(slab_count(32), 128);
    assert_eq!(slab_count(64), 64);
    assert_eq!(slab_count(128), 32);
    assert_eq!(slab_count(HEAP_SIZE + 1), 0);
}

#[test]
fn size_class_picks_smallest_fit() {
    assert_eq!(size_class(0), 0);
    assert_eq!(size_class(1), 0);
    assert_eq!(size_class(16), 0);
    assert_eq!(size_class(17), 1);
    assert_eq!(size_class(32), 1);
    assert_eq!(size_class(64), 2);
    assert_eq!(size_class(100), 3);
    assert_eq!(size_class(128), 3);
    assert_eq!(size_class(129), N_SLABS);
}

#[test]
fn first_handles_are_pool_bases() {
    let mut a = SimpleAllocator::new();
    assert_eq!(a.allocate(8, 8), Ok(0));
    assert_eq!(a.allocate(16, 8), Ok(16));
    assert_eq!(a.allocate(20, 8), Ok(4096));
    assert_eq!(a.allocate(64, 8), Ok(8192));
    assert_eq!(a.allocate(128, 8), Ok(12288));
}

#[test]
fn lifo_reuse_every_class() {
    for class in 0..N_SLABS {
        let size = slab_size(class);
        let mut a = SimpleAllocator::new();
        let n = 10;
        let mut handles = Vec::new();
        for _ in 0..n {
            handles.push(a.allocate(size, 8).unwrap());
        }
        let mut sorted = handles.clone();
        sorted.sort();
        sorted.dedup();
        assert_eq!(sorted.len(), n);
        for &h in &handles {
            a.deallocate(h, size);
        }
        let again = a.allocate(size, 8).unwrap();
        assert!(handles.contains(&again));
        assert_eq!(again, *handles.last().unwrap());
    }
}

#[test]
fn capacity_plus_one_runs_out() {
    for class in 0..N_SLABS {
        let size = slab_size(class);
        let mut a = SimpleAllocator::new();
        let mut handles = Vec::new();
        for _ in 0..capacity(class) {
            handles.push(a.allocate(size, 8).unwrap());
        }
        assert_eq!(a.allocate(size, 8), Err(AllocError::OutOfMemory));
        let freed = handles[handles.len() / 2];
        a.deallocate(freed, size);
        assert_eq!(a.allocate(size, 8), Ok(freed));
        assert_eq!(a.allocate(size, 8), Err(AllocError::OutOfMemory));
    }
}

#[test]
fn exhausted_class_does_not_fall_back() {
    let mut a = SimpleAllocator::new();
    for _ in 0..capacity(0) {
        a.allocate(16, 8).unwrap();
    }
    assert_eq!(a.allocate(10, 8), Err(AllocError::OutOfMemory));
    assert_eq!(a.allocate(17, 8), Ok(4096));
}

#[test]
fn oversized_request_fails() {
    let mut a = SimpleAllocator::new();
    assert_eq!(a.allocate(129, 8), Err(AllocError::AllocationFailure));
    assert_eq!(a.allocate(HEAP_SIZE, 8), Err(AllocError::AllocationFailure));
    for _ in 0..capacity(3) {
        a.allocate(128, 8).unwrap();
    }
    assert_eq!(a.allocate(129, 8), Err(AllocError::AllocationFailure));
    assert_eq!(a.allocate(usize::MAX, 8), Err(AllocError::AllocationFailure));
}

#[test]
fn oversized_free_is_ignored() {
    let mut a = SimpleAllocator::new();
    let h = a.allocate(16, 8).unwrap();
    a.deallocate(h, 4096);
    assert_eq!(a.allocate(16, 8), Ok(16));
}

#[test]
fn handles_are_aligned_and_in_arena() {
    let mut a = SimpleAllocator::new();
    for class in 0..N_SLABS {
        let size = slab_size(class);
        while let Ok(h) = a.allocate(size, 8) {
            assert_eq!(h % 16, 0);
            assert!(h + size <= HEAP_SIZE);
        }
    }
}

#[test]
fn init_keeps_state() {
    let mut a = SimpleAllocator::new();
    a.init(0x4444_0000, 100 * 1024);
    assert_eq!(a.allocate(1, 1), Ok(0));
}

#[test]
fn slab_threads_blocks_in_order() {
    let mut s = Slab::uninit(32);
    assert_eq!(s.allocate(), None);
    s.init(4096);
    assert_eq!(s.allocate(), Some(4096));
    assert_eq!(s.allocate(), Some(4128));
    s.deallocate(4096);
    assert_eq!(s.allocate(), Some(4096));
    let mut n = 2;
    while s.allocate().is_some() {
        n += 1;
    }
    assert_eq!(n, 128);
}
