use buddy_system_allocator::{AllocErr, Heap, prev_power_of_two};

#[test]
fn prev_power_of_two_values() {
    assert_eq!(prev_power_of_two(1), 1);
    assert_eq!(prev_power_of_two(2), 2);
    assert_eq!(prev_power_of_two(3), 2);
    assert_eq!(prev_power_of_two(7), 4);
    assert_eq!(prev_power_of_two(8), 8);
    assert_eq!(prev_power_of_two(1000), 512);
}

#[test]
fn heap_empty_fails() {
    let mut h = Heap::new();
    assert_eq!(h.allocate(1, 1), Err(AllocErr));
    assert_eq!(h.stats_total_bytes(), 0);
}

#[test]
fn heap_add_empty_region_is_noop() {
    let mut h = Heap::new();
    h.add_to_heap(4096, 4096);
    assert_eq!(h.stats_total_bytes(), 0);
    assert!(h.allocate(1, 1).is_err());
}

#[test]
fn heap_coalesces_after_frees() {
    // 16 words starting at 1024: a single 128-byte block
    let mut h = Heap::new();
    h.add_to_heap(1024, 1024 + 128);
    assert_eq!(h.stats_total_bytes(), 128);
    let p0 = h.allocate(8, 8).expect("first word block");
    let p1 = h.allocate(8, 8).expect("second word block");
    assert_eq!(p0, 1024);
    assert_eq!(p1, 1032);
    h.dealloc(p0, 8, 8);
    h.dealloc(p1, 8, 8);
    assert_eq!(h.stats_alloc_actual(), 0);
    assert_eq!(h.stats_alloc_user(), 0);
    // the frees merged all the way back into one 128-byte block
    assert_eq!(h.allocate(128, 1), Ok(1024));
}

#[test]
fn heap_split_cascade_leaves_one_block_per_class() {
    // one 64-byte block; an 8-byte request splits it into 8+8+16+32
    let mut h = Heap::new();
    h.add_to_heap(1024, 1024 + 64);
    assert_eq!(h.allocate(8, 8), Ok(1024));
    // the remaining pieces are exactly one block of each smaller size
    assert_eq!(h.allocate(8, 8), Ok(1032));
    assert_eq!(h.allocate(16, 16), Ok(1040));
    assert_eq!(h.allocate(32, 32), Ok(1056));
    assert!(h.allocate(8, 8).is_err());
}

#[test]
fn heap_alignment_dominates_size() {
    let mut h = Heap::new();
    h.add_to_heap(4096, 4096 + 256);
    let p = h.allocate(1, 64).expect("an aligned block");
    assert_eq!(p % 64, 0);
    // the block consumed is 64 bytes even though one byte was asked for
    assert_eq!(h.stats_alloc_actual(), 64);
    assert_eq!(h.stats_alloc_user(), 1);
}

#[test]
fn heap_zero_size_takes_alignment_block() {
    let mut h = Heap::new();
    h.add_to_heap(2048, 2048 + 16);
    let p = h.allocate(0, 16).expect("a zero-size aligned block");
    assert_eq!(p, 2048);
    assert_eq!(h.stats_alloc_actual(), 16);
    assert_eq!(h.stats_alloc_user(), 0);
}

#[test]
fn heap_oversized_request_fails() {
    let mut h = Heap::new();
    h.add_to_heap(4096, 4096 + 1024);
    assert_eq!(h.allocate((1usize << 31) + 1, 1), Err(AllocErr));
    assert_eq!(h.stats_alloc_actual(), 0);
}

#[test]
fn heap_exhaustion_and_reuse() {
    // 1 KiB region: fill it, fail, free, and get the same address back
    let mut h = Heap::new();
    h.add_to_heap(8192, 8192 + 1024);
    let p = h.allocate(1024, 1).expect("the whole region");
    assert_eq!(p, 8192);
    assert!(h.allocate(1, 1).is_err());
    h.dealloc(p, 1024, 1);
    assert_eq!(h.allocate(1024, 1), Ok(8192));
}

#[test]
fn heap_odd_start_gives_small_blocks_first() {
    // an odd start forces the decomposition to begin with tiny blocks:
    // 1 + 2 + 4 + 8 + 16 bytes are usable out of [4097, 4129)
    let mut h = Heap::new();
    h.add_to_heap(4097, 4097 + 32);
    assert_eq!(h.stats_total_bytes(), 31);
}

#[test]
fn heap_user_tracks_requests() {
    let mut h = Heap::new();
    h.add_to_heap(65536, 65536 + 4096);
    let a = h.allocate(100, 1).expect("a block for 100 bytes");
    let b = h.allocate(9, 8).expect("a block for 9 bytes");
    assert_eq!(h.stats_alloc_user(), 109);
    assert_eq!(h.stats_alloc_actual(), 128 + 16);
    assert!(h.stats_alloc_user() <= h.stats_alloc_actual());
    assert!(h.stats_alloc_actual() <= h.stats_total_bytes());
    h.dealloc(a, 100, 1);
    h.dealloc(b, 9, 8);
    assert_eq!(h.stats_alloc_user(), 0);
    assert_eq!(h.stats_alloc_actual(), 0);
    assert_eq!(h.stats_total_bytes(), 4096);
}
