use buddy_system_allocator::FrameAllocator;

#[test]
fn frame_empty_has_nothing() {
    let mut f = FrameAllocator::new();
    assert!(f.allocate(1).is_none());
    assert_eq!(f.stats_total(), 0);
    assert_eq!(f.stats_allocated(), 0);
}

#[test]
fn frame_small_pool() {
    // [0, 3) decomposes into a run of 2 at frame 0 and a run of 1 at frame 2.
    let mut f = FrameAllocator::new();
    f.add_frame(0, 3);
    assert_eq!(f.stats_total(), 3);
    assert_eq!(f.allocate(1), Some(2));
    assert_eq!(f.allocate(2), Some(0));
    assert_eq!(f.allocate(1), None);
    assert_eq!(f.stats_allocated(), 3);
}

#[test]
fn frame_insert_range() {
    let mut f = FrameAllocator::new();
    f.insert(0..3);
    assert_eq!(f.stats_total(), 3);
    assert_eq!(f.allocate(1), Some(2));
}

#[test]
fn frame_add_empty_range_is_noop() {
    let mut f = FrameAllocator::new();
    f.add_frame(5, 5);
    assert_eq!(f.stats_total(), 0);
    assert!(f.allocate(1).is_none());
}

#[test]
fn frame_split_and_coalesce_roundtrip() {
    // [0, 8) is a single run of 8 at frame 0.
    let mut f = FrameAllocator::new();
    f.add_frame(0, 8);
    let a = f.allocate(1).expect("a run of 1");
    assert_eq!(a, 0);
    let b = f.allocate(1).expect("a second run of 1");
    assert_eq!(b, 1);
    f.dealloc(a, 1);
    f.dealloc(b, 1);
    assert_eq!(f.stats_allocated(), 0);
    assert_eq!(f.stats_total(), 8);
    // maximal coalescing: the whole run of 8 is available again
    assert_eq!(f.allocate(8), Some(0));
}

#[test]
fn frame_alloc_rounds_to_power_of_two() {
    let mut f = FrameAllocator::new();
    f.add_frame(0, 16);
    let a = f.allocate(3).expect("a run of 4");
    assert_eq!(a % 4, 0);
    assert_eq!(f.stats_allocated(), 4);
    f.dealloc(a, 3);
    assert_eq!(f.stats_allocated(), 0);
}

#[test]
fn frame_oversized_request_fails() {
    let mut f = FrameAllocator::new();
    f.add_frame(0, 16);
    assert!(f.allocate((1usize << 31) + 1).is_none());
    assert_eq!(f.stats_allocated(), 0);
}

#[test]
fn frame_zero_origin_caps_run_length() {
    // at frame 0 the alignment is unbounded; the decomposition caps the
    // first runs at 32 frames
    let mut f = FrameAllocator::new();
    f.add_frame(0, 64);
    assert_eq!(f.stats_total(), 64);
    assert_eq!(f.allocate(32), Some(0));
    assert_eq!(f.allocate(32), Some(32));
    assert_eq!(f.allocate(1), None);
}

#[test]
fn frame_stats_stay_ordered() {
    let mut f = FrameAllocator::new();
    f.add_frame(0, 128);
    let mut held: Vec<(usize, usize)> = Vec::new();
    for count in [1usize, 2, 3, 4, 5, 8, 16] {
        assert!(f.stats_allocated() <= f.stats_total());
        if let Some(p) = f.allocate(count) {
            held.push((p, count));
        }
        assert!(f.stats_allocated() <= f.stats_total());
    }
    // return everything in reverse order; the counters drain to zero
    while let Some((p, count)) = held.pop() {
        f.dealloc(p, count);
        assert!(f.stats_allocated() <= f.stats_total());
    }
    assert_eq!(f.stats_allocated(), 0);
    assert_eq!(f.stats_total(), 128);
    assert_eq!(f.allocate(128), Some(0));
}
