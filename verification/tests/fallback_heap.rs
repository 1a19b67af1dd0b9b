use rusty_os::allocator::fallback_heap::{AllocError, Extent, FallbackHeap};

#[test]
fn empty_heap_serves_nothing() {
    let mut h = FallbackHeap::empty();
    assert_eq!(h.allocate(1, 1), Err(AllocError::HeapExhausted));
}

#[test]
fn first_fit_takes_the_lowest_extent_that_fits() {
    let mut h = FallbackHeap::empty();
    h.init(1000, 100);
    assert_eq!(h.allocate(30, 1), Ok(1000));
    assert_eq!(h.extents, vec![Extent { addr: 1030, size: 70 }]);
    // Free it again: the heap merges back into one extent.
    h.deallocate(1000, 30, 1);
    assert_eq!(h.extents, vec![Extent { addr: 1000, size: 100 }]);
}

#[test]
fn alignment_gap_stays_free() {
    let mut h = FallbackHeap::empty();
    h.init(1000, 100);
    // 1000 % 16 == 8: the 8 padding bytes in front stay a free extent.
    assert_eq!(h.allocate(16, 16), Ok(1008));
    assert_eq!(
        h.extents,
        vec![Extent { addr: 1000, size: 8 }, Extent { addr: 1024, size: 76 }]
    );
}

#[test]
fn small_remainder_is_absorbed() {
    let mut h = FallbackHeap::empty();
    h.init(0, 32);
    // The 12 bytes behind the block are below the minimum usable extent
    // size and are absorbed into the allocation.
    assert_eq!(h.allocate(20, 1), Ok(0));
    assert_eq!(h.extents, vec![]);
    h.deallocate(0, 20, 1);
    assert_eq!(h.extents, vec![Extent { addr: 0, size: 20 }]);
}

#[test]
fn free_merges_with_both_neighbours() {
    let mut h = FallbackHeap::empty();
    h.init(0, 300);
    let a = h.allocate(100, 1).unwrap();
    let b = h.allocate(100, 1).unwrap();
    let c = h.allocate(100, 1).unwrap();
    assert_eq!((a, b, c), (0, 100, 200));
    assert_eq!(h.extents, vec![]);
    h.deallocate(a, 100, 1);
    h.deallocate(c, 100, 1);
    assert_eq!(
        h.extents,
        vec![Extent { addr: 0, size: 100 }, Extent { addr: 200, size: 100 }]
    );
    // Freeing the middle block merges all three into one extent.
    h.deallocate(b, 100, 1);
    assert_eq!(h.extents, vec![Extent { addr: 0, size: 300 }]);
}

#[test]
fn exhaustion_is_reported_and_changes_nothing() {
    let mut h = FallbackHeap::empty();
    h.init(0, 16);
    let before = h.extents.clone();
    assert_eq!(h.allocate(17, 1), Err(AllocError::HeapExhausted));
    assert_eq!(h.extents, before);
}

#[test]
fn first_fit_skips_extents_that_are_too_small() {
    let mut h = FallbackHeap::empty();
    h.init(0, 300);
    let a = h.allocate(40, 1).unwrap();
    let b = h.allocate(40, 1).unwrap();
    h.deallocate(a, 40, 1);
    // Free list: [0, 40) and [80, 300). A 60-byte request skips the first.
    assert_eq!(h.allocate(60, 1), Ok(80));
    h.deallocate(b, 40, 1);
}

#[test]
fn zero_byte_request_occupies_one_byte() {
    let mut h = FallbackHeap::empty();
    h.init(0, 64);
    assert_eq!(h.allocate(0, 1), Ok(0));
    assert_eq!(h.extents, vec![Extent { addr: 1, size: 63 }]);
}
