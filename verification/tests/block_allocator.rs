use rusty_os::allocator::fallback_heap::{AllocError, Extent};
use rusty_os::allocator::fixed_size_block::{list_index, FixedSizeBlockAllocator};

const HEAP_BASE: u64 = 0x10_0000;
const HEAP_LEN: u64 = 1 << 20;

fn fresh_allocator() -> FixedSizeBlockAllocator {
    let mut a = FixedSizeBlockAllocator::new();
    a.init(HEAP_BASE, HEAP_LEN);
    a
}

#[test]
fn class_selection_rounds_up() {
    assert_eq!(list_index(1, 1), Some(0));
    assert_eq!(list_index(8, 1), Some(0));
    assert_eq!(list_index(9, 1), Some(1));
    assert_eq!(list_index(12, 1), Some(1));
    assert_eq!(list_index(12, 32), Some(2));
    assert_eq!(list_index(100, 1), Some(4));
    assert_eq!(list_index(2048, 1), Some(8));
    assert_eq!(list_index(2049, 1), None);
    assert_eq!(list_index(1, 4096), None);
}

#[test]
fn alloc_free_alloc_returns_same_block_across_sizes() {
    // Every size in the class range with a few valid power-of-two
    // alignments no larger than the chosen class size: the block freed is
    // the block returned again, and the free lists survive the round trip.
    let mut a = fresh_allocator();
    let mut size: u64 = 1;
    while size <= 2048 {
        let mut align: u64 = 1;
        while align <= size.next_power_of_two() {
            let p1 = a.allocate(size, align).expect("first allocation");
            a.deallocate(p1, size, align);
            let p2 = a.allocate(size, align).expect("second allocation");
            assert_eq!(p1, p2);
            a.deallocate(p2, size, align);
            align *= 2;
        }
        size += 1;
    }
}

#[test]
fn class_blocks_are_class_aligned() {
    let mut a = fresh_allocator();
    let p = a.allocate(100, 1).expect("allocation");
    assert_eq!(p % 128, 0);
    let q = a.allocate(2000, 64).expect("allocation");
    assert_eq!(q % 2048, 0);
}

#[test]
fn lifo_blocks_return_in_reverse_order() {
    let mut a = fresh_allocator();
    let n = 5;
    let mut blocks = Vec::new();
    for _ in 0..n {
        blocks.push(a.allocate(64, 8).expect("allocation"));
    }
    for &b in &blocks {
        a.deallocate(b, 64, 8);
    }
    for i in 0..n {
        let got = a.allocate(64, 8).expect("allocation");
        assert_eq!(got, blocks[n - 1 - i]);
    }
}

#[test]
fn oversize_request_bypasses_classes() {
    let mut a = fresh_allocator();
    let before = a.fallback_allocator.extents.clone();
    let p = a.allocate(2049, 1).expect("oversize allocation");
    // No class list holds anything, and the fallback heap shrank.
    for l in &a.list_heads {
        assert!(l.is_empty());
    }
    assert_ne!(a.fallback_allocator.extents, before);
    // Freeing it goes back to the fallback heap, restoring it whole.
    a.deallocate(p, 2049, 1);
    assert_eq!(a.fallback_allocator.extents, before);
    for l in &a.list_heads {
        assert!(l.is_empty());
    }
}

#[test]
fn zero_byte_request_is_served_from_a_class() {
    // A zero-byte request is defined: it selects the class of its
    // alignment and behaves like any other request of that class.
    let mut a = fresh_allocator();
    assert_eq!(list_index(0, 1), Some(0));
    assert_eq!(list_index(0, 256), Some(5));
    let p = a.allocate(0, 1).expect("zero-size allocation");
    a.deallocate(p, 0, 1);
    let q = a.allocate(0, 1).expect("zero-size allocation again");
    assert_eq!(p, q);
}

#[test]
fn donation_allocates_from_fallback_only_once() {
    // 500 successive 8-byte allocate/free rounds: only the first draws
    // from the fallback heap; every later round reuses the donated block.
    let mut a = fresh_allocator();
    let p = a.allocate(8, 8).expect("first allocation");
    a.deallocate(p, 8, 8);
    let after_first: Vec<Extent> = a.fallback_allocator.extents.clone();
    for _ in 0..499 {
        let q = a.allocate(8, 8).expect("warm allocation");
        assert_eq!(q, p);
        a.deallocate(q, 8, 8);
    }
    assert_eq!(a.fallback_allocator.extents, after_first);
}

#[test]
fn donated_blocks_never_return_to_fallback() {
    let mut a = fresh_allocator();
    let p = a.allocate(32, 8).expect("allocation");
    let drained = a.fallback_allocator.extents.clone();
    a.deallocate(p, 32, 8);
    // The block sits in its class list, not in the fallback heap.
    assert_eq!(a.fallback_allocator.extents, drained);
    assert_eq!(a.list_heads[2], vec![p]);
}

#[test]
fn exhaustion_reports_heap_exhausted() {
    let mut a = FixedSizeBlockAllocator::new();
    a.init(0x1000, 64);
    assert_eq!(a.allocate(4096, 1), Err(AllocError::HeapExhausted));
    // An empty allocator serves nothing at all.
    let mut empty = FixedSizeBlockAllocator::new();
    assert_eq!(empty.allocate(8, 1), Err(AllocError::HeapExhausted));
}
