use rusty_os::memory::{
    init, BootInfoFrameAllocator, EmptyFrameAllocator, MapperInitGuard, MemoryRegion, RegionKind,
};

fn region(start: u64, end: u64, kind: RegionKind) -> MemoryRegion {
    MemoryRegion { start, end, kind }
}

#[test]
fn empty_frame_allocator_never_yields() {
    let mut a = EmptyFrameAllocator;
    assert_eq!(a.allocate_frame(), None);
    assert_eq!(a.allocate_frame(), None);
}

#[test]
fn frames_come_from_usable_regions_only() {
    let map = vec![
        region(0x0000, 0x2000, RegionKind::Usable),
        region(0x2000, 0x5000, RegionKind::Reserved),
        region(0x5000, 0x6000, RegionKind::Other),
        region(0x6000, 0x8000, RegionKind::Usable),
    ];
    let mut a = BootInfoFrameAllocator::init(map);
    assert_eq!(a.allocate_frame(), Some(0x0000));
    assert_eq!(a.allocate_frame(), Some(0x1000));
    assert_eq!(a.allocate_frame(), Some(0x6000));
    assert_eq!(a.allocate_frame(), Some(0x7000));
    assert_eq!(a.allocate_frame(), None);
}

#[test]
fn exhaustion_is_permanent_and_no_frame_repeats() {
    let map = vec![region(0x1000, 0x4000, RegionKind::Usable)];
    let mut a = BootInfoFrameAllocator::init(map);
    let mut seen = Vec::new();
    while let Some(f) = a.allocate_frame() {
        assert_eq!(f % 4096, 0);
        assert!(!seen.contains(&f), "frame {f:#x} returned twice");
        seen.push(f);
    }
    assert_eq!(seen.len(), 3);
    // Once exhausted, every further call consistently fails.
    for _ in 0..8 {
        assert_eq!(a.allocate_frame(), None);
    }
}

#[test]
fn empty_map_yields_nothing() {
    let mut a = BootInfoFrameAllocator::init(Vec::new());
    assert_eq!(a.allocate_frame(), None);
}

#[test]
fn mapper_init_succeeds_exactly_once() {
    let mut guard = MapperInitGuard::new();
    let first = init(&mut guard, 0xffff_8000_0000_0000, 0x1000);
    let m = first.expect("first handle");
    assert_eq!(m.physical_memory_offset, 0xffff_8000_0000_0000);
    assert_eq!(m.root, 0x1000);
    // A second handle would alias the active table: refused.
    assert_eq!(init(&mut guard, 0xffff_8000_0000_0000, 0x1000), None);
    assert_eq!(init(&mut guard, 0, 0), None);
}
