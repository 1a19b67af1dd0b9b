use rusty_os::allocator::init_heap;
use rusty_os::memory::{BootInfoFrameAllocator, MemoryRegion, PageMapper, RegionKind};
use rusty_os::paging::{translate_addr, MapError, PageTable, PageTableArena, PageTableEntry};

const ROOT: u64 = 0x9000;
const HEAP_START: u64 = 0x4444_4444_0000;
const HEAP_SIZE: u64 = 102400;

fn vacant() -> PageTableEntry {
    PageTableEntry { present: false, writable: false, huge: false, addr: 0 }
}

fn empty_table(addr: u64) -> PageTable {
    PageTable { addr, entries: vec![vacant(); 512] }
}

fn boot_arena() -> (PageTableArena, PageMapper) {
    let arena = PageTableArena { tables: vec![empty_table(ROOT)] };
    let mapper = PageMapper { physical_memory_offset: 0xffff_8000_0000_0000, root: ROOT };
    (arena, mapper)
}

fn frames(count: u64) -> BootInfoFrameAllocator {
    let base = 0x10_0000;
    let map = vec![MemoryRegion {
        start: base,
        end: base + count * 4096,
        kind: RegionKind::Usable,
    }];
    BootInfoFrameAllocator::init(map)
}

#[test]
fn heap_mapping_scenario_maps_25_distinct_writable_pages() {
    let (mut arena, mapper) = boot_arena();
    let mut fa = frames(64);
    assert_eq!(init_heap(&mut arena, &mapper, &mut fa, HEAP_START, HEAP_SIZE), Ok(()));
    // 102400 / 4096 == 25 pages, each present and writable, each backed by
    // its own frame.
    let mut backing = Vec::new();
    for j in 0..25u64 {
        let page = HEAP_START + 4096 * j;
        let pa = translate_addr(&arena, &mapper, page).expect("heap page must be mapped");
        assert_eq!(pa % 4096, 0);
        assert!(!backing.contains(&pa), "two pages share frame {pa:#x}");
        backing.push(pa);
        // Offsets within the page translate to offsets within the frame.
        assert_eq!(translate_addr(&arena, &mapper, page + 123), Some(pa + 123));
    }
    // The page after the heap is not mapped.
    assert_eq!(translate_addr(&arena, &mapper, HEAP_START + 25 * 4096), None);
    // 25 page frames and 3 intermediate tables were consumed.
    assert_eq!(fa.next, 28);
}

#[test]
fn translation_is_idempotent() {
    let (mut arena, mapper) = boot_arena();
    let mut fa = frames(64);
    init_heap(&mut arena, &mapper, &mut fa, HEAP_START, HEAP_SIZE).unwrap();
    for v in [HEAP_START, HEAP_START + 4096 * 7 + 99, HEAP_START + HEAP_SIZE - 1, 0x1234] {
        let first = translate_addr(&arena, &mapper, v);
        let second = translate_addr(&arena, &mapper, v);
        assert_eq!(first, second);
    }
}

#[test]
fn unmapped_addresses_do_not_translate() {
    let (arena, mapper) = boot_arena();
    assert_eq!(translate_addr(&arena, &mapper, HEAP_START), None);
    assert_eq!(translate_addr(&arena, &mapper, 0), None);
}

#[test]
fn frame_exhaustion_fails_the_boot() {
    let (mut arena, mapper) = boot_arena();
    // 10 frames cannot back 25 pages plus 3 tables.
    let mut fa = frames(10);
    assert_eq!(
        init_heap(&mut arena, &mapper, &mut fa, HEAP_START, HEAP_SIZE),
        Err(MapError::FrameAllocationExhausted)
    );
}

#[test]
fn already_mapped_page_fails_the_mapping() {
    let (mut arena, mapper) = boot_arena();
    let mut fa = frames(64);
    init_heap(&mut arena, &mapper, &mut fa, HEAP_START, 4096).unwrap();
    // Mapping the same region again finds the leaf slot occupied.
    assert_eq!(
        init_heap(&mut arena, &mapper, &mut fa, HEAP_START, 4096),
        Err(MapError::PageMappingFailed)
    );
}

#[test]
fn huge_entry_on_the_path_fails_the_mapping() {
    let (mut arena, mapper) = boot_arena();
    let i4 = ((HEAP_START / 0x80_0000_0000) % 512) as usize;
    arena.tables[0].entries[i4] =
        PageTableEntry { present: true, writable: true, huge: true, addr: 0x5000 };
    let mut fa = frames(64);
    assert_eq!(
        init_heap(&mut arena, &mapper, &mut fa, HEAP_START, HEAP_SIZE),
        Err(MapError::PageMappingFailed)
    );
}

#[test]
fn empty_heap_maps_nothing() {
    let (mut arena, mapper) = boot_arena();
    let mut fa = frames(4);
    assert_eq!(init_heap(&mut arena, &mapper, &mut fa, HEAP_START, 0), Ok(()));
    assert_eq!(fa.next, 0);
    assert_eq!(arena.tables.len(), 1);
}

#[test]
fn mappings_survive_later_mappings() {
    let (mut arena, mapper) = boot_arena();
    let mut fa = frames(64);
    init_heap(&mut arena, &mapper, &mut fa, HEAP_START, 4096).unwrap();
    let before = translate_addr(&arena, &mapper, HEAP_START).unwrap();
    // Map a second region elsewhere; the first translation is unchanged.
    init_heap(&mut arena, &mapper, &mut fa, 0x5555_0000_0000, 8192).unwrap();
    assert_eq!(translate_addr(&arena, &mapper, HEAP_START), Some(before));
}
