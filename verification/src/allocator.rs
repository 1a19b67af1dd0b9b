//! Dynamic allocation: the heap region, its mapping, and the allocators.
//!
//! `init_heap` turns the fixed virtual heap region into usable memory: for
//! each of its pages it draws a fresh physical frame from the boot frame
//! source and creates a present-and-writable page-table entry for it,
//! building intermediate table levels as it goes. A failed mapping is a
//! fatal boot condition: nothing is rolled back. Once mapped, the range is
//! donated to the block allocator
//! (`fixed_size_block::FixedSizeBlockAllocator::init`), which serves every
//! later allocation request.

use vstd::prelude::*;

pub mod fallback_heap;
pub mod fixed_size_block;

use crate::memory::{usable_frames, BootInfoFrameAllocator, PageMapper};
use crate::paging::{
    arena_wf, frames_fresh, frames_remaining, has_table, map_to, page_base, path_blocked, resolve,
    table_extends, tables_wf, MapError, PageTableArena, PageTableEntry,
};

verus! {

/// Virtual base address of the kernel heap region.
pub const HEAP_START: u64 = 0x4444_4444_0000;

/// Size of the kernel heap region in bytes.
pub const HEAP_SIZE: u64 = 100 * 1024;

/// Placeholder allocator installed before the heap exists: every request
/// fails, and nothing may ever be freed through it, since it never hands
/// anything out.
pub struct Dummy;

impl Dummy {
    /// Always fails: no heap is mapped yet.
    pub fn allocate(&self, size: u64, align: u64) -> (r: Option<u64>)
        ensures
            r is None,
    {
        None
    }
}

/// The page the heap's `j`-th page starts at.
pub open spec fn heap_page(heap_start: u64, j: int) -> int {
    page_base(heap_start) + 4096 * j
}

/// How many pages the heap region covers: every page that overlaps
/// `[heap_start, heap_start + heap_size)`.
pub open spec fn heap_page_count(heap_start: u64, heap_size: u64) -> int {
    if heap_size == 0 {
        0int
    } else {
        let last = heap_start + heap_size - 1;
        let last_page = last - last % 4096;
        (last_page - page_base(heap_start)) / 4096 + 1
    }
}

/// Every page of the heap region resolves to a writable 4096-byte mapping.
pub open spec fn heap_mapped(
    ts: Seq<crate::paging::PageTable>,
    root: u64,
    heap_start: u64,
    heap_size: u64,
) -> bool {
    forall|j: int|
        0 <= j < heap_page_count(heap_start, heap_size) ==> (#[trigger] resolve(
            ts,
            root,
            heap_page(heap_start, j) as u64,
        )) is Some && resolve(ts, root, heap_page(heap_start, j) as u64)->Some_0.writable
}

/// No two pages of the heap region share a backing frame.
pub open spec fn heap_frames_distinct(
    ts: Seq<crate::paging::PageTable>,
    root: u64,
    heap_start: u64,
    heap_size: u64,
) -> bool {
    forall|j1: int, j2: int|
        0 <= j1 < j2 < heap_page_count(heap_start, heap_size) ==> (#[trigger] resolve(
            ts,
            root,
            heap_page(heap_start, j1) as u64,
        ))->Some_0.addr != (#[trigger] resolve(
            ts,
            root,
            heap_page(heap_start, j2) as u64,
        ))->Some_0.addr
}

/// Maps the virtual heap region `[heap_start, heap_start + heap_size)`:
/// for each page, draws a frame from the source (failing with
/// `FrameAllocationExhausted` when it is dry) and maps the page to it,
/// present and writable, with fresh zeroed intermediate tables as needed
/// (failing with `PageMappingFailed` on an occupied or unusable slot, or
/// when a table frame cannot be had). On success every heap page has a
/// writable mapping and each is backed by its own distinct frame. There is
/// no rollback: a failed heap mapping is a fatal boot condition, and the
/// failing state shows the reason. The caller donates the mapped range to
/// the block allocator afterwards.
#[verifier::rlimit(100)]
pub fn init_heap(
    arena: &mut PageTableArena,
    mapper: &PageMapper,
    frame_allocator: &mut BootInfoFrameAllocator,
    heap_start: u64,
    heap_size: u64,
) -> (r: Result<(), MapError>)
    requires
        arena_wf(*old(arena)),
        has_table(old(arena).tables@, mapper.root),
        frames_fresh(
            old(arena).tables@,
            old(frame_allocator).memory_map@,
            old(frame_allocator).next as int,
        ),
        heap_start + heap_size <= 0x1_0000_0000_0000,
        old(frame_allocator).next + 4 * heap_page_count(heap_start, heap_size) + 1 <= usize::MAX,
    ensures
        arena_wf(*final(arena)),
        final(frame_allocator).memory_map@ == old(frame_allocator).memory_map@,
        old(frame_allocator).next <= final(frame_allocator).next,
        table_extends(old(arena).tables@, final(arena).tables@),
        frames_fresh(
            final(arena).tables@,
            final(frame_allocator).memory_map@,
            final(frame_allocator).next as int,
        ),
        r is Ok ==> heap_mapped(final(arena).tables@, mapper.root, heap_start, heap_size)
            && heap_frames_distinct(final(arena).tables@, mapper.root, heap_start, heap_size),
        r is Err && r->Err_0 == MapError::FrameAllocationExhausted ==> final(frame_allocator).next
            > usable_frames(final(frame_allocator).memory_map@).len(),
        r is Err && r->Err_0 == MapError::PageMappingFailed ==> (exists|j: int|
            0 <= j < heap_page_count(heap_start, heap_size) && path_blocked(
                final(arena).tables@,
                mapper.root,
                heap_page(heap_start, j) as u64,
            )) || frames_remaining(
            final(frame_allocator).memory_map@,
            final(frame_allocator).next as int,
        ) <= 0,
{
    if heap_size == 0 {
        return Ok(());
    }
    let first: u64 = heap_start - heap_start % 4096;
    let last: u64 = heap_start + (heap_size - 1);
    let last_page: u64 = last - last % 4096;
    let npages: u64 = (last_page - first) / 4096 + 1;
    assert(npages == heap_page_count(heap_start, heap_size));
    // Both page addresses are multiples of the page size, so their
    // distance is too, and the last page is reached exactly.
    assert((last_page - first) % 4096 == 0 && 4096 * ((last_page - first) as int / 4096) == (
    last_page - first) as int) by {
        let fq = first as int / 4096;
        let lq = last_page as int / 4096;
        vstd::arithmetic::div_mod::lemma_fundamental_div_mod(heap_start as int, 4096);
        vstd::arithmetic::div_mod::lemma_fundamental_div_mod(last as int, 4096);
        assert(first as int == 4096 * (heap_start as int / 4096));
        assert(last_page as int == 4096 * (last as int / 4096));
        assert((last_page - first) as int == 4096 * (last as int / 4096 - heap_start as int
            / 4096)) by (nonlinear_arith)
            requires
                first as int == 4096 * (heap_start as int / 4096),
                last_page as int == 4096 * (last as int / 4096),
        ;
        vstd::arithmetic::div_mod::lemma_mod_multiples_basic(
            last as int / 4096 - heap_start as int / 4096,
            4096,
        );
        assert((last_page - first) as int % 4096 == 0);
        vstd::arithmetic::div_mod::lemma_fundamental_div_mod((last_page - first) as int, 4096);
    }
    let ghost ts0 = arena.tables@;
    let ghost regions = frame_allocator.memory_map@;
    let ghost n0 = frame_allocator.next as int;
    let ghost root = mapper.root;
    let mut i: u64 = 0;
    let ghost mut ks: Seq<int> = Seq::empty();
    while i < npages
        invariant
            0 <= i <= npages,
            npages == heap_page_count(heap_start, heap_size),
            heap_start + heap_size <= 0x1_0000_0000_0000,
            first == page_base(heap_start),
            first + 4096 * (npages - 1) <= 0x1_0000_0000_0000,
            4096 * (npages as int) <= 0x1_0000_0000_0000,
            arena_wf(*arena),
            tables_wf(arena.tables@),
            has_table(arena.tables@, root),
            root == mapper.root,
            frame_allocator.memory_map@ == regions,
            regions == old(frame_allocator).memory_map@,
            ts0 == old(arena).tables@,
            n0 == old(frame_allocator).next as int,
            n0 <= frame_allocator.next as int <= n0 + 4 * i,
            n0 + 4 * heap_page_count(heap_start, heap_size) + 1 <= usize::MAX,
            frames_fresh(arena.tables@, regions, frame_allocator.next as int),
            table_extends(ts0, arena.tables@),
            forall|k1: int, k2: int|
                n0 <= k1 < k2 < usable_frames(regions).len() ==> #[trigger] usable_frames(
                    regions,
                )[k1] != #[trigger] usable_frames(regions)[k2],
            ks.len() == i,
            forall|j: int| 0 <= j < i ==> n0 <= #[trigger] ks[j] < frame_allocator.next,
            forall|j1: int, j2: int| 0 <= j1 < j2 < i ==> #[trigger] ks[j1] < #[trigger] ks[j2],
            forall|j: int|
                0 <= j < i ==> (#[trigger] resolve(
                    arena.tables@,
                    root,
                    heap_page(heap_start, j) as u64,
                )) == Some(
                    PageTableEntry {
                        present: true,
                        writable: true,
                        huge: false,
                        addr: usable_frames(regions)[ks[j]],
                    },
                ),
            forall|j: int| 0 <= j < i ==> #[trigger] ks[j] < usable_frames(regions).len(),
        decreases npages - i,
    {
        let page: u64 = first + 4096 * i;
        assert(page as int == heap_page(heap_start, i as int)) by {
            assert(4096 * (i as int) <= 4096 * (npages - 1)) by (nonlinear_arith)
                requires
                    i < npages,
            ;
        }
        let ghost n_before = frame_allocator.next as int;
        let frame = match frame_allocator.allocate_frame() {
            None => {
                return Err(MapError::FrameAllocationExhausted);
            },
            Some(f) => f,
        };
        assert(frame == usable_frames(regions)[n_before]);
        let ghost ts_before = arena.tables@;
        match map_to(arena, mapper, page, frame, frame_allocator) {
            Err(e) => {
                proof {
                    if e == MapError::PageMappingFailed {
                        assert(path_blocked(arena.tables@, root, page) || frames_remaining(
                            regions,
                            frame_allocator.next as int,
                        ) <= 0);
                        if path_blocked(arena.tables@, root, page) {
                            assert(0 <= i < heap_page_count(heap_start, heap_size)
                                && path_blocked(
                                arena.tables@,
                                root,
                                heap_page(heap_start, i as int) as u64,
                            ));
                        }
                    }
                    crate::paging::lemma_extends_trans(ts0, ts_before, arena.tables@);
                }
                return Err(e);
            },
            Ok(_) => {},
        }
        proof {
            let ts_after = arena.tables@;
            assert(resolve(ts_after, root, page) == Some(
                PageTableEntry { present: true, writable: true, huge: false, addr: frame },
            ));
            assert forall|j: int|
                0 <= j < i implies (#[trigger] resolve(
                ts_after,
                root,
                heap_page(heap_start, j) as u64,
            )) == Some(
                PageTableEntry {
                    present: true,
                    writable: true,
                    huge: false,
                    addr: usable_frames(regions)[ks[j]],
                },
            ) by {
                crate::paging::lemma_resolve_extends(
                    ts_before,
                    ts_after,
                    root,
                    heap_page(heap_start, j) as u64,
                );
            }
            crate::paging::lemma_extends_trans(ts0, ts_before, ts_after);
            ks = ks.push(n_before);
        }
        i = i + 1;
    }
    proof {
        assert forall|j1: int, j2: int|
            0 <= j1 < j2 < heap_page_count(heap_start, heap_size) implies (#[trigger] resolve(
            arena.tables@,
            root,
            heap_page(heap_start, j1) as u64,
        ))->Some_0.addr != (#[trigger] resolve(
            arena.tables@,
            root,
            heap_page(heap_start, j2) as u64,
        ))->Some_0.addr by {
            assert(ks[j1] < ks[j2]);
            assert(usable_frames(regions)[ks[j1]] != usable_frames(regions)[ks[j2]]);
        }
    }
    Ok(())
}

/// Law: for a page-aligned heap base, the heap covers exactly one page per
/// started page-sized step of its length — `heap_size / 4096` pages when
/// the length is a whole number of pages.
pub proof fn lemma_heap_page_count_exact(heap_start: u64, heap_size: u64)
    requires
        heap_start % 4096 == 0,
        heap_size > 0,
        heap_start + heap_size <= u64::MAX,
    ensures
        heap_page_count(heap_start, heap_size) == ((heap_size - 1) as int) / 4096 + 1,
        heap_size % 4096 == 0 ==> heap_page_count(heap_start, heap_size) == heap_size as int
            / 4096,
{
    let hs = heap_start as int;
    let sz = heap_size as int;
    let last = hs + sz - 1;
    vstd::arithmetic::div_mod::lemma_fundamental_div_mod(hs, 4096);
    vstd::arithmetic::div_mod::lemma_mod_multiples_vanish(hs / 4096, sz - 1, 4096);
    assert(last % 4096 == (sz - 1) % 4096) by {
        assert(4096 * (hs / 4096) + (sz - 1) == last);
    }
    assert(page_base(heap_start) == hs);
    vstd::arithmetic::div_mod::lemma_fundamental_div_mod(sz - 1, 4096);
    assert((last - last % 4096) - hs == 4096 * ((sz - 1) / 4096));
    vstd::arithmetic::div_mod::lemma_div_by_multiple((sz - 1) / 4096, 4096);
    if sz % 4096 == 0 {
        vstd::arithmetic::div_mod::lemma_fundamental_div_mod(sz, 4096);
        assert((sz - 1) / 4096 + 1 == sz / 4096) by {
            assert(sz == 4096 * (sz / 4096));
            assert(sz - 1 == 4096 * (sz / 4096 - 1) + 4095) by (nonlinear_arith)
                requires
                    sz == 4096 * (sz / 4096),
            ;
            vstd::arithmetic::div_mod::lemma_fundamental_div_mod_converse(
                sz - 1,
                4096,
                sz / 4096 - 1,
                4095,
            );
        }
    }
}

} // verus!
