//! Physical-frame source over the boot memory map.
//!
//! The boot environment hands the kernel a list of physical memory regions,
//! each tagged with its usability. This module filters the usable regions,
//! flattens them into a sequence of 4096-byte-aligned frame addresses, and
//! hands those frames out one at a time behind a monotonically increasing
//! cursor. Frames are never handed back: the source serves only the bounded
//! heap-initialisation phase.
//!
//! The flattened sequence is recomputed from the region list on every
//! request rather than cached; the cost per call is proportional to the
//! region list and is accepted, since the source is exercised only during
//! boot.

use vstd::prelude::*;

verus! {

/// Bytes in one physical frame or one virtual page.
pub const FRAME_SIZE: u64 = 4096;

/// Usability tag of one boot memory region.
#[derive(Debug, Clone, Copy, PartialEq, Eq, Structural)]
pub enum RegionKind {
    /// Free for the kernel to claim.
    Usable,
    /// Firmware- or device-reserved.
    Reserved,
    /// Any other tag of the boot map (kernel image, boot info, and the like).
    Other,
}

/// One physical address range of the boot memory map, read-only once built.
#[derive(Debug, Clone, Copy, PartialEq, Eq, Structural)]
pub struct MemoryRegion {
    /// First physical address of the range.
    pub start: u64,
    /// First physical address past the range.
    pub end: u64,
    /// Usability tag.
    pub kind: RegionKind,
}

/// Largest multiple of the frame size that is at most `a`.
pub open spec fn spec_align_down(a: int) -> int {
    a - a % (FRAME_SIZE as int)
}

/// How many frame-aligned addresses the range of `r` yields: one per started
/// frame-sized step from `r.start` up to `r.end`.
pub open spec fn region_frame_count(r: MemoryRegion) -> int {
    if r.start < r.end {
        let diff = r.end - r.start;
        diff / (FRAME_SIZE as int) + if diff % (FRAME_SIZE as int) == 0 {
            0int
        } else {
            1int
        }
    } else {
        0int
    }
}

/// The frame-aligned addresses covered by one region, in increasing order.
pub open spec fn region_frames(r: MemoryRegion) -> Seq<u64> {
    Seq::new(
        region_frame_count(r) as nat,
        |k: int| (spec_align_down(r.start as int) + (FRAME_SIZE as int) * k) as u64,
    )
}

/// All frames of the usable regions of `s`, region by region.
pub open spec fn usable_frames(s: Seq<MemoryRegion>) -> Seq<u64>
    decreases s.len(),
{
    if s.len() == 0 {
        Seq::empty()
    } else {
        let head = if s[0].kind == RegionKind::Usable {
            region_frames(s[0])
        } else {
            Seq::empty()
        };
        head + usable_frames(s.subrange(1, s.len() as int))
    }
}

/// What a frame request with cursor value `n` over map `s` returns.
pub open spec fn frame_at(s: Seq<MemoryRegion>, n: int) -> Option<u64> {
    if 0 <= n < usable_frames(s).len() {
        Some(usable_frames(s)[n])
    } else {
        None
    }
}

/// A well-formed boot memory map: every region is frame-aligned at both ends
/// and the regions are ordered and disjoint.
pub open spec fn wf_regions(s: Seq<MemoryRegion>) -> bool {
    &&& forall|i: int|
        0 <= i < s.len() ==> (#[trigger] s[i]).start % FRAME_SIZE == 0 && s[i].end % FRAME_SIZE
            == 0 && s[i].start <= s[i].end
    &&& forall|i: int, j: int| 0 <= i < j < s.len() ==> (#[trigger] s[i]).end <= (#[trigger] s[j]).start
}

/// Every frame of a well-formed region lies in `[r.start, r.end)`, and the
/// frames of one region are strictly increasing.
pub proof fn lemma_region_frames_bounds(r: MemoryRegion)
    requires
        r.start % FRAME_SIZE == 0,
    ensures
        forall|k: int|
            0 <= k < region_frames(r).len() ==> r.start <= #[trigger] region_frames(r)[k]
                && region_frames(r)[k] < r.end,
        forall|k1: int, k2: int|
            0 <= k1 < k2 < region_frames(r).len() ==> #[trigger] region_frames(r)[k1]
                < #[trigger] region_frames(r)[k2],
{
    let f = FRAME_SIZE as int;
    let cnt = region_frame_count(r);
    assert forall|k: int| 0 <= k < cnt implies r.start <= #[trigger] region_frames(r)[k]
        && region_frames(r)[k] < r.end by {
        let d = r.end - r.start;
        assert(f * k >= 0) by (nonlinear_arith)
            requires
                k >= 0,
                f > 0,
        ;
        assert(f * k <= f * (cnt - 1)) by (nonlinear_arith)
            requires
                k <= cnt - 1,
                f > 0,
        ;
        assert(d == f * (d / f) + d % f);
        if d % f == 0 {
            assert(f * (cnt - 1) == f * (d / f) - f) by (nonlinear_arith)
                requires
                    cnt == d / f,
            ;
        } else {
            assert(f * (cnt - 1) == f * (d / f)) by (nonlinear_arith)
                requires
                    cnt == d / f + 1,
            ;
        }
    }
    assert forall|k1: int, k2: int| 0 <= k1 < k2 < cnt implies #[trigger] region_frames(r)[k1]
        < #[trigger] region_frames(r)[k2] by {
        assert(f * k1 < f * k2) by (nonlinear_arith)
            requires
                k1 < k2,
                f > 0,
        ;
    }
}

/// A well-formed region list stays well formed when its first region is
/// dropped.
proof fn lemma_wf_regions_tail(s: Seq<MemoryRegion>)
    requires
        wf_regions(s),
        s.len() > 0,
    ensures
        wf_regions(s.subrange(1, s.len() as int)),
{
    let rest = s.subrange(1, s.len() as int);
    assert forall|i: int| 0 <= i < rest.len() implies (#[trigger] rest[i]).start % FRAME_SIZE == 0
        && rest[i].end % FRAME_SIZE == 0 && rest[i].start <= rest[i].end by {
        assert(rest[i] == s[i + 1]);
    }
    assert forall|i: int, j: int| 0 <= i < j < rest.len() implies (#[trigger] rest[i]).end
        <= (#[trigger] rest[j]).start by {
        assert(rest[i] == s[i + 1] && rest[j] == s[j + 1]);
    }
}

/// Every usable frame of a well-formed region list is at least the start of
/// its first region.
proof fn lemma_usable_frames_lower_bound(s: Seq<MemoryRegion>, b: u64)
    requires
        wf_regions(s),
        forall|i: int| 0 <= i < s.len() ==> b <= (#[trigger] s[i]).start,
    ensures
        forall|k: int| 0 <= k < usable_frames(s).len() ==> b <= #[trigger] usable_frames(s)[k],
    decreases s.len(),
{
    if s.len() > 0 {
        let rest = s.subrange(1, s.len() as int);
        lemma_wf_regions_tail(s);
        lemma_region_frames_bounds(s[0]);
        assert forall|i: int| 0 <= i < rest.len() implies b <= (#[trigger] rest[i]).start by {
            assert(rest[i] == s[i + 1]);
        }
        lemma_usable_frames_lower_bound(rest, b);
        let head = if s[0].kind == RegionKind::Usable {
            region_frames(s[0])
        } else {
            Seq::<u64>::empty()
        };
        assert forall|k: int| 0 <= k < usable_frames(s).len() implies b <= #[trigger] usable_frames(
            s,
        )[k] by {
            if k < head.len() {
                assert(usable_frames(s)[k] == region_frames(s[0])[k]);
            } else {
                assert(usable_frames(s)[k] == usable_frames(rest)[k - head.len()]);
            }
        }
    }
}

/// The flattened usable-frame sequence of a well-formed region list is
/// strictly increasing: no frame is ever listed twice.
pub proof fn lemma_usable_frames_increasing(s: Seq<MemoryRegion>, k1: int, k2: int)
    requires
        wf_regions(s),
        0 <= k1 < k2 < usable_frames(s).len(),
    ensures
        usable_frames(s)[k1] < usable_frames(s)[k2],
    decreases s.len(),
{
    let rest = s.subrange(1, s.len() as int);
    lemma_wf_regions_tail(s);
    let head = if s[0].kind == RegionKind::Usable {
        region_frames(s[0])
    } else {
        Seq::<u64>::empty()
    };
    lemma_region_frames_bounds(s[0]);
    if k2 < head.len() {
        // Both indices fall in the first region.
    } else if k1 >= head.len() {
        lemma_usable_frames_increasing(rest, k1 - head.len(), k2 - head.len());
    } else {
        // k1 in the first region, k2 in a later one: later regions start at
        // or after the end of the first.
        assert forall|i: int| 0 <= i < rest.len() implies s[0].end <= (#[trigger] rest[i]).start by {
            assert(rest[i] == s[i + 1]);
        }
        lemma_usable_frames_lower_bound(rest, s[0].end);
        assert(usable_frames(s)[k2] == usable_frames(rest)[k2 - head.len()]);
    }
}

/// Law: the source never serves the same frame at two different cursor
/// values; together with the strictly growing cursor of `allocate_frame`,
/// no frame is ever handed out twice.
pub proof fn lemma_no_frame_twice(s: Seq<MemoryRegion>, n1: int, n2: int)
    requires
        wf_regions(s),
        0 <= n1 < n2,
        frame_at(s, n1) is Some,
        frame_at(s, n2) is Some,
    ensures
        frame_at(s, n1) != frame_at(s, n2),
{
    lemma_usable_frames_increasing(s, n1, n2);
}

/// Law: once the cursor has passed the last usable frame, every request
/// fails; the cursor never moves back, so exhaustion is permanent.
pub proof fn lemma_exhaustion_is_permanent(s: Seq<MemoryRegion>, n: int)
    requires
        n >= usable_frames(s).len(),
    ensures
        frame_at(s, n) is None,
{
}

/// Handle for address translation and heap mapping: the physical address
/// of the active top-level page table, and the virtual base of the window
/// through which the kernel glue reaches physical memory (every physical
/// address `p` is readable at `physical_memory_offset + p`; the model
/// reaches tables by their physical address directly).
#[derive(Debug, Clone, Copy, PartialEq, Eq, Structural)]
pub struct PageMapper {
    pub physical_memory_offset: u64,
    pub root: u64,
}

/// One-shot guard for `init`: taking a handle to the active top-level
/// table twice would alias it, so the second and every later request is
/// refused at run time.
pub struct MapperInitGuard {
    pub used: bool,
}

impl MapperInitGuard {
    /// A fresh guard that has not given out a handle yet.
    pub fn new() -> (r: Self)
        ensures
            !r.used,
    {
        MapperInitGuard { used: false }
    }
}

/// Builds the translation handle from the physical-memory offset and the
/// top-level table address read from the hardware's page-table-root
/// register. Succeeds at most once per guard: a second call returns
/// nothing, so no aliased handle to the active table can ever exist.
pub fn init(guard: &mut MapperInitGuard, physical_memory_offset: u64, root: u64) -> (r: Option<
    PageMapper,
>)
    ensures
        final(guard).used,
        old(guard).used ==> r is None,
        !old(guard).used ==> r == Some(PageMapper { physical_memory_offset, root }),
{
    if guard.used {
        None
    } else {
        guard.used = true;
        Some(PageMapper { physical_memory_offset, root })
    }
}

/// Law: every frame the source can yield is frame-aligned.
pub proof fn lemma_usable_frames_aligned(s: Seq<MemoryRegion>, k: int)
    requires
        wf_regions(s),
        0 <= k < usable_frames(s).len(),
    ensures
        usable_frames(s)[k] % FRAME_SIZE == 0,
    decreases s.len(),
{
    let rest = s.subrange(1, s.len() as int);
    lemma_wf_regions_tail(s);
    let head = if s[0].kind == RegionKind::Usable {
        region_frames(s[0])
    } else {
        Seq::<u64>::empty()
    };
    if k < head.len() {
        lemma_region_frames_bounds(s[0]);
        let f = FRAME_SIZE as int;
        assert(usable_frames(s)[k] == region_frames(s[0])[k]);
        assert((s[0].start + f * k) % f == 0) by {
            vstd::arithmetic::div_mod::lemma_mod_multiples_vanish(k, s[0].start as int, f);
            assert(f * k + s[0].start == s[0].start + f * k);
        }
    } else {
        lemma_usable_frames_aligned(rest, k - head.len());
        assert(usable_frames(s)[k] == usable_frames(rest)[k - head.len()]);
    }
}

/// Every usable frame lies inside one of the usable regions.
pub proof fn lemma_usable_frame_in_region(s: Seq<MemoryRegion>, k: int)
    requires
        wf_regions(s),
        0 <= k < usable_frames(s).len(),
    ensures
        exists|i: int|
            0 <= i < s.len() && (#[trigger] s[i]).kind == RegionKind::Usable && s[i].start
                <= usable_frames(s)[k] && usable_frames(s)[k] < s[i].end,
    decreases s.len(),
{
    let rest = s.subrange(1, s.len() as int);
    lemma_wf_regions_tail(s);
    let head = if s[0].kind == RegionKind::Usable {
        region_frames(s[0])
    } else {
        Seq::<u64>::empty()
    };
    if k < head.len() {
        lemma_region_frames_bounds(s[0]);
        assert(s[0].kind == RegionKind::Usable && s[0].start <= usable_frames(s)[k]
            && usable_frames(s)[k] < s[0].end);
    } else {
        lemma_usable_frame_in_region(rest, k - head.len());
        let i = choose|i: int|
            0 <= i < rest.len() && (#[trigger] rest[i]).kind == RegionKind::Usable
                && rest[i].start <= usable_frames(rest)[k - head.len()] && usable_frames(
                rest,
            )[k - head.len()] < rest[i].end;
        assert(s[i + 1] == rest[i]);
        assert(usable_frames(s)[k] == usable_frames(rest)[k - head.len()]);
    }
}

/// A frame source that never has a frame to give; stands in where mapping
/// must not allocate.
pub struct EmptyFrameAllocator;

impl EmptyFrameAllocator {
    /// Always reports exhaustion.
    pub fn allocate_frame(&mut self) -> (r: Option<u64>)
        ensures
            r is None,
    {
        None
    }
}

/// Frame source over the boot memory map: a region list and the count of
/// frames already handed out.
pub struct BootInfoFrameAllocator {
    /// The boot memory map, kept as given.
    pub memory_map: Vec<MemoryRegion>,
    /// Frames consumed so far; never decreases, never revisits a frame.
    pub next: usize,
}

impl BootInfoFrameAllocator {
    /// Builds a source over `memory_map` with nothing consumed yet. The map
    /// is trusted as handed over by the boot environment.
    pub fn init(memory_map: Vec<MemoryRegion>) -> (r: Self)
        ensures
            r.memory_map@ == memory_map@,
            r.next == 0,
    {
        BootInfoFrameAllocator { memory_map, next: 0 }
    }

    /// Returns the `n`-th usable frame of the map, recomputing the flattened
    /// frame sequence from the region list.
    fn nth_usable_frame(&self, n: usize) -> (r: Option<u64>)
        ensures
            r == frame_at(self.memory_map@, n as int),
    {
        let whole = Ghost(self.memory_map@);
        let len = self.memory_map.len();
        let mut i: usize = 0;
        // Frames of usable regions before index i.
        let mut acc: usize = 0;
        proof {
            assert(whole@.subrange(0, len as int) =~= whole@);
            assert(usable_frames(whole@).skip(0) =~= usable_frames(whole@));
        }
        while i < len
            invariant
                0 <= i <= len,
                len == whole@.len(),
                whole@ == self.memory_map@,
                acc <= n,
                usable_frames(whole@).len() == acc + usable_frames(
                    whole@.subrange(i as int, len as int),
                ).len(),
                usable_frames(whole@).skip(acc as int) == usable_frames(
                    whole@.subrange(i as int, len as int),
                ),
            decreases len - i,
        {
            let r = self.memory_map[i];
            let ghost rest = whole@.subrange(i as int, len as int);
            proof {
                assert(rest[0] == r);
                assert(rest.subrange(1, rest.len() as int) =~= whole@.subrange(
                    i + 1,
                    len as int,
                ));
            }
            if r.kind == RegionKind::Usable && r.end > r.start {
                let diff = r.end - r.start;
                let cnt = diff / FRAME_SIZE + if diff % FRAME_SIZE == 0 {
                    0
                } else {
                    1
                };
                assert(cnt == region_frame_count(r));
                let rem = (n - acc) as u64;
                if rem < cnt {
                    let base = r.start - r.start % FRAME_SIZE;
                    assert(base + FRAME_SIZE * rem < r.end) by {
                        assert(FRAME_SIZE * rem <= FRAME_SIZE * (cnt - 1)) by (nonlinear_arith)
                            requires
                                rem < cnt,
                                rem >= 0,
                        ;
                        assert(FRAME_SIZE as int * (cnt - 1) < diff) by {
                            let f = FRAME_SIZE as int;
                            let d = diff as int;
                            assert(d == f * (d / f) + d % f);
                            if d % f == 0 {
                                assert(f * (cnt - 1) == f * (d / f) - f) by (nonlinear_arith)
                                    requires
                                        cnt == d / f,
                                ;
                            } else {
                                assert(f * (cnt - 1) == f * (d / f)) by (nonlinear_arith)
                                    requires
                                        cnt == d / f + 1,
                                ;
                            }
                        }
                    }
                    let frame = base + FRAME_SIZE * rem;
                    proof {
                        assert(region_frames(r)[rem as int] == frame);
                        assert(usable_frames(rest)[rem as int] == region_frames(r)[rem as int]);
                        assert(usable_frames(whole@).skip(acc as int)[rem as int] == usable_frames(
                            whole@,
                        )[n as int]);
                    }
                    return Some(frame);
                } else {
                    proof {
                        assert(usable_frames(rest) == region_frames(r) + usable_frames(
                            rest.subrange(1, rest.len() as int),
                        ));
                        assert(usable_frames(whole@).skip(acc as int).skip(cnt as int)
                            =~= usable_frames(whole@).skip(acc as int + cnt as int));
                    }
                    acc = acc + cnt as usize;
                }
            } else {
                proof {
                    assert(usable_frames(rest) =~= usable_frames(
                        rest.subrange(1, rest.len() as int),
                    ));
                }
            }
            i = i + 1;
        }
        proof {
            assert(whole@.subrange(len as int, len as int) =~= Seq::<MemoryRegion>::empty());
            assert(usable_frames(whole@).len() == acc);
        }
        None
    }

    /// Hands out the next unconsumed usable frame, advancing the cursor, or
    /// reports exhaustion once the cursor has passed the last usable frame.
    /// The cursor only ever grows, so no frame is handed out twice and
    /// exhaustion is permanent.
    pub fn allocate_frame(&mut self) -> (r: Option<u64>)
        requires
            old(self).next < usize::MAX,
        ensures
            final(self).memory_map@ == old(self).memory_map@,
            final(self).next == old(self).next + 1,
            r == frame_at(old(self).memory_map@, old(self).next as int),
    {
        let frame = self.nth_usable_frame(self.next);
        self.next = self.next + 1;
        frame
    }
}

} // verus!
