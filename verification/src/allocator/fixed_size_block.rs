//! Size-classed block allocator over a general fallback heap.
//!
//! Requests are rounded up to the smallest of a fixed set of block-size
//! classes; each class keeps its own free list of block addresses, used as
//! a stack (last freed, first reused). An out-of-class request, and a
//! request whose class has no free block, goes to the fallback heap; a
//! block carved out of the fallback heap for a class is donated to that
//! class for good — once freed it re-enters the class's free list, never
//! the general heap. That trades eventual full reclaim for constant-time
//! allocation and deallocation of the common sizes.
//!
//! The free list keeps plain block addresses rather than links threaded
//! through the freed memory itself: the list is the allocator's own data,
//! and the freed bytes stay untouched with their address as the handle.

use vstd::prelude::*;

use crate::allocator::fallback_heap::{
    eff_size, ff_alloc_extents, ff_dealloc_extents, ff_find, ff_ptr, heap_wf, AllocError, Extent,
    FallbackHeap,
};

verus! {

/// The enumerated block-size classes, smallest first. Each is a power of
/// two, so a block aligned to its class size satisfies any smaller
/// power-of-two alignment.
pub open spec fn block_sizes() -> Seq<u64> {
    seq![8u64, 16u64, 32u64, 64u64, 128u64, 256u64, 512u64, 1024u64, 2048u64]
}

/// The class size for class index `i`.
pub fn block_size(i: usize) -> (r: u64)
    requires
        i < block_sizes().len(),
    ensures
        r == block_sizes()[i as int],
{
    let r: u64 = if i == 0 {
        8
    } else if i == 1 {
        16
    } else if i == 2 {
        32
    } else if i == 3 {
        64
    } else if i == 4 {
        128
    } else if i == 5 {
        256
    } else if i == 6 {
        512
    } else if i == 7 {
        1024
    } else {
        2048
    };
    assert(r == block_sizes()[i as int]);
    r
}

/// The size a request must be served with: the larger of its size and its
/// alignment, since a block of the chosen class is aligned to the class
/// size.
pub open spec fn spec_required_size(size: u64, align: u64) -> u64 {
    if size >= align {
        size
    } else {
        align
    }
}

/// The class that serves a request: the smallest class at least as large
/// as the required size, or none when the request is larger than every
/// class and goes straight to the fallback heap.
pub open spec fn spec_list_index(size: u64, align: u64) -> Option<int> {
    let req = spec_required_size(size, align);
    if req <= 8 {
        Some(0int)
    } else if req <= 16 {
        Some(1int)
    } else if req <= 32 {
        Some(2int)
    } else if req <= 64 {
        Some(3int)
    } else if req <= 128 {
        Some(4int)
    } else if req <= 256 {
        Some(5int)
    } else if req <= 512 {
        Some(6int)
    } else if req <= 1024 {
        Some(7int)
    } else if req <= 2048 {
        Some(8int)
    } else {
        None
    }
}

/// Picks the block-size class of a request, or none for an out-of-class
/// request. A zero-byte request has a class like any other: it is served
/// as a block of the class that fits its alignment.
pub fn list_index(size: u64, align: u64) -> (r: Option<usize>)
    ensures
        r is Some <==> spec_list_index(size, align) is Some,
        r is Some ==> r->0 as int == spec_list_index(size, align)->Some_0,
{
    let required_block_size = if size >= align {
        size
    } else {
        align
    };
    if required_block_size <= 8 {
        Some(0)
    } else if required_block_size <= 16 {
        Some(1)
    } else if required_block_size <= 32 {
        Some(2)
    } else if required_block_size <= 64 {
        Some(3)
    } else if required_block_size <= 128 {
        Some(4)
    } else if required_block_size <= 256 {
        Some(5)
    } else if required_block_size <= 512 {
        Some(6)
    } else if required_block_size <= 1024 {
        Some(7)
    } else if required_block_size <= 2048 {
        Some(8)
    } else {
        None
    }
}

/// Mathematical state of the block allocator: one free-list stack of block
/// addresses per class, and the fallback heap's free extents and bounds.
#[verifier::ext_equal]
pub struct AllocView {
    pub lists: Seq<Seq<u64>>,
    pub heap: Seq<Extent>,
    pub bottom: u64,
    pub top: u64,
}

/// What an allocation returns on the view: the top of the class's free
/// list; a fresh class-sized, class-aligned block from the fallback heap
/// when the list is empty; or, out of class, a first-fit block of the
/// request itself. Nothing means exhaustion.
pub open spec fn alloc_result(v: AllocView, size: u64, align: u64) -> Option<u64> {
    match spec_list_index(size, align) {
        Some(i) => if v.lists[i].len() > 0 {
            Some(v.lists[i].last())
        } else {
            let bs = block_sizes()[i];
            if ff_find(v.heap, bs, bs) is Some {
                Some(ff_ptr(v.heap, bs, bs))
            } else {
                None
            }
        },
        None => if ff_find(v.heap, size, align) is Some {
            Some(ff_ptr(v.heap, size, align))
        } else {
            None
        },
    }
}

/// The view after an allocation: the class list loses its top, or the
/// fallback heap loses the block (and is unchanged when it had none).
pub open spec fn alloc_state(v: AllocView, size: u64, align: u64) -> AllocView {
    match spec_list_index(size, align) {
        Some(i) => if v.lists[i].len() > 0 {
            AllocView { lists: v.lists.update(i, v.lists[i].drop_last()), ..v }
        } else {
            let bs = block_sizes()[i];
            AllocView { heap: ff_alloc_extents(v.heap, bs, bs), ..v }
        },
        None => AllocView { heap: ff_alloc_extents(v.heap, size, align), ..v },
    }
}

/// The view after a deallocation: an in-class block is pushed onto its
/// class's free list — never returned to the fallback heap — and an
/// out-of-class block goes back to the fallback heap, merging with its
/// neighbours.
pub open spec fn dealloc_state(v: AllocView, ptr: u64, size: u64, align: u64) -> AllocView {
    match spec_list_index(size, align) {
        Some(i) => AllocView { lists: v.lists.update(i, v.lists[i].push(ptr)), ..v },
        None => AllocView { heap: ff_dealloc_extents(v.heap, ptr, eff_size(size)), ..v },
    }
}

/// The size-classed block allocator: one free list per class and the
/// fallback heap. A single instance serves the whole kernel, constructed
/// empty before the heap exists and initialised once.
pub struct FixedSizeBlockAllocator {
    /// One stack of free block addresses per class in `block_sizes()`.
    pub list_heads: Vec<Vec<u64>>,
    /// The general first-fit allocator that seeds the classes and serves
    /// oversized requests.
    pub fallback_allocator: FallbackHeap,
}

impl View for FixedSizeBlockAllocator {
    type V = AllocView;

    open spec fn view(&self) -> AllocView {
        AllocView {
            lists: self.list_heads@.map_values(|l: Vec<u64>| l@),
            heap: self.fallback_allocator.extents@,
            bottom: self.fallback_allocator.bottom,
            top: self.fallback_allocator.top,
        }
    }
}

/// The allocator is well formed: one list per class, a well-formed
/// fallback heap, and every listed free block aligned to its class size
/// (enforced when a block enters a list).
pub open spec fn allocator_wf(a: FixedSizeBlockAllocator) -> bool {
    &&& a@.lists.len() == block_sizes().len()
    &&& heap_wf(a.fallback_allocator)
    &&& forall|i: int, k: int|
        0 <= i < a@.lists.len() && 0 <= k < a@.lists[i].len() ==> #[trigger] a@.lists[i][k]
            % block_sizes()[i] == 0
}

impl FixedSizeBlockAllocator {
    /// An empty allocator: every free list empty and no fallback memory.
    /// Usable as the initial value of the kernel-wide singleton; nothing
    /// can be allocated until `init` donates the heap range.
    pub fn new() -> (r: Self)
        ensures
            allocator_wf(r),
            r@.lists.len() == block_sizes().len(),
            forall|i: int| 0 <= i < r@.lists.len() ==> (#[trigger] r@.lists[i]).len() == 0,
            r@.heap.len() == 0,
            r@.bottom == 0,
            r@.top == 0,
    {
        let mut list_heads: Vec<Vec<u64>> = Vec::new();
        let mut i: usize = 0;
        while i < 9
            invariant
                0 <= i <= 9,
                list_heads@.len() == i,
                forall|j: int| 0 <= j < i ==> (#[trigger] list_heads@[j])@.len() == 0,
            decreases 9 - i,
        {
            list_heads.push(Vec::new());
            i = i + 1;
        }
        let r = FixedSizeBlockAllocator { list_heads, fallback_allocator: FallbackHeap::empty() };
        proof {
            assert(forall|j: int|
                0 <= j < r@.lists.len() ==> (#[trigger] r@.lists[j]) == r.list_heads@[j]@);
        }
        r
    }

    /// One-time initialisation: donates the byte range `[heap_start,
    /// heap_start + heap_size)` to the fallback heap. The free lists are
    /// untouched. To be called exactly once, on an allocator that does not
    /// hold a byte range yet: the single kernel-wide instance is built
    /// empty by `new` and fed the mapped heap once during boot.
    pub fn init(&mut self, heap_start: u64, heap_size: u64)
        requires
            old(self)@.bottom == old(self)@.top,
            heap_start + heap_size <= u64::MAX,
        ensures
            final(self).list_heads@ == old(self).list_heads@,
            final(self)@.bottom == heap_start,
            final(self)@.top == heap_start + heap_size,
            final(self)@.heap == if heap_size > 0 {
                seq![Extent { addr: heap_start, size: heap_size }]
            } else {
                Seq::<Extent>::empty()
            },
            allocator_wf(*old(self)) ==> allocator_wf(*final(self)),
    {
        self.fallback_allocator.init(heap_start, heap_size);
    }

    /// Serves a request straight from the fallback heap.
    fn fallback_alloc(&mut self, size: u64, align: u64) -> (r: Result<u64, AllocError>)
        requires
            heap_wf(old(self).fallback_allocator),
            align >= 1,
        ensures
            final(self).list_heads@ == old(self).list_heads@,
            final(self)@.bottom == old(self)@.bottom,
            final(self)@.top == old(self)@.top,
            heap_wf(final(self).fallback_allocator),
            r is Ok <==> ff_find(old(self)@.heap, size, align) is Some,
            r is Ok ==> r->Ok_0 == ff_ptr(old(self)@.heap, size, align),
            r is Err ==> r->Err_0 == AllocError::HeapExhausted,
            final(self)@.heap == ff_alloc_extents(old(self)@.heap, size, align),
    {
        self.fallback_allocator.allocate(size, align)
    }

    /// Allocates a block for a request of `size` bytes aligned to `align`:
    /// the top block of the request's class list when there is one; a
    /// fresh class-sized block from the fallback heap when the list is
    /// empty; the first-fit fallback block itself for an out-of-class
    /// request. Fails iff the serving source is exhausted.
    pub fn allocate(&mut self, size: u64, align: u64) -> (r: Result<u64, AllocError>)
        requires
            allocator_wf(*old(self)),
            align >= 1,
        ensures
            allocator_wf(*final(self)),
            final(self)@ == alloc_state(old(self)@, size, align),
            r is Ok <==> alloc_result(old(self)@, size, align) is Some,
            r is Ok ==> r->Ok_0 == alloc_result(old(self)@, size, align)->Some_0,
            r is Ok ==> (match spec_list_index(size, align) {
                Some(i) => r->Ok_0 % block_sizes()[i] == 0,
                None => true,
            }),
            r is Err ==> r->Err_0 == AllocError::HeapExhausted,
    {
        let ghost v0 = self@;
        match list_index(size, align) {
            Some(index) => {
                let ghost i = index as int;
                assert(self.list_heads@[i]@ == v0.lists[i]);
                let node = self.list_heads[index].pop();
                match node {
                    Some(block) => {
                        proof {
                            assert(self@.lists =~= v0.lists.update(i, v0.lists[i].drop_last()));
                            assert(self@ =~= alloc_state(v0, size, align));
                        }
                        Ok(block)
                    },
                    None => {
                        // No free block of this class: carve a new one,
                        // class-sized and class-aligned, out of the
                        // fallback heap.
                        proof {
                            assert(self@.lists =~= v0.lists);
                        }
                        let bs = block_size(index);
                        let r = self.fallback_alloc(bs, bs);
                        proof {
                            assert(self@.lists =~= v0.lists);
                            assert(self@ =~= alloc_state(v0, size, align));
                            if r is Ok {
                                crate::allocator::fallback_heap::lemma_ff_ptr_aligned(
                                    v0.heap,
                                    bs,
                                    bs,
                                );
                            }
                        }
                        r
                    },
                }
            },
            None => {
                let r = self.fallback_alloc(size, align);
                proof {
                    assert(self@.lists =~= v0.lists);
                    assert(self@ =~= alloc_state(v0, size, align));
                }
                r
            },
        }
    }

    /// Returns a block: an in-class block is pushed onto its class's free
    /// list (a block donated to a class never goes back to the general
    /// heap), an out-of-class block goes back to the fallback heap. The
    /// caller must hand back exactly what was allocated, with the size and
    /// alignment of the allocation — anything else is a caller error, and
    /// the conditions here are the consistency checks a freed block must
    /// meet.
    pub fn deallocate(&mut self, ptr: u64, size: u64, align: u64)
        requires
            allocator_wf(*old(self)),
            align >= 1,
            match spec_list_index(size, align) {
                Some(i) => ptr % block_sizes()[i] == 0,
                None => {
                    &&& old(self)@.bottom <= ptr
                    &&& ptr + eff_size(size) <= old(self)@.top
                    &&& forall|k: int|
                        0 <= k < old(self)@.heap.len() ==> ptr + eff_size(size) <= (#[trigger] old(
                            self,
                        )@.heap[k]).addr || old(self)@.heap[k].addr + old(self)@.heap[k].size
                            <= ptr
                },
            },
        ensures
            allocator_wf(*final(self)),
            final(self)@ == dealloc_state(old(self)@, ptr, size, align),
    {
        let ghost v0 = self@;
        match list_index(size, align) {
            Some(index) => {
                let ghost i = index as int;
                assert(self.list_heads@[i]@ == v0.lists[i]);
                self.list_heads[index].push(ptr);
                proof {
                    assert(self@.lists =~= v0.lists.update(i, v0.lists[i].push(ptr)));
                    assert(self@ =~= dealloc_state(v0, ptr, size, align));
                }
            },
            None => {
                proof {
                    assert forall|k: int|
                        0 <= k < self.fallback_allocator.extents@.len() implies ptr + eff_size(
                        size,
                    ) <= (#[trigger] self.fallback_allocator.extents@[k]).addr
                        || self.fallback_allocator.extents@[k].addr
                        + self.fallback_allocator.extents@[k].size <= ptr by {
                        assert(old(self)@.heap[k] == self.fallback_allocator.extents@[k]);
                    }
                }
                self.fallback_allocator.deallocate(ptr, size, align);
                proof {
                    assert(self@.lists =~= v0.lists);
                    assert(self@ =~= dealloc_state(v0, ptr, size, align));
                }
            },
        }
    }
}

/// Repeated deallocation: the state after freeing `blocks` one by one, in
/// order, all with the same request size and alignment.
pub open spec fn dealloc_seq(v: AllocView, blocks: Seq<u64>, size: u64, align: u64) -> AllocView
    decreases blocks.len(),
{
    if blocks.len() == 0 {
        v
    } else {
        dealloc_seq(
            dealloc_state(v, blocks[0], size, align),
            blocks.subrange(1, blocks.len() as int),
            size,
            align,
        )
    }
}

/// The state after `n` successive allocations of the same request.
pub open spec fn alloc_state_n(v: AllocView, n: nat, size: u64, align: u64) -> AllocView
    decreases n,
{
    if n == 0 {
        v
    } else {
        alloc_state_n(alloc_state(v, size, align), (n - 1) as nat, size, align)
    }
}

/// The blocks `n` successive allocations of the same request return, in
/// order.
pub open spec fn alloc_results_n(v: AllocView, n: nat, size: u64, align: u64) -> Seq<u64>
    decreases n,
{
    if n == 0 {
        Seq::<u64>::empty()
    } else {
        seq![alloc_result(v, size, align)->Some_0] + alloc_results_n(
            alloc_state(v, size, align),
            (n - 1) as nat,
            size,
            align,
        )
    }
}

/// Law: for every request within the class range, allocate — deallocate —
/// allocate returns the very same block, served from the same size class,
/// and the second allocation leaves the allocator exactly as the first one
/// did: the round trip corrupts nothing.
pub proof fn lemma_alloc_dealloc_alloc(v: AllocView, size: u64, align: u64)
    requires
        v.lists.len() == block_sizes().len(),
        1 <= size <= 2048,
        align <= 2048,
    ensures
        spec_list_index(size, align) is Some,
        alloc_result(v, size, align) is Some ==> ({
            let p = alloc_result(v, size, align)->Some_0;
            let v1 = alloc_state(v, size, align);
            let v2 = dealloc_state(v1, p, size, align);
            &&& alloc_result(v2, size, align) == Some(p)
            &&& alloc_state(v2, size, align) == v1
        }),
{
    let i = spec_list_index(size, align)->Some_0;
    if alloc_result(v, size, align) is Some {
        let p = alloc_result(v, size, align)->Some_0;
        let v1 = alloc_state(v, size, align);
        let v2 = dealloc_state(v1, p, size, align);
        if v.lists[i].len() > 0 {
            assert(v2.lists[i] == v.lists[i].drop_last().push(p));
            assert(alloc_state(v2, size, align).lists =~~= v1.lists);
            assert(alloc_state(v2, size, align) =~~= v1);
        } else {
            assert(v2.lists[i] == v.lists[i].push(p));
            assert(v2.lists[i].drop_last() =~= v.lists[i]);
            assert(alloc_state(v2, size, align).lists =~~= v1.lists);
            assert(alloc_state(v2, size, align) =~~= v1);
        }
    }
}

/// Freeing in-class blocks one by one appends them, in order, to the end
/// of the class's free list and touches nothing else.
proof fn lemma_dealloc_seq_appends(v: AllocView, blocks: Seq<u64>, size: u64, align: u64)
    requires
        v.lists.len() == block_sizes().len(),
        spec_list_index(size, align) is Some,
    ensures
        dealloc_seq(v, blocks, size, align) == (AllocView {
            lists: v.lists.update(
                spec_list_index(size, align)->Some_0,
                v.lists[spec_list_index(size, align)->Some_0] + blocks,
            ),
            ..v
        }),
    decreases blocks.len(),
{
    let i = spec_list_index(size, align)->Some_0;
    if blocks.len() == 0 {
        assert(v.lists[i] + blocks =~= v.lists[i]);
        assert(v.lists.update(i, v.lists[i] + blocks) =~~= v.lists);
        assert(dealloc_seq(v, blocks, size, align) =~~= (AllocView {
            lists: v.lists.update(i, v.lists[i] + blocks),
            ..v
        }));
    } else {
        let d1 = dealloc_state(v, blocks[0], size, align);
        let rest = blocks.subrange(1, blocks.len() as int);
        lemma_dealloc_seq_appends(d1, rest, size, align);
        assert(d1.lists[i] == v.lists[i].push(blocks[0]));
        assert(d1.lists[i] + rest =~= v.lists[i] + blocks);
        assert(d1.lists.update(i, d1.lists[i] + rest) =~~= v.lists.update(i, v.lists[i] + blocks));
        assert(dealloc_seq(v, blocks, size, align) =~~= (AllocView {
            lists: v.lists.update(i, v.lists[i] + blocks),
            ..v
        }));
    }
}

/// Allocating as many times as a known suffix of the class's free list is
/// long pops exactly that suffix, last block first.
proof fn lemma_pop_run(v: AllocView, base: Seq<u64>, blocks: Seq<u64>, size: u64, align: u64)
    requires
        v.lists.len() == block_sizes().len(),
        spec_list_index(size, align) is Some,
        v.lists[spec_list_index(size, align)->Some_0] == base + blocks,
    ensures
        alloc_results_n(v, blocks.len(), size, align) == blocks.reverse(),
        alloc_state_n(v, blocks.len(), size, align) == (AllocView {
            lists: v.lists.update(spec_list_index(size, align)->Some_0, base),
            ..v
        }),
    decreases blocks.len(),
{
    let i = spec_list_index(size, align)->Some_0;
    if blocks.len() == 0 {
        assert(blocks.reverse() =~= Seq::<u64>::empty());
        assert(v.lists.update(i, base) =~~= v.lists);
        assert(alloc_state_n(v, 0, size, align) =~~= (AllocView {
            lists: v.lists.update(i, base),
            ..v
        }));
    } else {
        assert(v.lists[i].len() > 0);
        assert(v.lists[i].last() == blocks.last());
        assert(alloc_result(v, size, align) == Some(blocks.last()));
        let v1 = alloc_state(v, size, align);
        assert(v1.lists[i] == v.lists[i].drop_last());
        assert(v.lists[i].drop_last() =~= base + blocks.drop_last());
        assert(v1.lists =~~= v.lists.update(i, base + blocks.drop_last()));
        lemma_pop_run(v1, base, blocks.drop_last(), size, align);
        assert(alloc_state_n(v1, blocks.drop_last().len(), size, align).lists =~~= v.lists.update(
            i,
            base,
        ));
        assert(alloc_state_n(v, blocks.len(), size, align) =~~= (AllocView {
            lists: v.lists.update(i, base),
            ..v
        }));
        assert(seq![blocks.last()] + blocks.drop_last().reverse() =~= blocks.reverse());
        assert(alloc_results_n(v, blocks.len(), size, align) =~= blocks.reverse());
    }
}

/// Law (last in, first out): free in-class blocks `b1 .. bN` in that
/// order, then allocate `N` times with the same request — the allocations
/// return exactly `bN .. b1`, and the allocator ends as it began.
pub proof fn lemma_free_list_lifo(v: AllocView, blocks: Seq<u64>, size: u64, align: u64)
    requires
        v.lists.len() == block_sizes().len(),
        spec_list_index(size, align) is Some,
    ensures
        ({
            let v1 = dealloc_seq(v, blocks, size, align);
            &&& alloc_results_n(v1, blocks.len(), size, align) == blocks.reverse()
            &&& alloc_state_n(v1, blocks.len(), size, align) == v
        }),
{
    let i = spec_list_index(size, align)->Some_0;
    lemma_dealloc_seq_appends(v, blocks, size, align);
    let v1 = dealloc_seq(v, blocks, size, align);
    assert(v1.lists[i] == v.lists[i] + blocks);
    lemma_pop_run(v1, v.lists[i], blocks, size, align);
    assert(v1.lists.update(i, v.lists[i]) =~~= v.lists);
    assert(alloc_state_n(v1, blocks.len(), size, align) =~~= v);
}

/// Law: a request beyond the largest class bypasses the size classes
/// entirely — no class is selected, allocation and deallocation go
/// straight to the fallback heap, and no free list is touched either way.
pub proof fn lemma_oversize_bypasses_classes(v: AllocView, ptr: u64, size: u64, align: u64)
    requires
        size > 2048,
    ensures
        spec_list_index(size, align) is None,
        alloc_result(v, size, align) == (if ff_find(v.heap, size, align) is Some {
            Some(ff_ptr(v.heap, size, align))
        } else {
            None::<u64>
        }),
        alloc_state(v, size, align).lists == v.lists,
        alloc_state(v, size, align).heap == ff_alloc_extents(v.heap, size, align),
        dealloc_state(v, ptr, size, align).lists == v.lists,
        dealloc_state(v, ptr, size, align).heap == ff_dealloc_extents(v.heap, ptr, eff_size(size)),
{
}

/// Law: a zero-byte request has a defined, in-class result: for any
/// alignment up to the largest class it selects the class of its
/// alignment and is served like any other request of that class.
pub proof fn lemma_zero_size_served(v: AllocView, align: u64)
    requires
        align <= 2048,
    ensures
        spec_list_index(0, align) is Some,
{
}

/// The allocator state after one in-class allocate-then-free round trip.
pub open spec fn round_trip_state(v: AllocView, size: u64, align: u64) -> AllocView {
    dealloc_state(
        alloc_state(v, size, align),
        alloc_result(v, size, align)->Some_0,
        size,
        align,
    )
}

/// Law (amortised donation): an in-class allocate-then-free round trip
/// draws from the fallback heap at most once, on the first round. After
/// one round trip the state is a fixed point of further round trips, and
/// their allocations are served from the free list alone: the fallback
/// heap is never touched again.
pub proof fn lemma_donation_amortised(v: AllocView, size: u64, align: u64)
    requires
        v.lists.len() == block_sizes().len(),
        spec_list_index(size, align) is Some,
        alloc_result(v, size, align) is Some,
    ensures
        ({
            let v2 = round_trip_state(v, size, align);
            &&& alloc_result(v2, size, align) is Some
            &&& alloc_state(v2, size, align).heap == v2.heap
            &&& round_trip_state(v2, size, align) == v2
        }),
{
    let i = spec_list_index(size, align)->Some_0;
    let p = alloc_result(v, size, align)->Some_0;
    let v1 = alloc_state(v, size, align);
    let v2 = round_trip_state(v, size, align);
    assert(v2.lists[i] == v1.lists[i].push(p));
    assert(v2.lists[i].len() > 0);
    assert(v2.lists[i].last() == p);
    assert(alloc_state(v2, size, align).heap == v2.heap);
    let v3 = alloc_state(v2, size, align);
    assert(v3.lists[i] == v2.lists[i].drop_last());
    assert(round_trip_state(v2, size, align).lists[i] == v3.lists[i].push(p));
    assert(v3.lists[i].push(p) =~= v2.lists[i]);
    assert(round_trip_state(v2, size, align) =~~= v2);
}

} // verus!
