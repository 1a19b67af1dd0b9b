//! General first-fit allocator over a single contiguous byte range.
//!
//! The heap's state is an address-ordered list of free extents. An
//! allocation scans the list for the first extent that still fits the
//! request after alignment, carves the block out of it, and keeps any
//! remainder that is still usable; a deallocation inserts the freed extent
//! back in address order and merges it with immediately adjacent free
//! extents. Block addresses are plain values: the heap tracks which ranges
//! are free and never touches the bytes themselves, which stay with the
//! caller.

use vstd::prelude::*;

verus! {

/// Allocation failure of the block allocator and its fallback heap.
#[derive(Debug, Clone, Copy, PartialEq, Eq, Structural)]
pub enum AllocError {
    /// Neither a size-classed free block nor a fallback extent satisfied
    /// the request.
    HeapExhausted,
}

/// One maximal free address range: `[addr, addr + size)`.
#[derive(Debug, Clone, Copy, PartialEq, Eq, Structural)]
pub struct Extent {
    pub addr: u64,
    pub size: u64,
}

/// A remainder smaller than this is absorbed into the allocation rather
/// than kept as a free extent: the minimum usable extent size.
pub const MIN_SPLIT: u64 = 16;

/// The free-extent list of a heap over `[bottom, top)` is well formed:
/// every extent is a non-empty range inside the heap, and the extents are
/// address-ordered with a gap between neighbours (adjacent free ranges are
/// always merged).
pub open spec fn wf_extents(es: Seq<Extent>, bottom: u64, top: u64) -> bool {
    &&& bottom <= top
    &&& forall|k: int|
        0 <= k < es.len() ==> bottom <= (#[trigger] es[k]).addr && es[k].size >= 1 && es[k].addr
            + es[k].size <= top
    &&& forall|k: int|
        0 <= k < es.len() - 1 ==> (#[trigger] es[k]).addr + es[k].size < es[k + 1].addr
}

/// The byte count a request is served as: a zero-byte request is treated
/// as a one-byte request, so that every served request occupies a distinct
/// non-empty range.
pub open spec fn eff_size(size: u64) -> u64 {
    if size == 0 {
        1u64
    } else {
        size
    }
}

/// Bytes to skip at the start of a free range so the result is aligned.
pub open spec fn ext_pad(addr: u64, align: u64) -> int {
    if addr % align == 0 {
        0int
    } else {
        align - addr % align
    }
}

/// Whether extent `e` can serve a request, alignment adjustment included.
pub open spec fn ext_fits(e: Extent, size: u64, align: u64) -> bool {
    ext_pad(e.addr, align) + eff_size(size) <= e.size
}

/// Index of the first extent that fits the request.
pub open spec fn ff_find(es: Seq<Extent>, size: u64, align: u64) -> Option<int>
    decreases es.len(),
{
    if es.len() == 0 {
        None
    } else if ext_fits(es[0], size, align) {
        Some(0int)
    } else {
        match ff_find(es.subrange(1, es.len() as int), size, align) {
            None => None,
            Some(i) => Some(i + 1),
        }
    }
}

/// The address a successful first-fit allocation returns.
pub open spec fn ff_ptr(es: Seq<Extent>, size: u64, align: u64) -> u64 {
    let i = ff_find(es, size, align)->Some_0;
    (es[i].addr + ext_pad(es[i].addr, align)) as u64
}

/// The free-extent list after a first-fit allocation: the chosen extent
/// loses the block; an alignment gap in front stays free, and so does a
/// remainder behind the block when it is still usable.
pub open spec fn ff_alloc_extents(es: Seq<Extent>, size: u64, align: u64) -> Seq<Extent> {
    match ff_find(es, size, align) {
        None => es,
        Some(i) => {
            let e = es[i];
            let pad = ext_pad(e.addr, align);
            let eff = eff_size(size) as int;
            let back = e.size - pad - eff;
            let removed = es.remove(i);
            let with_back = if back >= MIN_SPLIT {
                removed.insert(i, Extent { addr: (e.addr + pad + eff) as u64, size: back as u64 })
            } else {
                removed
            };
            if pad > 0 {
                with_back.insert(i, Extent { addr: e.addr, size: pad as u64 })
            } else {
                with_back
            }
        },
    }
}

/// Where a freed range starting at `addr` belongs in the address-ordered
/// list: the count of extents that start below it.
pub open spec fn ff_insert_pos(es: Seq<Extent>, addr: u64) -> int
    decreases es.len(),
{
    if es.len() == 0 {
        0int
    } else if es[0].addr < addr {
        1 + ff_insert_pos(es.subrange(1, es.len() as int), addr)
    } else {
        0int
    }
}

/// The free-extent list after freeing `[ptr, ptr + eff)`: the range is
/// inserted in address order and merged with the neighbour it touches on
/// either side.
pub open spec fn ff_dealloc_extents(es: Seq<Extent>, ptr: u64, eff: u64) -> Seq<Extent> {
    let i = ff_insert_pos(es, ptr);
    let merge_left = i > 0 && es[i - 1].addr + es[i - 1].size == ptr;
    let merge_right = i < es.len() && ptr + eff == es[i].addr;
    if merge_left && merge_right {
        es.remove(i).remove(i - 1).insert(
            i - 1,
            Extent { addr: es[i - 1].addr, size: (es[i - 1].size + eff + es[i].size) as u64 },
        )
    } else if merge_left {
        es.remove(i - 1).insert(
            i - 1,
            Extent { addr: es[i - 1].addr, size: (es[i - 1].size + eff) as u64 },
        )
    } else if merge_right {
        es.remove(i).insert(i, Extent { addr: ptr, size: (eff + es[i].size) as u64 })
    } else {
        es.insert(i, Extent { addr: ptr, size: eff })
    }
}

/// `ff_find` returns exactly the first fitting index: a fitting extent
/// preceded only by non-fitting ones, or nothing when no extent fits.
pub proof fn lemma_ff_find_is_first(es: Seq<Extent>, size: u64, align: u64)
    ensures
        match ff_find(es, size, align) {
            Some(i) => 0 <= i < es.len() && ext_fits(es[i], size, align) && forall|j: int|
                0 <= j < i ==> !ext_fits(#[trigger] es[j], size, align),
            None => forall|j: int| 0 <= j < es.len() ==> !ext_fits(#[trigger] es[j], size, align),
        },
    decreases es.len(),
{
    if es.len() > 0 && !ext_fits(es[0], size, align) {
        let rest = es.subrange(1, es.len() as int);
        lemma_ff_find_is_first(rest, size, align);
        assert forall|j: int| 1 <= j < es.len() implies es[j] == rest[j - 1] by {}
    }
}

/// `ff_insert_pos` is the boundary between extents starting below `addr`
/// and the rest.
pub proof fn lemma_ff_insert_pos_props(es: Seq<Extent>, addr: u64)
    ensures
        0 <= ff_insert_pos(es, addr) <= es.len(),
        forall|j: int| 0 <= j < ff_insert_pos(es, addr) ==> (#[trigger] es[j]).addr < addr,
        ff_insert_pos(es, addr) < es.len() ==> es[ff_insert_pos(es, addr)].addr >= addr,
    decreases es.len(),
{
    if es.len() > 0 && es[0].addr < addr {
        let rest = es.subrange(1, es.len() as int);
        lemma_ff_insert_pos_props(rest, addr);
        assert forall|j: int| 1 <= j < es.len() implies es[j] == rest[j - 1] by {}
    }
}

/// `ff_find` returns exactly `i` when extent `i` fits and everything
/// before it does not.
proof fn lemma_ff_find_at(es: Seq<Extent>, i: int, size: u64, align: u64)
    requires
        0 <= i < es.len(),
        ext_fits(es[i], size, align),
        forall|j: int| 0 <= j < i ==> !ext_fits(#[trigger] es[j], size, align),
    ensures
        ff_find(es, size, align) == Some(i),
{
    lemma_ff_find_is_first(es, size, align);
    match ff_find(es, size, align) {
        None => {
            assert(!ext_fits(es[i], size, align));
        },
        Some(i2) => {
            if i2 < i {
                assert(!ext_fits(es[i2], size, align));
            } else if i < i2 {
                assert(!ext_fits(es[i], size, align));
            }
        },
    }
}

/// A successful first-fit result is aligned as requested.
pub proof fn lemma_ff_ptr_aligned(es: Seq<Extent>, size: u64, align: u64)
    requires
        align >= 1,
        ff_find(es, size, align) is Some,
        forall|k: int| 0 <= k < es.len() ==> (#[trigger] es[k]).addr + es[k].size <= u64::MAX,
    ensures
        ff_ptr(es, size, align) % align == 0,
{
    lemma_ff_find_is_first(es, size, align);
    let i = ff_find(es, size, align)->Some_0;
    let a = es[i].addr as int;
    let al = align as int;
    let pad = ext_pad(es[i].addr, align);
    vstd::arithmetic::div_mod::lemma_fundamental_div_mod(a, al);
    let q = a / al;
    if a % al == 0 {
        assert((a + pad) % al == 0) by (nonlinear_arith)
            requires
                a == q * al,
                pad == 0,
                al >= 1,
        ;
    } else {
        assert(a + pad == (q + 1) * al) by (nonlinear_arith)
            requires
                a == q * al + a % al,
                pad == al - a % al,
        ;
        assert(((q + 1) * al) % al == 0) by (nonlinear_arith)
            requires
                al >= 1,
        ;
    }
    assert(0 <= a + pad <= u64::MAX);
}

/// Removing an extent keeps the list well formed.
proof fn lemma_wf_remove(es: Seq<Extent>, bottom: u64, top: u64, i: int)
    requires
        wf_extents(es, bottom, top),
        0 <= i < es.len(),
    ensures
        wf_extents(es.remove(i), bottom, top),
{
    es.remove_ensures(i);
    let res = es.remove(i);
    assert forall|k: int| 0 <= k < res.len() - 1 implies (#[trigger] res[k]).addr + res[k].size
        < res[k + 1].addr by {
        if k < i - 1 {
            assert(res[k] == es[k] && res[k + 1] == es[k + 1]);
        } else if k == i - 1 {
            assert(res[k] == es[k] && res[k + 1] == es[k + 2]);
            assert(es[i - 1].addr + es[i - 1].size < es[i].addr);
            assert(es[i].addr + es[i].size < es[i + 1].addr);
        } else {
            assert(res[k] == es[k + 1] && res[k + 1] == es[k + 2]);
        }
    }
}

/// Inserting an extent that lies strictly between its neighbours keeps the
/// list well formed.
proof fn lemma_wf_insert(es: Seq<Extent>, bottom: u64, top: u64, i: int, x: Extent)
    requires
        wf_extents(es, bottom, top),
        0 <= i <= es.len(),
        bottom <= x.addr,
        x.size >= 1,
        x.addr + x.size <= top,
        i > 0 ==> es[i - 1].addr + es[i - 1].size < x.addr,
        i < es.len() ==> x.addr + x.size < es[i].addr,
    ensures
        wf_extents(es.insert(i, x), bottom, top),
{
    es.insert_ensures(i, x);
    let res = es.insert(i, x);
    assert forall|k: int| 0 <= k < res.len() implies bottom <= (#[trigger] res[k]).addr
        && res[k].size >= 1 && res[k].addr + res[k].size <= top by {
        if k < i {
            assert(res[k] == es[k]);
        } else if k == i {
            assert(res[k] == x);
        } else {
            assert(res[k] == es[k - 1]);
        }
    }
    assert forall|k: int| 0 <= k < res.len() - 1 implies (#[trigger] res[k]).addr + res[k].size
        < res[k + 1].addr by {
        if k < i - 1 {
            assert(res[k] == es[k] && res[k + 1] == es[k + 1]);
        } else if k == i - 1 {
            assert(res[k] == es[k] && res[k + 1] == x);
        } else if k == i {
            assert(res[k] == x && res[k + 1] == es[k]);
        } else {
            assert(res[k] == es[k - 1] && res[k + 1] == es[k]);
        }
    }
}

/// The general first-fit heap: an address-ordered free-extent list over the
/// byte range `[bottom, top)`.
pub struct FallbackHeap {
    /// Address-ordered free extents; see `wf_extents`.
    pub extents: Vec<Extent>,
    /// First byte of the managed range.
    pub bottom: u64,
    /// First byte past the managed range.
    pub top: u64,
}

/// Well-formedness of the whole heap value.
pub open spec fn heap_wf(h: FallbackHeap) -> bool {
    wf_extents(h.extents@, h.bottom, h.top)
}

impl FallbackHeap {
    /// An empty heap over no bytes at all; usable only after `init`.
    pub fn empty() -> (r: Self)
        ensures
            r.extents@ == Seq::<Extent>::empty(),
            r.bottom == 0,
            r.top == 0,
            heap_wf(r),
    {
        FallbackHeap { extents: Vec::new(), bottom: 0, top: 0 }
    }

    /// Takes ownership of the byte range `[heap_start, heap_start +
    /// heap_size)`, making all of it one free extent.
    pub fn init(&mut self, heap_start: u64, heap_size: u64)
        requires
            heap_start + heap_size <= u64::MAX,
        ensures
            final(self).bottom == heap_start,
            final(self).top == heap_start + heap_size,
            final(self).extents@ == if heap_size > 0 {
                seq![Extent { addr: heap_start, size: heap_size }]
            } else {
                Seq::<Extent>::empty()
            },
            heap_wf(*final(self)),
    {
        let mut es: Vec<Extent> = Vec::new();
        if heap_size > 0 {
            es.push(Extent { addr: heap_start, size: heap_size });
        }
        self.extents = es;
        self.bottom = heap_start;
        self.top = heap_start + heap_size;
    }

    /// Carves the request's block out of extent `i`, the first fitting
    /// extent: the block starts at the aligned point, any alignment gap in
    /// front stays free, and a usable remainder behind it is kept free.
    #[verifier::rlimit(60)]
    fn carve(&mut self, i: usize, size: u64, align: u64) -> (p: u64)
        requires
            heap_wf(*old(self)),
            align >= 1,
            i < old(self).extents@.len(),
            ext_fits(old(self).extents@[i as int], size, align),
            forall|j: int| 0 <= j < i ==> !ext_fits(#[trigger] old(self).extents@[j], size, align),
        ensures
            final(self).bottom == old(self).bottom,
            final(self).top == old(self).top,
            heap_wf(*final(self)),
            ff_find(old(self).extents@, size, align) == Some(i as int),
            p == ff_ptr(old(self).extents@, size, align),
            final(self).extents@ == ff_alloc_extents(old(self).extents@, size, align),
    {
        let ghost es0 = self.extents@;
        let ghost ii = i as int;
        let eff: u64 = if size == 0 {
            1
        } else {
            size
        };
        let e = self.extents[i];
        let rem = e.addr % align;
        let pad: u64 = if rem == 0 {
            0
        } else {
            align - rem
        };
        assert(pad == ext_pad(e.addr, align));
        proof {
            lemma_ff_find_at(es0, ii, size, align);
            lemma_wf_remove(es0, self.bottom, self.top, ii);
            es0.remove_ensures(ii);
        }
        let p = e.addr + pad;
        let back = e.size - pad - eff;
        let ghost es1 = es0.remove(ii);
        self.extents.remove(i);
        if back >= MIN_SPLIT {
            let backext = Extent { addr: p + eff, size: back };
            proof {
                lemma_wf_insert(es1, self.bottom, self.top, ii, backext);
                es1.insert_ensures(ii, backext);
            }
            self.extents.insert(i, backext);
        }
        if pad > 0 {
            let frontext = Extent { addr: e.addr, size: pad };
            proof {
                let cur = self.extents@;
                if ii > 0 {
                    assert(cur[ii - 1] == es0[ii - 1]);
                }
                lemma_wf_insert(cur, self.bottom, self.top, ii, frontext);
                cur.insert_ensures(ii, frontext);
            }
            self.extents.insert(i, frontext);
        }
        proof {
            assert(self.extents@ == ff_alloc_extents(es0, size, align));
        }
        p
    }

    /// First-fit allocation: returns the aligned start of a block of `size`
    /// bytes carved from the first extent that fits, or reports exhaustion
    /// iff no extent fits. A zero-byte request is served as one byte.
    #[verifier::rlimit(60)]
    pub fn allocate(&mut self, size: u64, align: u64) -> (r: Result<u64, AllocError>)
        requires
            heap_wf(*old(self)),
            align >= 1,
        ensures
            final(self).bottom == old(self).bottom,
            final(self).top == old(self).top,
            heap_wf(*final(self)),
            r is Ok <==> ff_find(old(self).extents@, size, align) is Some,
            r is Ok ==> r->Ok_0 == ff_ptr(old(self).extents@, size, align),
            r is Err ==> r->Err_0 == AllocError::HeapExhausted,
            final(self).extents@ == ff_alloc_extents(old(self).extents@, size, align),
    {
        let ghost es0 = self.extents@;
        let eff: u64 = if size == 0 {
            1
        } else {
            size
        };
        let len = self.extents.len();
        let mut i: usize = 0;
        while i < len
            invariant
                0 <= i <= len,
                len == self.extents.len(),
                self.extents@ == es0,
                es0 == old(self).extents@,
                heap_wf(*self),
                self.bottom == old(self).bottom,
                self.top == old(self).top,
                eff == eff_size(size),
                align >= 1,
                forall|j: int| 0 <= j < i ==> !ext_fits(#[trigger] es0[j], size, align),
            decreases len - i,
        {
            let e = self.extents[i];
            let rem = e.addr % align;
            let pad: u64 = if rem == 0 {
                0
            } else {
                align - rem
            };
            assert(pad == ext_pad(e.addr, align));
            if pad <= e.size && eff <= e.size - pad {
                assert(ext_fits(e, size, align));
                let p = self.carve(i, size, align);
                proof {
                    assert(ff_find(es0, size, align) == Some(i as int));
                    assert(p == ff_ptr(es0, size, align));
                    assert(self.extents@ == ff_alloc_extents(es0, size, align));
                }
                return Ok(p);
            }
            assert(!ext_fits(es0[i as int], size, align));
            i = i + 1;
        }
        proof {
            lemma_ff_find_is_first(es0, size, align);
            assert(ff_find(es0, size, align) is None);
        }
        Err(AllocError::HeapExhausted)
    }

    /// Frees `[ptr, ptr + size)` (one byte for a zero-byte request),
    /// inserting it in address order and merging it with any immediately
    /// adjacent free extent. The range must lie in the heap and must not
    /// overlap anything already free: a double free or a made-up address
    /// is a caller error with no defined meaning.
    #[verifier::rlimit(60)]
    pub fn deallocate(&mut self, ptr: u64, size: u64, align: u64)
        requires
            heap_wf(*old(self)),
            old(self).bottom <= ptr,
            ptr + eff_size(size) <= old(self).top,
            forall|k: int|
                0 <= k < old(self).extents@.len() ==> ptr + eff_size(size) <= (#[trigger] old(
                    self,
                ).extents@[k]).addr || old(self).extents@[k].addr + old(self).extents@[k].size
                    <= ptr,
        ensures
            final(self).bottom == old(self).bottom,
            final(self).top == old(self).top,
            heap_wf(*final(self)),
            final(self).extents@ == ff_dealloc_extents(old(self).extents@, ptr, eff_size(size)),
    {
        let ghost es0 = self.extents@;
        let eff: u64 = if size == 0 {
            1
        } else {
            size
        };
        let len = self.extents.len();
        let mut i: usize = 0;
        while i < len && self.extents[i].addr < ptr
            invariant
                0 <= i <= len,
                len == self.extents.len(),
                self.extents@ == es0,
                forall|j: int| 0 <= j < i ==> (#[trigger] es0[j]).addr < ptr,
            decreases len - i,
        {
            i = i + 1;
        }
        let ghost ii = i as int;
        proof {
            lemma_ff_insert_pos_props(es0, ptr);
            // The loop boundary and the spec insertion position agree.
            if (ff_insert_pos(es0, ptr)) < ii {
                assert(es0[ff_insert_pos(es0, ptr)].addr < ptr);
            }
            if ii < ff_insert_pos(es0, ptr) {
                assert(es0[ii].addr < ptr);
            }
            assert(ii == ff_insert_pos(es0, ptr));
            // The freed range sits strictly between its neighbours.
            if ii > 0 {
                assert(ptr + eff <= es0[ii - 1].addr || es0[ii - 1].addr + es0[ii - 1].size
                    <= ptr);
                assert(es0[ii - 1].addr + es0[ii - 1].size <= ptr);
            }
            if ii < es0.len() {
                assert(ptr + eff <= es0[ii].addr || es0[ii].addr + es0[ii].size <= ptr);
                assert(ptr + eff <= es0[ii].addr);
            }
        }
        let merge_left = i > 0 && {
            let l = self.extents[i - 1];
            l.addr + l.size == ptr
        };
        let merge_right = i < len && ptr + eff == self.extents[i].addr;
        if merge_left && merge_right {
            let l = self.extents[i - 1];
            let rgt = self.extents[i];
            proof {
                lemma_wf_remove(es0, self.bottom, self.top, ii);
                es0.remove_ensures(ii);
            }
            let ghost es1 = es0.remove(ii);
            self.extents.remove(i);
            proof {
                lemma_wf_remove(es1, self.bottom, self.top, ii - 1);
                es1.remove_ensures(ii - 1);
            }
            let ghost es2 = es1.remove(ii - 1);
            self.extents.remove(i - 1);
            let merged = Extent { addr: l.addr, size: l.size + eff + rgt.size };
            proof {
                if ii - 1 > 0 {
                    assert(es2[ii - 2] == es0[ii - 2]);
                    assert(es0[ii - 2].addr + es0[ii - 2].size < es0[ii - 1].addr);
                }
                if ii - 1 < es2.len() {
                    assert(es2[ii - 1] == es0[ii + 1]);
                    assert(es0[ii].addr + es0[ii].size < es0[ii + 1].addr);
                }
                lemma_wf_insert(es2, self.bottom, self.top, ii - 1, merged);
            }
            self.extents.insert(i - 1, merged);
        } else if merge_left {
            let l = self.extents[i - 1];
            proof {
                lemma_wf_remove(es0, self.bottom, self.top, ii - 1);
                es0.remove_ensures(ii - 1);
            }
            let ghost es1 = es0.remove(ii - 1);
            self.extents.remove(i - 1);
            let merged = Extent { addr: l.addr, size: l.size + eff };
            proof {
                if ii - 1 > 0 {
                    assert(es1[ii - 2] == es0[ii - 2]);
                }
                if ii - 1 < es1.len() {
                    assert(es1[ii - 1] == es0[ii]);
                }
                lemma_wf_insert(es1, self.bottom, self.top, ii - 1, merged);
            }
            self.extents.insert(i - 1, merged);
        } else if merge_right {
            let rgt = self.extents[i];
            proof {
                lemma_wf_remove(es0, self.bottom, self.top, ii);
                es0.remove_ensures(ii);
            }
            let ghost es1 = es0.remove(ii);
            self.extents.remove(i);
            let merged = Extent { addr: ptr, size: eff + rgt.size };
            proof {
                if ii > 0 {
                    assert(es1[ii - 1] == es0[ii - 1]);
                }
                if ii < es1.len() {
                    assert(es1[ii] == es0[ii + 1]);
                    assert(es0[ii].addr + es0[ii].size < es0[ii + 1].addr);
                }
                lemma_wf_insert(es1, self.bottom, self.top, ii, merged);
            }
            self.extents.insert(i, merged);
        } else {
            proof {
                lemma_wf_insert(es0, self.bottom, self.top, ii, Extent { addr: ptr, size: eff });
            }
            self.extents.insert(i, Extent { addr: ptr, size: eff });
        }
        proof {
            assert(self.extents@ == ff_dealloc_extents(es0, ptr, eff));
        }
    }
}

} // verus!
