//! Four-level page-table model: address translation and page mapping.
//!
//! The page tables live in physical frames; the kernel glue reaches them
//! through the physical-memory offset window, and what it finds there is
//! modelled here as explicit data: an arena of tables, each the 512-entry
//! table stored in one physical frame, keyed by that frame's address. A
//! virtual address resolves by walking four levels from the root table,
//! taking 9 index bits per level; mapping a page walks the same path,
//! creating zeroed intermediate tables from fresh frames as needed, and
//! writes the leaf entry. Only entries that are not present are ever
//! written, so every established translation survives every later mapping.

use vstd::prelude::*;

use crate::memory::{frame_at, usable_frames, BootInfoFrameAllocator, MemoryRegion, PageMapper};

verus! {

/// Entries per page table: 512, nine index bits per level.
pub const ENTRY_COUNT: usize = 512;

/// Errors of heap mapping.
#[derive(Debug, Clone, Copy, PartialEq, Eq, Structural)]
pub enum MapError {
    /// The frame source had no further usable frame for a heap page.
    FrameAllocationExhausted,
    /// A page-table entry could not be created: the slot was already
    /// occupied, the walk hit a huge or dangling entry, or an intermediate
    /// table frame could not be allocated.
    PageMappingFailed,
}

/// One page-table entry: the flags the heap needs and the physical address
/// of the child table or mapped frame.
#[derive(Debug, Clone, Copy, PartialEq, Eq, Structural)]
pub struct PageTableEntry {
    pub present: bool,
    pub writable: bool,
    pub huge: bool,
    pub addr: u64,
}

/// One page table: the physical address of its frame and its entries.
pub struct PageTable {
    pub addr: u64,
    pub entries: Vec<PageTableEntry>,
}

/// The set of page tables the walk can reach: the model of the physical
/// frames that hold tables.
pub struct PageTableArena {
    pub tables: Vec<PageTable>,
}

/// Every table has exactly the full entry count.
pub open spec fn tables_wf(ts: Seq<PageTable>) -> bool {
    forall|i: int| 0 <= i < ts.len() ==> (#[trigger] ts[i]).entries@.len() == ENTRY_COUNT
}

/// Every table of the arena has exactly the full entry count.
pub open spec fn arena_wf(a: PageTableArena) -> bool {
    tables_wf(a.tables@)
}

/// Index of the first table stored at physical address `addr`.
pub open spec fn find_idx(ts: Seq<PageTable>, addr: u64) -> Option<int>
    decreases ts.len(),
{
    if ts.len() == 0 {
        None
    } else if ts[0].addr == addr {
        Some(0int)
    } else {
        match find_idx(ts.subrange(1, ts.len() as int), addr) {
            None => None,
            Some(i) => Some(i + 1),
        }
    }
}

/// Whether a table is stored at physical address `addr`.
pub open spec fn has_table(ts: Seq<PageTable>, addr: u64) -> bool {
    find_idx(ts, addr) is Some
}

/// The entries of the table stored at physical address `addr`.
pub open spec fn entries_of(ts: Seq<PageTable>, addr: u64) -> Seq<PageTableEntry> {
    ts[find_idx(ts, addr)->Some_0].entries@
}

/// `find_idx` returns exactly the first index holding `addr`.
pub proof fn lemma_find_idx_props(ts: Seq<PageTable>, addr: u64)
    ensures
        match find_idx(ts, addr) {
            Some(i) => 0 <= i < ts.len() && ts[i].addr == addr && forall|j: int|
                0 <= j < i ==> (#[trigger] ts[j]).addr != addr,
            None => forall|j: int| 0 <= j < ts.len() ==> (#[trigger] ts[j]).addr != addr,
        },
    decreases ts.len(),
{
    if ts.len() > 0 && ts[0].addr != addr {
        let rest = ts.subrange(1, ts.len() as int);
        lemma_find_idx_props(rest, addr);
        assert forall|j: int| 1 <= j < ts.len() implies ts[j] == rest[j - 1] by {}
    }
}

/// Converse: the first index holding `addr` is what `find_idx` returns.
pub proof fn lemma_find_idx_at(ts: Seq<PageTable>, addr: u64, i: int)
    requires
        0 <= i < ts.len(),
        ts[i].addr == addr,
        forall|j: int| 0 <= j < i ==> (#[trigger] ts[j]).addr != addr,
    ensures
        find_idx(ts, addr) == Some(i),
{
    lemma_find_idx_props(ts, addr);
    match find_idx(ts, addr) {
        None => {
            assert(ts[i].addr != addr);
        },
        Some(i2) => {
            if i2 < i {
                assert(ts[i2].addr != addr);
            } else if i < i2 {
                assert(ts[i].addr != addr);
            }
        },
    }
}

/// Appending a table does not move any existing table: lookups of stored
/// addresses are unchanged, and the new address is found iff it was not
/// stored before.
pub proof fn lemma_find_idx_push(ts: Seq<PageTable>, t: PageTable, addr: u64)
    ensures
        find_idx(ts.push(t), addr) == (if find_idx(ts, addr) is Some {
            find_idx(ts, addr)
        } else if t.addr == addr {
            Some(ts.len() as int)
        } else {
            None::<int>
        }),
    decreases ts.len(),
{
    let pushed = ts.push(t);
    if ts.len() == 0 {
        assert(pushed.len() == 1 && pushed[0] == t);
        assert(find_idx(ts, addr) is None);
        if t.addr == addr {
            assert(find_idx(pushed, addr) == Some(0int));
        } else {
            assert(pushed.subrange(1, pushed.len() as int) =~= Seq::<PageTable>::empty());
            assert(find_idx(pushed.subrange(1, pushed.len() as int), addr) is None);
            assert(find_idx(pushed, addr) is None);
        }
    } else if ts[0].addr == addr {
        assert(pushed[0] == ts[0]);
        assert(find_idx(pushed, addr) == Some(0int));
        assert(find_idx(ts, addr) == Some(0int));
    } else {
        assert(pushed[0] == ts[0]);
        let rest = ts.subrange(1, ts.len() as int);
        assert(pushed.subrange(1, pushed.len() as int) =~= rest.push(t));
        lemma_find_idx_push(rest, t, addr);
        assert(rest.len() == ts.len() - 1);
        assert(find_idx(pushed, addr) == (match find_idx(rest.push(t), addr) {
            None => None::<int>,
            Some(i) => Some(i + 1),
        }));
        assert(find_idx(ts, addr) == (match find_idx(rest, addr) {
            None => None::<int>,
            Some(i) => Some(i + 1),
        }));
    }
}

/// Replacing the first table stored at some address with a table at the
/// same address moves no lookup at all.
pub proof fn lemma_find_idx_update(ts: Seq<PageTable>, k: int, t2: PageTable, addr: u64)
    requires
        0 <= k < ts.len(),
        ts[k].addr == t2.addr,
        forall|j: int| 0 <= j < k ==> (#[trigger] ts[j]).addr != ts[k].addr,
    ensures
        find_idx(ts.update(k, t2), addr) == find_idx(ts, addr),
    decreases ts.len(),
{
    let upd = ts.update(k, t2);
    if k == 0 {
        assert(upd[0].addr == ts[0].addr);
        if ts[0].addr != addr {
            assert(upd.subrange(1, upd.len() as int) =~= ts.subrange(1, ts.len() as int));
        }
    } else {
        assert(upd[0] == ts[0]);
        if ts[0].addr != addr {
            let rest = ts.subrange(1, ts.len() as int);
            assert(upd.subrange(1, upd.len() as int) =~= rest.update(k - 1, t2));
            assert forall|j: int| 0 <= j < k - 1 implies (#[trigger] rest[j]).addr != rest[k
                - 1].addr by {
                assert(rest[j] == ts[j + 1]);
            }
            lemma_find_idx_update(rest, k - 1, t2, addr);
        }
    }
}

/// Level-`level` table index of virtual address `v`: nine bits starting at
/// bit 12 for level 1, shifting up nine bits per level.
pub open spec fn table_index(v: u64, level: int) -> int {
    if level == 4 {
        ((v as int) / 0x80_0000_0000) % 512
    } else if level == 3 {
        ((v as int) / 0x4000_0000) % 512
    } else if level == 2 {
        ((v as int) / 0x20_0000) % 512
    } else {
        ((v as int) / 0x1000) % 512
    }
}

/// The page a virtual address belongs to: its address rounded down to the
/// page size.
pub open spec fn page_base(v: u64) -> int {
    (v as int) - (v as int) % 4096
}

/// The leaf entry a virtual address resolves to: the four-level walk from
/// the root table, failing on any slot that is not present, any huge
/// mapping (the heap maps nothing but 4096-byte pages), and any child
/// address no table is stored at.
pub open spec fn resolve(ts: Seq<PageTable>, root: u64, v: u64) -> Option<PageTableEntry> {
    if !has_table(ts, root) {
        None
    } else {
        let e4 = entries_of(ts, root)[table_index(v, 4)];
        if !e4.present || e4.huge || !has_table(ts, e4.addr) {
            None
        } else {
            let e3 = entries_of(ts, e4.addr)[table_index(v, 3)];
            if !e3.present || e3.huge || !has_table(ts, e3.addr) {
                None
            } else {
                let e2 = entries_of(ts, e3.addr)[table_index(v, 2)];
                if !e2.present || e2.huge || !has_table(ts, e2.addr) {
                    None
                } else {
                    let e1 = entries_of(ts, e2.addr)[table_index(v, 1)];
                    if e1.present && !e1.huge {
                        Some(e1)
                    } else {
                        None
                    }
                }
            }
        }
    }
}

/// The physical address a virtual address translates to: the resolved
/// frame plus the offset within the page.
pub open spec fn translate_spec(ts: Seq<PageTable>, root: u64, v: u64) -> Option<u64> {
    match resolve(ts, root, v) {
        None => None,
        Some(e) => if e.addr + (v as int) % 4096 <= u64::MAX {
            Some((e.addr + (v as int) % 4096) as u64)
        } else {
            None
        },
    }
}

/// `ts2` extends `ts1`: every stored table is still stored with the same
/// size, and every present entry is unchanged. Mapping only ever fills
/// slots that are not present and adds fresh tables, so each step of it
/// extends the arena.
pub open spec fn table_extends(ts1: Seq<PageTable>, ts2: Seq<PageTable>) -> bool {
    forall|a: u64|
        #[trigger] has_table(ts1, a) ==> has_table(ts2, a) && entries_of(ts2, a).len()
            == entries_of(ts1, a).len() && (forall|j: int|
            0 <= j < entries_of(ts1, a).len() && (#[trigger] entries_of(ts1, a)[j]).present
                ==> entries_of(ts2, a)[j] == entries_of(ts1, a)[j])
}

/// Extension is transitive.
pub proof fn lemma_extends_trans(ts1: Seq<PageTable>, ts2: Seq<PageTable>, ts3: Seq<PageTable>)
    requires
        table_extends(ts1, ts2),
        table_extends(ts2, ts3),
    ensures
        table_extends(ts1, ts3),
{
    assert forall|a: u64| #[trigger] has_table(ts1, a) implies has_table(ts3, a) && entries_of(
        ts3,
        a,
    ).len() == entries_of(ts1, a).len() && (forall|j: int|
        0 <= j < entries_of(ts1, a).len() && (#[trigger] entries_of(ts1, a)[j]).present
            ==> entries_of(ts3, a)[j] == entries_of(ts1, a)[j]) by {
        assert(has_table(ts2, a));
        assert forall|j: int|
            0 <= j < entries_of(ts1, a).len() && (#[trigger] entries_of(ts1, a)[j]).present implies
            entries_of(ts3, a)[j] == entries_of(ts1, a)[j] by {
            assert(entries_of(ts2, a)[j] == entries_of(ts1, a)[j]);
            assert(entries_of(ts2, a)[j].present);
        }
    }
}

/// The entries of any stored table have the full entry count.
proof fn proof_entries_len(ts: Seq<PageTable>, addr: u64)
    requires
        tables_wf(ts),
    ensures
        has_table(ts, addr) ==> entries_of(ts, addr).len() == ENTRY_COUNT,
{
    lemma_find_idx_props(ts, addr);
}

/// Law: whatever resolved before an extension resolves to the same entry
/// after it — an established translation survives every later mapping,
/// because mapping never touches a present entry.
pub proof fn lemma_resolve_extends(ts1: Seq<PageTable>, ts2: Seq<PageTable>, root: u64, v: u64)
    requires
        tables_wf(ts1),
        table_extends(ts1, ts2),
        resolve(ts1, root, v) is Some,
    ensures
        resolve(ts2, root, v) == resolve(ts1, root, v),
{
    assert(has_table(ts1, root));
    let e4a = entries_of(ts1, root)[table_index(v, 4)];
    proof_entries_len(ts1, root);
    proof_entries_len(ts1, e4a.addr);
    proof_entries_len(ts1, entries_of(ts1, e4a.addr)[table_index(v, 3)].addr);
    proof_entries_len(
        ts1,
        entries_of(
            ts1,
            entries_of(ts1, e4a.addr)[table_index(v, 3)].addr,
        )[table_index(v, 2)].addr,
    );
    let e4 = entries_of(ts1, root)[table_index(v, 4)];
    assert(e4.present);
    assert(entries_of(ts2, root)[table_index(v, 4)] == e4);
    assert(has_table(ts1, e4.addr));
    let e3 = entries_of(ts1, e4.addr)[table_index(v, 3)];
    assert(e3.present);
    assert(entries_of(ts2, e4.addr)[table_index(v, 3)] == e3);
    assert(has_table(ts1, e3.addr));
    let e2 = entries_of(ts1, e3.addr)[table_index(v, 2)];
    assert(e2.present);
    assert(entries_of(ts2, e3.addr)[table_index(v, 2)] == e2);
    assert(has_table(ts1, e2.addr));
    let e1 = entries_of(ts1, e2.addr)[table_index(v, 1)];
    assert(e1.present);
    assert(entries_of(ts2, e2.addr)[table_index(v, 1)] == e1);
}

/// Law (translation idempotence): translation is a pure function of the
/// page tables — two translations of the same address against the same
/// tables yield the same physical address, always.
pub proof fn lemma_translate_idempotent(
    ts: Seq<PageTable>,
    root: u64,
    v: u64,
    r1: Option<u64>,
    r2: Option<u64>,
)
    requires
        r1 == translate_spec(ts, root, v),
        r2 == translate_spec(ts, root, v),
    ensures
        r1 == r2,
{
}

impl PageTableArena {
    /// Finds the table stored at physical address `addr`.
    fn lookup(&self, addr: u64) -> (r: Option<usize>)
        ensures
            r is Some <==> has_table(self.tables@, addr),
            r is Some ==> find_idx(self.tables@, addr) == Some(r->0 as int) && r->0
                < self.tables@.len() && self.tables@[r->0 as int].addr == addr,
    {
        let ts = Ghost(self.tables@);
        let len = self.tables.len();
        let mut i: usize = 0;
        while i < len
            invariant
                0 <= i <= len,
                len == self.tables.len(),
                ts@ == self.tables@,
                forall|j: int| 0 <= j < i ==> (#[trigger] ts@[j]).addr != addr,
            decreases len - i,
        {
            if self.tables[i].addr == addr {
                proof {
                    lemma_find_idx_at(ts@, addr, i as int);
                }
                return Some(i);
            }
            i = i + 1;
        }
        proof {
            lemma_find_idx_props(ts@, addr);
            if find_idx(ts@, addr) is Some {
                assert(ts@[find_idx(ts@, addr)->Some_0].addr == addr);
            }
        }
        None
    }
}

/// Resolves a virtual address to its physical address by walking the four
/// levels from the active top-level table, through the arena that models
/// what the physical-memory offset window shows. Returns nothing for an
/// unmapped address.
pub fn translate_addr(arena: &PageTableArena, mapper: &PageMapper, virt: u64) -> (r: Option<u64>)
    requires
        arena_wf(*arena),
    ensures
        r == translate_spec(arena.tables@, mapper.root, virt),
{
    let ts = Ghost(arena.tables@);
    let t4 = match arena.lookup(mapper.root) {
        None => {
            return None;
        },
        Some(t) => t,
    };
    let i4 = ((virt / 0x80_0000_0000) % 512) as usize;
    assert(i4 as int == table_index(virt, 4));
    let e4 = arena.tables[t4].entries[i4];
    assert(e4 == entries_of(ts@, mapper.root)[table_index(virt, 4)]);
    if !e4.present || e4.huge {
        return None;
    }
    let t3 = match arena.lookup(e4.addr) {
        None => {
            return None;
        },
        Some(t) => t,
    };
    let i3 = ((virt / 0x4000_0000) % 512) as usize;
    assert(i3 as int == table_index(virt, 3));
    let e3 = arena.tables[t3].entries[i3];
    assert(e3 == entries_of(ts@, e4.addr)[table_index(virt, 3)]);
    if !e3.present || e3.huge {
        return None;
    }
    let t2 = match arena.lookup(e3.addr) {
        None => {
            return None;
        },
        Some(t) => t,
    };
    let i2 = ((virt / 0x20_0000) % 512) as usize;
    assert(i2 as int == table_index(virt, 2));
    let e2 = arena.tables[t2].entries[i2];
    assert(e2 == entries_of(ts@, e3.addr)[table_index(virt, 2)]);
    if !e2.present || e2.huge {
        return None;
    }
    let t1 = match arena.lookup(e2.addr) {
        None => {
            return None;
        },
        Some(t) => t,
    };
    let i1 = ((virt / 0x1000) % 512) as usize;
    assert(i1 as int == table_index(virt, 1));
    let e1 = arena.tables[t1].entries[i1];
    assert(e1 == entries_of(ts@, e2.addr)[table_index(virt, 1)]);
    if !e1.present || e1.huge {
        return None;
    }
    let off = virt % 4096;
    if e1.addr <= u64::MAX - off {
        Some(e1.addr + off)
    } else {
        None
    }
}

/// The frames still to come from the source are fresh for the arena: none
/// of them holds a table yet, and no frame is listed twice. Mapping keeps
/// this, so every created table gets a frame no other table uses.
pub open spec fn frames_fresh(ts: Seq<PageTable>, regions: Seq<MemoryRegion>, next: int) -> bool {
    &&& (forall|k: int|
        next <= k < usable_frames(regions).len() ==> !has_table(
            ts,
            #[trigger] usable_frames(regions)[k],
        ))
    &&& (forall|k1: int, k2: int|
        next <= k1 < k2 < usable_frames(regions).len() ==> #[trigger] usable_frames(regions)[k1]
            != #[trigger] usable_frames(regions)[k2])
}

/// Usable frames the source has not consumed yet.
pub open spec fn frames_remaining(regions: Seq<MemoryRegion>, next: int) -> int {
    usable_frames(regions).len() - next
}

/// The walk for `v` is blocked: somewhere on its path there is a present
/// entry that is huge or points at no stored table, or the leaf slot is
/// already occupied. Mapping `v` must fail, now and after any further
/// mapping, since present entries are never changed.
pub open spec fn path_blocked(ts: Seq<PageTable>, root: u64, v: u64) -> bool {
    if !has_table(ts, root) {
        true
    } else {
        let e4 = entries_of(ts, root)[table_index(v, 4)];
        e4.present && (e4.huge || !has_table(ts, e4.addr) || {
            let e3 = entries_of(ts, e4.addr)[table_index(v, 3)];
            e3.present && (e3.huge || !has_table(ts, e3.addr) || {
                let e2 = entries_of(ts, e3.addr)[table_index(v, 2)];
                e2.present && (e2.huge || !has_table(ts, e2.addr) || entries_of(
                    ts,
                    e2.addr,
                )[table_index(v, 1)].present)
            })
        })
    }
}

impl PageTableArena {
    /// Stores a zero-initialised table in the (table-free) frame at `addr`:
    /// the model of claiming a fresh frame and clearing it for use as the
    /// next level of the walk.
    fn push_table(&mut self, addr: u64)
        requires
            arena_wf(*old(self)),
            !has_table(old(self).tables@, addr),
        ensures
            arena_wf(*final(self)),
            final(self).tables@.len() == old(self).tables@.len() + 1,
            forall|i: int|
                0 <= i < old(self).tables@.len() ==> #[trigger] final(self).tables@[i] == old(
                    self,
                ).tables@[i],
            table_extends(old(self).tables@, final(self).tables@),
            forall|a: u64|
                #[trigger] has_table(final(self).tables@, a) <==> has_table(old(self).tables@, a)
                    || a == addr,
            has_table(final(self).tables@, addr),
            entries_of(final(self).tables@, addr).len() == ENTRY_COUNT,
            forall|j: int|
                0 <= j < ENTRY_COUNT ==> !(#[trigger] entries_of(final(self).tables@, addr)[j]).present,
            forall|a: u64|
                #[trigger] has_table(old(self).tables@, a) ==> find_idx(final(self).tables@, a)
                    == find_idx(old(self).tables@, a) && entries_of(final(self).tables@, a)
                    == entries_of(old(self).tables@, a),
    {
        let ghost ts0 = self.tables@;
        let mut entries: Vec<PageTableEntry> = Vec::new();
        let mut j: usize = 0;
        while j < 512
            invariant
                0 <= j <= 512,
                entries@.len() == j,
                forall|k: int| 0 <= k < j ==> !(#[trigger] entries@[k]).present,
            decreases 512 - j,
        {
            entries.push(PageTableEntry { present: false, writable: false, huge: false, addr: 0 });
            j = j + 1;
        }
        let t = PageTable { addr, entries };
        self.tables.push(t);
        proof {
            let ts1 = self.tables@;
            assert forall|a: u64| #[trigger] has_table(ts0, a) implies find_idx(ts1, a) == find_idx(
                ts0,
                a,
            ) && entries_of(ts1, a) == entries_of(ts0, a) by {
                lemma_find_idx_push(ts0, ts1[ts0.len() as int], a);
                lemma_find_idx_props(ts0, a);
            }
            assert forall|a: u64| #[trigger] has_table(ts1, a) implies has_table(ts0, a) || a
                == addr by {
                lemma_find_idx_push(ts0, ts1[ts0.len() as int], a);
            }
            assert forall|a: u64| has_table(ts0, a) || a == addr implies #[trigger] has_table(
                ts1,
                a,
            ) by {
                lemma_find_idx_push(ts0, ts1[ts0.len() as int], a);
            }
            lemma_find_idx_push(ts0, ts1[ts0.len() as int], addr);
            assert(find_idx(ts1, addr) == Some(ts0.len() as int));
            assert(entries_of(ts1, addr).len() == ENTRY_COUNT);
            assert forall|i: int| 0 <= i < ts1.len() implies (#[trigger] ts1[i]).entries@.len()
                == ENTRY_COUNT by {
                if i < ts0.len() {
                    assert(ts1[i] == ts0[i]);
                }
            }
        }
    }

    /// Writes entry `j` of the table at vector position `ti`, which must be
    /// where lookup finds that table's address.
    fn set_entry(&mut self, ti: usize, j: usize, e: PageTableEntry)
        requires
            arena_wf(*old(self)),
            ti < old(self).tables@.len(),
            j < ENTRY_COUNT,
            find_idx(old(self).tables@, old(self).tables@[ti as int].addr) == Some(ti as int),
        ensures
            arena_wf(*final(self)),
            forall|a: u64|
                #[trigger] find_idx(final(self).tables@, a) == find_idx(old(self).tables@, a),
            entries_of(final(self).tables@, old(self).tables@[ti as int].addr) == entries_of(
                old(self).tables@,
                old(self).tables@[ti as int].addr,
            ).update(j as int, e),
            forall|a: u64|
                #[trigger] has_table(old(self).tables@, a) && a != old(self).tables@[ti as int].addr
                    ==> entries_of(final(self).tables@, a) == entries_of(old(self).tables@, a),
    {
        let ghost ts0 = self.tables@;
        let ghost taddr = self.tables@[ti as int].addr;
        let table = &mut self.tables[ti];
        let slot = &mut table.entries[j];
        *slot = e;
        proof {
            let ts1 = self.tables@;
            assert(ts1 =~= ts0.update(
                ti as int,
                PageTable { addr: taddr, entries: ts1[ti as int].entries },
            ));
            assert(ts1[ti as int].entries@ =~= ts0[ti as int].entries@.update(j as int, e));
            lemma_find_idx_props(ts0, taddr);
            assert forall|a: u64|
                #[trigger] find_idx(ts1, a) == find_idx(ts0, a) by {
                lemma_find_idx_update(ts0, ti as int, ts1[ti as int], a);
                assert(ts0.update(ti as int, ts1[ti as int]) =~= ts1);
            }
            assert forall|i: int| 0 <= i < ts1.len() implies (#[trigger] ts1[i]).entries@.len()
                == ENTRY_COUNT by {
                if i != ti as int {
                    assert(ts1[i] == ts0[i]);
                }
            }
            assert forall|a: u64|
                #[trigger] has_table(ts0, a) && a != taddr implies entries_of(ts1, a) == entries_of(
                ts0,
                a,
            ) by {
                lemma_find_idx_props(ts0, a);
                assert(find_idx(ts1, a) == find_idx(ts0, a));
                assert(ts1[find_idx(ts0, a)->Some_0] == ts0[find_idx(ts0, a)->Some_0]);
            }
        }
    }

    /// Walks one level down from the table at `taddr` through slot `idx`:
    /// returns the child table's frame, creating a zeroed child from a
    /// fresh frame when the slot is empty. Fails on a huge or dangling
    /// entry, and when no frame is left for a new child.
    fn ensure_child(&mut self, taddr: u64, idx: usize, fa: &mut BootInfoFrameAllocator) -> (r:
        Result<u64, MapError>)
        requires
            arena_wf(*old(self)),
            has_table(old(self).tables@, taddr),
            idx < ENTRY_COUNT,
            frames_fresh(old(self).tables@, old(fa).memory_map@, old(fa).next as int),
            old(fa).next < usize::MAX,
        ensures
            arena_wf(*final(self)),
            final(fa).memory_map@ == old(fa).memory_map@,
            old(fa).next <= final(fa).next <= old(fa).next + 1,
            frames_fresh(final(self).tables@, final(fa).memory_map@, final(fa).next as int),
            table_extends(old(self).tables@, final(self).tables@),
            ({
                let e0 = entries_of(old(self).tables@, taddr)[idx as int];
                match r {
                    Ok(c) => {
                        &&& has_table(final(self).tables@, c)
                        &&& entries_of(final(self).tables@, taddr)[idx as int].present
                        &&& !entries_of(final(self).tables@, taddr)[idx as int].huge
                        &&& entries_of(final(self).tables@, taddr)[idx as int].addr == c
                        &&& (e0.present ==> c == e0.addr && final(self).tables@ == old(
                            self,
                        ).tables@ && final(fa).next == old(fa).next)
                        &&& (!e0.present ==> final(fa).next == old(fa).next + 1 && (forall|k: int|
                            0 <= k < ENTRY_COUNT && k != idx
                                ==> #[trigger] entries_of(final(self).tables@, taddr)[k]
                                == entries_of(old(self).tables@, taddr)[k]) && (forall|k: int|
                            0 <= k < ENTRY_COUNT ==> !(#[trigger] entries_of(
                                final(self).tables@,
                                c,
                            )[k]).present))
                    },
                    Err(e) => {
                        &&& e == MapError::PageMappingFailed
                        &&& final(self).tables@ == old(self).tables@
                        &&& ((e0.present && (e0.huge || !has_table(old(self).tables@, e0.addr)))
                            || (!e0.present && frame_at(
                            old(fa).memory_map@,
                            old(fa).next as int,
                        ) is None))
                    },
                }
            }),
    {
        let ghost ts0 = self.tables@;
        let ti = match self.lookup(taddr) {
            Some(t) => t,
            None => {
                proof {
                    assert(false);
                }
                return Err(MapError::PageMappingFailed);
            },
        };
        let e0 = self.tables[ti].entries[idx];
        assert(e0 == entries_of(ts0, taddr)[idx as int]);
        if e0.present {
            if e0.huge {
                return Err(MapError::PageMappingFailed);
            }
            match self.lookup(e0.addr) {
                Some(_) => Ok(e0.addr),
                None => Err(MapError::PageMappingFailed),
            }
        } else {
            match fa.allocate_frame() {
                None => Err(MapError::PageMappingFailed),
                Some(f) => {
                    let ghost regions = fa.memory_map@;
                    let ghost n0 = old(fa).next as int;
                    proof {
                        assert(f == usable_frames(regions)[n0]);
                        assert(!has_table(ts0, f));
                    }
                    self.push_table(f);
                    let ghost ts1 = self.tables@;
                    proof {
                        assert(find_idx(ts1, taddr) == Some(ti as int));
                        assert(ts1[ti as int] == ts0[ti as int]);
                    }
                    self.set_entry(
                        ti,
                        idx,
                        PageTableEntry { present: true, writable: true, huge: false, addr: f },
                    );
                    let ghost ts2 = self.tables@;
                    proof {
                        // The parent slot was empty, so this write extends
                        // the arena; the fresh child is untouched by it.
                        assert(f != taddr);
                        assert(entries_of(ts2, taddr) == entries_of(ts1, taddr).update(
                            idx as int,
                            PageTableEntry { present: true, writable: true, huge: false, addr: f },
                        ));
                        assert(entries_of(ts1, taddr) == entries_of(ts0, taddr));
                        assert(table_extends(ts1, ts2));
                        lemma_extends_trans(ts0, ts1, ts2);
                        assert(has_table(ts2, f));
                        assert(entries_of(ts2, f) == entries_of(ts1, f));
                        // Frames after the consumed one stay fresh: they
                        // differ from the consumed frame and held no table.
                        assert forall|k: int|
                            n0 + 1 <= k < usable_frames(regions).len() implies !has_table(
                            ts2,
                            #[trigger] usable_frames(regions)[k],
                        ) by {
                            let fk = usable_frames(regions)[k];
                            assert(fk != f);
                            assert(!has_table(ts0, fk));
                            assert(has_table(ts2, fk) <==> has_table(ts1, fk));
                            assert(has_table(ts1, fk) <==> has_table(ts0, fk) || fk == f);
                        }
                    }
                    Ok(f)
                },
            }
        }
    }
}

/// Creates the page-table entry mapping the 4096-byte page of `page` to
/// the frame at `frame`, present and writable, creating and zeroing
/// intermediate table levels from fresh frames as needed. Fails — and maps
/// nothing further — when the walk hits a huge or dangling entry, when the
/// leaf slot is already occupied, or when a needed intermediate frame
/// cannot be allocated; the failing state shows it (the path is blocked,
/// or the source is dry). The kernel glue invalidates the translation
/// cache for the page after a successful call.
#[verifier::rlimit(60)]
pub fn map_to(
    arena: &mut PageTableArena,
    mapper: &PageMapper,
    page: u64,
    frame: u64,
    fa: &mut BootInfoFrameAllocator,
) -> (r: Result<(), MapError>)
    requires
        arena_wf(*old(arena)),
        has_table(old(arena).tables@, mapper.root),
        frames_fresh(old(arena).tables@, old(fa).memory_map@, old(fa).next as int),
        old(fa).next + 3 < usize::MAX,
    ensures
        arena_wf(*final(arena)),
        final(fa).memory_map@ == old(fa).memory_map@,
        old(fa).next <= final(fa).next <= old(fa).next + 3,
        frames_fresh(final(arena).tables@, final(fa).memory_map@, final(fa).next as int),
        table_extends(old(arena).tables@, final(arena).tables@),
        has_table(final(arena).tables@, mapper.root),
        r is Ok ==> resolve(final(arena).tables@, mapper.root, page) == Some(
            PageTableEntry { present: true, writable: true, huge: false, addr: frame },
        ),
        r is Err ==> r->Err_0 == MapError::PageMappingFailed && (path_blocked(
            final(arena).tables@,
            mapper.root,
            page,
        ) || frames_remaining(final(fa).memory_map@, final(fa).next as int) <= 0),
{
    let root = mapper.root;
    let ghost ts0 = arena.tables@;
    let i4 = ((page / 0x80_0000_0000) % 512) as usize;
    let i3 = ((page / 0x4000_0000) % 512) as usize;
    let i2 = ((page / 0x20_0000) % 512) as usize;
    let i1 = ((page / 0x1000) % 512) as usize;
    assert(i4 as int == table_index(page, 4));
    assert(i3 as int == table_index(page, 3));
    assert(i2 as int == table_index(page, 2));
    assert(i1 as int == table_index(page, 1));
    proof {
        lemma_find_idx_props(ts0, root);
    }
    let c3 = match arena.ensure_child(root, i4, fa) {
        Ok(c) => c,
        Err(e) => {
            proof {
                if frame_at(fa.memory_map@, old(fa).next as int) is None {
                    assert(frames_remaining(fa.memory_map@, fa.next as int) <= 0);
                } else {
                    assert(path_blocked(arena.tables@, root, page));
                }
            }
            return Err(e);
        },
    };
    let ghost ts1 = arena.tables@;
    let ghost e4 = entries_of(ts1, root)[i4 as int];
    proof {
        assert(e4.present && !e4.huge && e4.addr == c3);
        lemma_find_idx_props(ts1, c3);
    }
    let c2 = match arena.ensure_child(c3, i3, fa) {
        Ok(c) => c,
        Err(e) => {
            proof {
                if !(frames_remaining(fa.memory_map@, fa.next as int) <= 0) {
                    let e3 = entries_of(ts1, c3)[i3 as int];
                    assert(e3.present && (e3.huge || !has_table(ts1, e3.addr)));
                    assert(path_blocked(ts1, root, page));
                }
            }
            return Err(e);
        },
    };
    let ghost ts2 = arena.tables@;
    let ghost e3 = entries_of(ts2, c3)[i3 as int];
    proof {
        assert(e3.present && !e3.huge && e3.addr == c2);
        // The level-4 link survived: it was present in ts1.
        assert(entries_of(ts2, root)[i4 as int] == e4);
        lemma_find_idx_props(ts2, c2);
    }
    let c1 = match arena.ensure_child(c2, i2, fa) {
        Ok(c) => c,
        Err(e) => {
            proof {
                if !(frames_remaining(fa.memory_map@, fa.next as int) <= 0) {
                    let e2 = entries_of(ts2, c2)[i2 as int];
                    assert(e2.present && (e2.huge || !has_table(ts2, e2.addr)));
                    assert(path_blocked(ts2, root, page));
                }
            }
            return Err(e);
        },
    };
    let ghost ts3 = arena.tables@;
    let ghost e2 = entries_of(ts3, c2)[i2 as int];
    proof {
        assert(e2.present && !e2.huge && e2.addr == c1);
        assert(entries_of(ts3, root)[i4 as int] == e4);
        assert(entries_of(ts3, c3)[i3 as int] == e3);
        lemma_extends_trans(ts0, ts1, ts2);
        lemma_extends_trans(ts0, ts2, ts3);
    }
    let t1 = match arena.lookup(c1) {
        Some(t) => t,
        None => {
            proof {
                assert(false);
            }
            return Err(MapError::PageMappingFailed);
        },
    };
    let e1 = arena.tables[t1].entries[i1];
    assert(e1 == entries_of(ts3, c1)[i1 as int]);
    if e1.present {
        proof {
            assert(path_blocked(ts3, root, page));
        }
        return Err(MapError::PageMappingFailed);
    }
    arena.set_entry(
        t1,
        i1,
        PageTableEntry { present: true, writable: true, huge: false, addr: frame },
    );
    proof {
        let ts4 = arena.tables@;
        assert(table_extends(ts3, ts4));
        lemma_extends_trans(ts0, ts3, ts4);
        // The whole path survived the leaf write, and the leaf is ours.
        assert(has_table(ts4, root));
        assert(entries_of(ts4, root)[i4 as int] == e4);
        assert(has_table(ts4, c3));
        assert(entries_of(ts4, c3)[i3 as int] == e3);
        assert(has_table(ts4, c2));
        assert(entries_of(ts4, c2)[i2 as int] == e2);
        assert(has_table(ts4, c1));
        assert(entries_of(ts4, c1)[i1 as int] == PageTableEntry {
            present: true,
            writable: true,
            huge: false,
            addr: frame,
        });
        assert(resolve(ts4, root, page) == Some(
            PageTableEntry { present: true, writable: true, huge: false, addr: frame },
        ));
        // Fresh frames stay fresh across the leaf write.
        assert forall|k: int|
            fa.next <= k < usable_frames(fa.memory_map@).len() implies !has_table(
            ts4,
            #[trigger] usable_frames(fa.memory_map@)[k],
        ) by {
            assert(!has_table(ts3, usable_frames(fa.memory_map@)[k]));
        }
    }
    Ok(())
}

/// The boot situation makes the remaining frames fresh: with a well-formed
/// memory map, no frame is listed twice, and a table stored only at
/// addresses outside every usable region (as the firmware and boot stage
/// place them) can never collide with a usable frame.
pub proof fn lemma_frames_fresh_at_boot(
    ts: Seq<PageTable>,
    regions: Seq<MemoryRegion>,
    next: int,
)
    requires
        0 <= next,
        crate::memory::wf_regions(regions),
        forall|i: int, k: int|
            0 <= i < ts.len() && 0 <= k < regions.len() && (#[trigger] regions[k]).kind
                == crate::memory::RegionKind::Usable ==> !(regions[k].start
                <= (#[trigger] ts[i]).addr && ts[i].addr < regions[k].end),
    ensures
        frames_fresh(ts, regions, next),
{
    assert forall|k: int|
        next <= k < usable_frames(regions).len() implies !has_table(
        ts,
        #[trigger] usable_frames(regions)[k],
    ) by {
        let f = usable_frames(regions)[k];
        crate::memory::lemma_usable_frame_in_region(regions, k);
        lemma_find_idx_props(ts, f);
        if has_table(ts, f) {
            let i = find_idx(ts, f)->Some_0;
            assert(ts[i].addr == f);
        }
    }
    assert forall|k1: int, k2: int|
        next <= k1 < k2 < usable_frames(regions).len() implies #[trigger] usable_frames(
        regions,
    )[k1] != #[trigger] usable_frames(regions)[k2] by {
        crate::memory::lemma_usable_frames_increasing(regions, k1, k2);
    }
}

} // verus!
