//! Address-space layout, Sv39 page-table walks, and the hypervisor's shadow page tables.
use vstd::prelude::*;
use crate::memory_region::{MemoryRegion, PageTableRegion, pte_target};
use crate::outside::{PtePath, pte_path_items, pte_path_new, pte_path_push, pte_path_len, pte_path_get,
    rs1_of, lemma_register_fields};
use crate::context::{Context, Halt, HartActions};

verus! {

pub const PAGE_SIZE: u64 = 4096;
pub const HPAGE_SIZE: u64 = 0x20_0000;

/// The shift between the physical addresses of hypervisor symbols and their virtual addresses.
pub const SYMBOL_PA2VA_OFFSET: u64 = 0xffff_ffff_4000_0000;

pub const HART_SEGMENT_SIZE: u64 = 0x4000_0000;
pub const DATA_OFFSET: u64 = 0;
pub const DATA_SIZE: u64 = 0x20_0000;
pub const STACK_OFFSET: u64 = 0x20_0000;
pub const STACK_SIZE: u64 = 0x20_0000;
pub const HEAP_OFFSET: u64 = 0x40_0000;
pub const HEAP_SIZE: u64 = 0x1c0_0000;
pub const PT_REGION_OFFSET: u64 = 0x200_0000;
pub const PT_REGION_SIZE: u64 = 0x200_0000;
pub const VM_RESERVATION_SIZE: u64 = 0x400_0000;

pub const PTE_VALID: u64 = 0x1;
pub const PTE_READ: u64 = 0x2;
pub const PTE_WRITE: u64 = 0x4;
pub const PTE_EXECUTE: u64 = 0x8;
pub const PTE_USER: u64 = 0x10;
pub const PTE_GLOBAL: u64 = 0x20;
pub const PTE_ACCESSED: u64 = 0x40;
pub const PTE_DIRTY: u64 = 0x80;
pub const PTE_RSV_MASK: u64 = 0x300;
pub const PTE_AD: u64 = 0xc0;
pub const PTE_RWV: u64 = 0x7;
pub const PTE_RXV: u64 = 0xb;
pub const PTE_RWXV: u64 = 0xf;

/// Byte offset, inside a root page table, of the first entry of the direct map.
pub const DIRECT_MAP_PT_INDEX: u64 = 0xf80;
/// Virtual address at which physical address zero is mapped.
pub const DIRECT_MAP_OFFSET: u64 = 0xffff_fffc_0000_0000;
/// Number of 1 GB pages in the direct map.
pub const DIRECT_MAP_PAGES: u64 = 8;
/// First virtual address past the direct map.
pub const DIRECT_MAP_LIMIT: u64 = 0xffff_fffe_0000_0000;

/// The low 39 bits of an address: those an Sv39 translation uses.
pub const SV39_MASK: u64 = 0x7f_ffff_ffff;

pub open spec fn spec_va2pa(va: u64) -> u64 {
    (va - DIRECT_MAP_OFFSET) as u64
}

/// The supervisor virtual address of hypervisor physical address `pa`.
pub fn pa2sa(pa: u64) -> (sa: u64)
    requires
        pa + SYMBOL_PA2VA_OFFSET <= u64::MAX,
    ensures
        sa == pa + SYMBOL_PA2VA_OFFSET,
{
    pa + SYMBOL_PA2VA_OFFSET
}

/// The physical address of hypervisor supervisor virtual address `sa`.
pub fn sa2pa(sa: u64) -> (pa: u64)
    requires
        sa >= 0xffff_ffff_c000_0000,
    ensures
        pa == sa - SYMBOL_PA2VA_OFFSET,
{
    sa - SYMBOL_PA2VA_OFFSET
}

/// The direct-map virtual address of physical address `pa`.
pub fn pa2va(pa: u64) -> (va: u64)
    requires
        pa + DIRECT_MAP_OFFSET <= u64::MAX,
    ensures
        va == pa + DIRECT_MAP_OFFSET,
{
    pa + DIRECT_MAP_OFFSET
}

/// The physical address that direct-map virtual address `va` maps.
pub fn va2pa(va: u64) -> (pa: u64)
    requires
        DIRECT_MAP_OFFSET <= va < DIRECT_MAP_LIMIT,
    ensures
        pa == spec_va2pa(va),
        pa < DIRECT_MAP_PAGES * HART_SEGMENT_SIZE,
{
    va - DIRECT_MAP_OFFSET
}

/// Whether `va` is a sign-extended 39-bit address.
pub open spec fn spec_is_sv39(va: u64) -> bool {
    (va >> 38u64) == 0 || (va >> 38u64) == 0x3ff_ffff
}

/// Whether `va` is a sign-extended 39-bit address.
pub fn is_sv39(va: u64) -> (r: bool)
    ensures
        r == spec_is_sv39(va),
{
    let shifted = va >> 38u64;
    shifted == 0 || shifted == 0x3ff_ffff
}

/// The direct map and supervisor conversions are inverse to each other.
pub proof fn lemma_pa2va_va2pa(pa: u64)
    requires
        pa < DIRECT_MAP_PAGES * HART_SEGMENT_SIZE,
    ensures
        DIRECT_MAP_OFFSET <= pa + DIRECT_MAP_OFFSET < DIRECT_MAP_LIMIT,
        spec_va2pa((pa + DIRECT_MAP_OFFSET) as u64) == pa,
{
}

/// Whether `va1` below root slot `rt1` and `va2` below root slot `rt2` are translated by the
/// same leaf entry: same root, and the same three page numbers.
pub open spec fn same_translation(rt1: int, va1: u64, rt2: int, va2: u64) -> bool {
    &&& rt1 == rt2
    &&& vpn2(va1) == vpn2(va2)
    &&& vpn1(va1) == vpn1(va2)
    &&& vpn0(va1) == vpn0(va2)
}

/// The address space a set of shadow page tables serves.
#[derive(PartialEq, Eq, Structural, Clone, Copy, Debug)]
pub enum PageTableRoot {
    /// Guest user mode.
    UVA,
    /// Guest supervisor mode.
    KVA,
    /// Guest supervisor mode with access to user memory.
    MVA,
    /// Guest with paging disabled: guest physical addresses.
    MPA,
}

/// Free-list terminator: not the address of any page.
pub const NULL_PAGE_PTR: u64 = 2;

/// The index, in the table array, of the root serving `root`.
pub open spec fn root_slot(root: PageTableRoot) -> int {
    match root {
        PageTableRoot::MPA => 0,
        PageTableRoot::UVA => 1,
        PageTableRoot::KVA => 2,
        PageTableRoot::MVA => 3,
    }
}

/// Index of the level-2 (root) entry that translates `va`.
pub open spec fn vpn2(va: u64) -> int {
    ((va >> 30u64) & 0x1ff) as int
}

/// Index of the level-1 entry that translates `va`.
pub open spec fn vpn1(va: u64) -> int {
    ((va >> 21u64) & 0x1ff) as int
}

/// Index of the level-0 (leaf) entry that translates `va`.
pub open spec fn vpn0(va: u64) -> int {
    ((va >> 12u64) & 0x1ff) as int
}

/// Whether page-table entry `e` points to a next-level table: valid, and none of R, W, X.
pub open spec fn is_table_pointer(e: u64) -> bool {
    e & 0xf == 0x1
}

/// Whether page-table entry `e` has its valid bit set.
pub open spec fn is_valid(e: u64) -> bool {
    e & 0x1 != 0
}

/// The pages of the region `[start, start + 4096 * k)` that a set of page tables may use,
/// highest address first: those that do not overlap `[initrd_start, initrd_end)`.
pub open spec fn usable_pages(start: u64, k: nat, initrd_start: u64, initrd_end: u64) -> Seq<u64>
    decreases k,
{
    if k == 0 {
        Seq::empty()
    } else {
        let p = (start + 4096 * (k - 1)) as u64;
        let rest = usable_pages(start, (k - 1) as nat, initrd_start, initrd_end);
        if p + 4096 <= initrd_start || p >= initrd_end {
            seq![p].add(rest)
        } else {
            rest
        }
    }
}

/// Shadow page tables: four Sv39 roots and the tables below them, allocated from a region of
/// hypervisor memory whose unused pages form a free list threaded through their first words.
pub struct PageTables {
    region: PageTableRegion,
    root_page_tables: [u64; 4],
    free_list_head: u64,
    /// The free pages, in list order.
    free_pages: Ghost<Seq<u64>>,
    /// The allocated tables and their levels (2: root, 0: leaf table).
    levels: Ghost<Map<u64, nat>>,
    /// For each non-root table, the table and entry index that point to it.
    parents: Ghost<Map<u64, (u64, int)>>,
}

impl PageTables {
    /// The memory holding the tables.
    pub closed spec fn memory(&self) -> MemoryRegion {
        self.region.memory()
    }

    pub closed spec fn table_region(&self) -> PageTableRegion {
        self.region
    }

    /// The four roots, indexed by `root_slot`.
    pub closed spec fn roots(&self) -> Seq<u64> {
        self.root_page_tables@
    }

    /// The free pages, in the order in which they will be handed out.
    pub closed spec fn free_list(&self) -> Seq<u64> {
        self.free_pages@
    }

    /// The allocated tables with their levels.
    pub closed spec fn tables(&self) -> Map<u64, nat> {
        self.levels@
    }

    pub closed spec fn parent_map(&self) -> Map<u64, (u64, int)> {
        self.parents@
    }

    /// The word at physical address `a`.
    pub open spec fn word(&self, a: u64) -> u64 {
        self.memory().at(a)
    }

    /// Entry `i` of the table at `t`.
    pub open spec fn entry(&self, t: u64, i: int) -> u64 {
        self.word((t + 8 * i) as u64)
    }

    /// Whether `p` is the address of a whole page of the region.
    pub open spec fn page_ok(&self, p: u64) -> bool {
        &&& p % 4096 == 0
        &&& self.memory().spec_base() <= p
        &&& p + 4096 <= self.memory().spec_base() + self.memory().spec_len()
    }

    /// Whether page `p` belongs to the tables: on the free list or holding a table.
    pub open spec fn owns(&self, p: u64) -> bool {
        self.free_list().contains(p) || self.tables().contains_key(p)
    }

    /// No page of the tables overlaps `[lo, hi)`.
    pub open spec fn avoids(&self, lo: u64, hi: u64) -> bool {
        forall|p: u64| #[trigger] self.owns(p) ==> p + 4096 <= lo || p >= hi
    }

    /// `new` owns no page that `old` did not: the tables never take in outside memory.
    pub open spec fn pool_kept(old: &Self, new: &Self) -> bool {
        forall|p: u64| #[trigger] new.owns(p) ==> old.owns(p)
    }

    /// Memory the tables were built to stay out of, such as the initial RAM disk, stays out
    /// of them: an operation that takes in no outside page keeps every page of the tables clear
    /// of `[lo, hi)`.
    pub proof fn lemma_avoidance_kept(old: &Self, new: &Self, lo: u64, hi: u64)
        requires
            old.avoids(lo, hi),
            Self::pool_kept(old, new),
        ensures
            new.avoids(lo, hi),
    {
        assert forall|p: u64| #[trigger] new.owns(p) implies p + 4096 <= lo || p >= hi by {
            assert(old.owns(p));
        }
    }

    /// One of the operations that change the tables: `rmw_mapping`, `clear_page_table` or
    /// `clear_page_table_range`, or `flush_shadow_page_table`, taking `old` to `new`.
    pub open spec fn table_step(old: &Self, new: &Self) -> bool {
        ||| exists|root: PageTableRoot, va: u64, pte: u64, r: u64| #[trigger] Self::remapped(old, new, root, va, pte, r)
        ||| exists|pa: u64, s: int, e: int| #[trigger] Self::cleared(old, new, pa, s, e)
        ||| flushed(old, new)
    }

    /// Each operation keeps the tables well formed, keeps the roots where they are, and takes in
    /// no outside page.
    proof fn lemma_step_keeps(old: &Self, new: &Self)
        requires
            old.wf(),
            Self::table_step(old, new),
        ensures
            new.wf(),
            new.roots() == old.roots(),
            Self::pool_kept(old, new),
    {
        if exists|root: PageTableRoot, va: u64, pte: u64, r: u64| #[trigger] Self::remapped(old, new, root, va, pte, r) {
            let (root, va, pte, r) = choose|root: PageTableRoot, va: u64, pte: u64, r: u64| #[trigger] Self::remapped(old, new, root, va, pte, r);
            assert(Self::remapped(old, new, root, va, pte, r));
        } else if exists|pa: u64, s: int, e: int| #[trigger] Self::cleared(old, new, pa, s, e) {
            let (pa, s, e) = choose|pa: u64, s: int, e: int| #[trigger] Self::cleared(old, new, pa, s, e);
            assert(Self::cleared(old, new, pa, s, e));
        }
    }

    /// What every state of a run of operations shares with the first, by induction along the run.
    proof fn lemma_run_upto(states: Seq<Self>, lo: u64, hi: u64, i: int)
        requires
            states.len() >= 1,
            states[0].wf(),
            states[0].avoids(lo, hi),
            forall|k: int| 0 <= k < states.len() - 1 ==> #[trigger] Self::table_step(&states[k], &states[k + 1]),
            0 <= i < states.len(),
        ensures
            states[i].wf(),
            states[i].roots() == states[0].roots(),
            states[i].avoids(lo, hi),
        decreases i,
    {
        if i > 0 {
            Self::lemma_run_upto(states, lo, hi, i - 1);
            assert(Self::table_step(&states[i - 1], &states[(i - 1) + 1]));
            Self::lemma_step_keeps(&states[i - 1], &states[i]);
            Self::lemma_avoidance_kept(&states[i - 1], &states[i], lo, hi);
        }
    }

    /// Over any run of operations from well-formed tables that keep clear of `[lo, hi)` (as
    /// `new` leaves them, for the initial RAM disk): every state is well formed; the four roots
    /// stay where they were, distinct whole pages of the region; no page of the tables, free or
    /// holding a table, overlaps `[lo, hi)`, so no table is ever built there; and every valid
    /// entry of an upper-level table points to a table of the region while every valid entry of
    /// a last-level table maps a page past the region's end.
    pub proof fn lemma_run(states: Seq<Self>, lo: u64, hi: u64)
        requires
            states.len() >= 1,
            states[0].wf(),
            states[0].avoids(lo, hi),
            forall|k: int| 0 <= k < states.len() - 1 ==> #[trigger] Self::table_step(&states[k], &states[k + 1]),
        ensures
            forall|i: int| 0 <= i < states.len() ==> {
                &&& (#[trigger] states[i]).wf()
                &&& states[i].roots() == states[0].roots()
                &&& states[i].avoids(lo, hi)
                &&& forall|r: int| 0 <= r < 4 ==> states[i].page_ok(#[trigger] states[i].roots()[r])
                &&& forall|r1: int, r2: int| 0 <= r1 < 4 && 0 <= r2 < 4 && r1 != r2
                    ==> #[trigger] states[i].roots()[r1] != #[trigger] states[i].roots()[r2]
                &&& forall|t: u64, j: int| states[i].tables().contains_key(t) && 0 <= j < 512
                    && is_valid(#[trigger] states[i].entry(t, j)) ==> {
                        &&& states[i].tables()[t] >= 1 ==> is_table_pointer(states[i].entry(t, j))
                            && states[i].table_region().spec_inside_region(states[i].entry(t, j))
                        &&& states[i].tables()[t] == 0 ==> !is_table_pointer(states[i].entry(t, j))
                            && !states[i].table_region().spec_inside_region(states[i].entry(t, j))
                    }
            },
    {
        assert forall|i: int| 0 <= i < states.len() implies {
            &&& (#[trigger] states[i]).wf()
            &&& states[i].roots() == states[0].roots()
            &&& states[i].avoids(lo, hi)
            &&& forall|r: int| 0 <= r < 4 ==> states[i].page_ok(#[trigger] states[i].roots()[r])
            &&& forall|r1: int, r2: int| 0 <= r1 < 4 && 0 <= r2 < 4 && r1 != r2
                ==> #[trigger] states[i].roots()[r1] != #[trigger] states[i].roots()[r2]
            &&& forall|t: u64, j: int| states[i].tables().contains_key(t) && 0 <= j < 512
                && is_valid(#[trigger] states[i].entry(t, j)) ==> {
                    &&& states[i].tables()[t] >= 1 ==> is_table_pointer(states[i].entry(t, j))
                        && states[i].table_region().spec_inside_region(states[i].entry(t, j))
                    &&& states[i].tables()[t] == 0 ==> !is_table_pointer(states[i].entry(t, j))
                        && !states[i].table_region().spec_inside_region(states[i].entry(t, j))
                }
        } by {
            Self::lemma_run_upto(states, lo, hi, i);
            let st = states[i];
            st.lemma_roots_placed();
            assert forall|t: u64, j: int| st.tables().contains_key(t) && 0 <= j < 512
                && is_valid(#[trigger] st.entry(t, j)) implies {
                    &&& st.tables()[t] >= 1 ==> is_table_pointer(st.entry(t, j))
                        && st.table_region().spec_inside_region(st.entry(t, j))
                    &&& st.tables()[t] == 0 ==> !is_table_pointer(st.entry(t, j))
                        && !st.table_region().spec_inside_region(st.entry(t, j))
                } by {
                st.lemma_leaves_outside_region(t, j);
            }
        }
    }

    pub open spec fn is_root(&self, t: u64) -> bool {
        exists|r: int| 0 <= r < 4 && #[trigger] self.roots()[r] == t
    }

    spec fn region_ok(&self) -> bool {
        &&& self.region.wf()
        &&& self.memory().spec_base() == spec_va2pa(self.memory().spec_ptr())
        &&& self.memory().spec_base() % 4096 == 0
    }

    spec fn free_ok(&self) -> bool {
        let f = self.free_list();
        &&& forall|k: int| 0 <= k < f.len() ==> self.page_ok(#[trigger] f[k])
        &&& forall|k: int| 0 <= k < f.len() ==> #[trigger] self.word(f[k]) == (if k + 1 < f.len() {
            f[k + 1]
        } else {
            NULL_PAGE_PTR
        })
        &&& forall|j: int, k: int| 0 <= j < k < f.len() ==> f[j] != f[k]
        &&& self.free_list_head == (if f.len() > 0 { f[0] } else { NULL_PAGE_PTR })
    }

    /// What entry `i` of table `t` may hold: at levels 2 and 1 a valid entry points to an
    /// allocated table one level down whose parent is this entry; at level 0 no entry points to
    /// a table, and a valid one maps a page outside the page-table region.
    pub open spec fn entry_ok(&self, t: u64, i: int) -> bool {
        let e = self.entry(t, i);
        if self.tables()[t] >= 1 {
            is_valid(e) ==> {
                &&& is_table_pointer(e)
                &&& self.tables().contains_key(pte_target(e))
                &&& self.tables()[pte_target(e)] + 1 == self.tables()[t]
                &&& self.parent_map().contains_key(pte_target(e))
                &&& self.parent_map()[pte_target(e)] == (t, i)
            }
        } else {
            &&& !is_table_pointer(e)
            &&& is_valid(e) ==> !self.table_region().spec_inside_region(e)
        }
    }

    spec fn tables_ok(&self) -> bool {
        let tb = self.tables();
        let pm = self.parent_map();
        &&& forall|r: int| 0 <= r < 4 ==> tb.contains_key(#[trigger] self.roots()[r]) && tb[self.roots()[r]] == 2
        &&& forall|r1: int, r2: int| 0 <= r1 < 4 && 0 <= r2 < 4 && r1 != r2 ==> self.roots()[r1] != self.roots()[r2]
        &&& forall|t: u64| #[trigger] tb.contains_key(t) ==> self.page_ok(t) && tb[t] <= 2 && (tb[t] == 2 <==> self.is_root(t))
        &&& forall|t: u64, i: int| tb.contains_key(t) && 0 <= i < 512 ==> #[trigger] self.entry_ok(t, i)
        &&& forall|c: u64| #[trigger] pm.contains_key(c) <==> (tb.contains_key(c) && tb[c] < 2)
        &&& forall|c: u64| #[trigger] pm.contains_key(c) ==> {
            let (p, i) = pm[c];
            &&& tb.contains_key(p)
            &&& tb[p] == tb[c] + 1
            &&& 0 <= i < 512
            &&& is_valid(self.entry(p, i))
            &&& pte_target(self.entry(p, i)) == c
        }
    }

    /// The tables' internal consistency: the free list and the allocated tables are disjoint
    /// sets of whole pages of the region, and the tables form four trees.
    pub closed spec fn wf(&self) -> bool {
        &&& self.region_ok()
        &&& self.free_ok()
        &&& self.tables_ok()
        &&& forall|k: int| 0 <= k < self.free_list().len() ==> !self.tables().contains_key(#[trigger] self.free_list()[k])
    }

    /// Position in the memory's contents of entry `i` of the page at `t`.
    spec fn slot_of(&self, t: u64, i: int) -> int {
        self.memory().slot((t + 8 * i) as u64)
    }

    /// Number of the page at `t`, counted from the start of the region.
    spec fn page_number(&self, t: u64) -> int {
        (t - self.memory().spec_base()) / 4096
    }

    /// Distinct pages have distinct page numbers.
    proof fn lemma_page_number_injective(&self, t1: u64, t2: u64)
        requires
            self.region_ok(),
            self.page_ok(t1),
            self.page_ok(t2),
            t1 != t2,
        ensures
            self.page_number(t1) != self.page_number(t2),
    {
        let b = self.memory().spec_base() as int;
        assert((t1 as int - b) % 4096 == 0);
        assert((t2 as int - b) % 4096 == 0);
    }

    /// A store to the word at entry `i0` of page `t0` changes that entry of the tables' view
    /// and no other.
    proof fn lemma_store_entry(old: &Self, new: &Self, t0: u64, i0: int, v: u64)
        requires
            old.region_ok(),
            new.region_ok(),
            old.page_ok(t0),
            0 <= i0 < 512,
            new.memory().spec_base() == old.memory().spec_base(),
            new.memory().spec_len() == old.memory().spec_len(),
            new.memory()@ == old.memory()@.update(old.slot_of(t0, i0), v),
        ensures
            forall|t: u64, i: int|
                old.page_ok(t) && 0 <= i < 512 ==> #[trigger] new.entry(t, i) == (if t == t0 && i == i0 {
                    v
                } else {
                    old.entry(t, i)
                }),
    {
        old.lemma_entry_slot(t0, i0);
        assert forall|t: u64, i: int| old.page_ok(t) && 0 <= i < 512 implies #[trigger] new.entry(t, i) == (if t == t0 && i == i0 {
            v
        } else {
            old.entry(t, i)
        }) by {
            old.lemma_entry_slot(t, i);
            new.lemma_entry_slot(t, i);
            if t != t0 {
                old.lemma_page_number_injective(t, t0);
            }
        }
    }

    /// The free-list invariant only depends on the first words of the free pages.
    proof fn lemma_free_frame(old: &Self, new: &Self)
        requires
            old.free_ok(),
            new.memory().spec_base() == old.memory().spec_base(),
            new.memory().spec_len() == old.memory().spec_len(),
            new.free_list() == old.free_list(),
            new.free_list_head == old.free_list_head,
            forall|k: int| 0 <= k < old.free_list().len() ==> #[trigger] new.entry(old.free_list()[k], 0) == old.entry(old.free_list()[k], 0),
        ensures
            new.free_ok(),
    {
        assert forall|k: int| 0 <= k < new.free_list().len() implies #[trigger] new.word(new.free_list()[k]) == (if k + 1 < new.free_list().len() {
            new.free_list()[k + 1]
        } else {
            NULL_PAGE_PTR
        }) by {
            assert(new.entry(old.free_list()[k], 0) == old.entry(old.free_list()[k], 0));
        }
    }

    /// Builds page tables in `region`: every page of it that does not overlap the initial RAM
    /// disk `[initrd_start, initrd_end)` is put on the free list, highest address first, and the
    /// four roots are then taken from the head of the list and zeroed.
    pub fn new(region: MemoryRegion, initrd_start: u64, initrd_end: u64) -> (r: Self)
        requires
            region.wf(),
            region.spec_ptr() % 4096 == 0,
            region.spec_len() % 4096 == 0,
            DIRECT_MAP_OFFSET <= region.spec_ptr() < DIRECT_MAP_LIMIT,
            region.spec_base() == spec_va2pa(region.spec_ptr()),
            usable_pages(region.spec_base(), (region.spec_len() / 4096) as nat, initrd_start, initrd_end).len() >= 4,
        ensures
            r.wf(),
            r.memory().spec_base() == region.spec_base(),
            r.memory().spec_len() == region.spec_len(),
            r.memory().spec_ptr() == region.spec_ptr(),
            ({
                let u = usable_pages(region.spec_base(), (region.spec_len() / 4096) as nat, initrd_start, initrd_end);
                &&& r.roots() == u.subrange(0, 4)
                &&& r.free_list() == u.subrange(4, u.len() as int)
            }),
            forall|t: u64| #[trigger] r.tables().contains_key(t) <==> r.is_root(t),
            forall|k: int, i: int| 0 <= k < 4 && 0 <= i < 512 ==> #[trigger] r.entry(r.roots()[k], i) == 0,
            r.avoids(initrd_start, initrd_end),
    {
        proof {
            region.lemma_wf();
        }
        let start = region.base();
        let end = start + region.len();
        let ghost n = (region.spec_len() / 4096) as nat;
        let ghost u = usable_pages(start, n, initrd_start, initrd_end);
        let ghost ptr = region.spec_ptr();
        let region = PageTableRegion::new(region);
        let mut ret = Self {
            region,
            root_page_tables: [0u64; 4],
            free_list_head: NULL_PAGE_PTR,
            free_pages: Ghost(Seq::empty()),
            levels: Ghost(Map::empty()),
            parents: Ghost(Map::empty()),
        };
        assert(start % 4096 == 0);
        let mut addr = start;
        let ghost mut k: nat = 0;
        while addr < end
            invariant
                start % 4096 == 0,
                end == start + 4096 * n,
                end <= u64::MAX,
                addr == start + 4096 * k,
                k <= n,
                ret.region_ok(),
                ret.free_ok(),
                ret.memory().spec_base() == start,
                ret.memory().spec_len() == 4096 * n,
                ret.memory().spec_ptr() == ptr,
                ret.free_list() == usable_pages(start, k, initrd_start, initrd_end),
                ret.tables() == Map::<u64, nat>::empty(),
                ret.parent_map() == Map::<u64, (u64, int)>::empty(),
            decreases n - k,
        {
            proof {
                lemma_usable_pages_bounds(start, k, initrd_start, initrd_end);
            }
            if addr + PAGE_SIZE <= initrd_start || addr >= initrd_end {
                ret.free_page(addr);
            }
            addr = addr + PAGE_SIZE;
            proof {
                k = k + 1;
            }
        }
        proof {
            lemma_usable_pages_bounds(start, n, initrd_start, initrd_end);
        }
        let mut i: usize = 0;
        while i < 4
            invariant
                i <= 4,
                u.len() >= 4,
                ret.region_ok(),
                ret.free_ok(),
                ret.memory().spec_base() == start,
                ret.memory().spec_len() == 4096 * n,
                ret.memory().spec_ptr() == ptr,
                ret.free_list() == u.subrange(i as int, u.len() as int),
                forall|j: int| 0 <= j < u.len() ==> ret.page_ok(#[trigger] u[j]),
                forall|j1: int, j2: int| 0 <= j1 < j2 < u.len() ==> u[j1] != u[j2],
                forall|j: int| 0 <= j < i ==> ret.roots()[j] == #[trigger] u[j],
                forall|t: u64| #[trigger] ret.tables().contains_key(t) <==> exists|j: int| 0 <= j < i && u[j] == t,
                forall|t: u64| #[trigger] ret.tables().contains_key(t) ==> ret.tables()[t] == 2,
                ret.parent_map() == Map::<u64, (u64, int)>::empty(),
                forall|j: int, e: int| 0 <= j < i && 0 <= e < 512 ==> #[trigger] ret.entry(u[j], e) == 0,
            decreases 4 - i,
        {
            let ghost before = ret;
            let page = ret.alloc_page();
            let ghost mid = ret;
            ret.root_page_tables[i] = page;
            ret.levels = Ghost(ret.levels@.insert(page, 2));
            proof {
                assert(ret.memory() == mid.memory());
                Self::lemma_free_frame(&mid, &ret);
                assert(page == u[i as int]);
                assert forall|j: int, e: int| 0 <= j < i + 1 && 0 <= e < 512 implies #[trigger] ret.entry(u[j], e) == 0 by {
                    assert(mid.entry(u[j], e) == (if u[j] == page { 0 } else { before.entry(u[j], e) }));
                }
                assert forall|t: u64| #[trigger] ret.tables().contains_key(t) <==> exists|j: int| 0 <= j < i + 1 && u[j] == t by {
                    if t == page {
                        assert(u[i as int] == t);
                    }
                    if exists|j: int| 0 <= j < i + 1 && u[j] == t {
                        let j = choose|j: int| 0 <= j < i + 1 && u[j] == t;
                        if j < i {
                            assert(before.tables().contains_key(t));
                        }
                    }
                }
                assert(ret.free_list() =~= u.subrange(i as int + 1, u.len() as int));
            }
            i = i + 1;
        }
        proof {
            assert(ret.roots() =~= u.subrange(0, 4));
            assert forall|t: u64| #[trigger] ret.tables().contains_key(t) <==> ret.is_root(t) by {
                if ret.tables().contains_key(t) {
                    let j = choose|j: int| 0 <= j < 4 && u[j] == t;
                    assert(ret.roots()[j] == t);
                }
                if ret.is_root(t) {
                    let r = choose|r: int| 0 <= r < 4 && #[trigger] ret.roots()[r] == t;
                    assert(u[r] == t);
                }
            }
            assert forall|t: u64, e: int| ret.tables().contains_key(t) && 0 <= e < 512 implies #[trigger] ret.entry_ok(t, e) by {
                let j = choose|j: int| 0 <= j < 4 && u[j] == t;
                assert(ret.entry(u[j], e) == 0);
                lemma_zero_entry();
            }
            assert forall|k2: int| 0 <= k2 < ret.free_list().len() implies !ret.tables().contains_key(#[trigger] ret.free_list()[k2]) by {
                if ret.tables().contains_key(ret.free_list()[k2]) {
                    let j = choose|j: int| 0 <= j < 4 && u[j] == ret.free_list()[k2];
                    assert(ret.free_list()[k2] == u[k2 + 4]);
                }
            }
            lemma_usable_pages_avoid(start, n, initrd_start, initrd_end);
            assert forall|p: u64| #[trigger] ret.owns(p) implies p + 4096 <= initrd_start || p >= initrd_end by {
                if ret.free_list().contains(p) {
                    let k2 = choose|k2: int| 0 <= k2 < ret.free_list().len() && ret.free_list()[k2] == p;
                    assert(u[k2 + 4] == p);
                } else {
                    let j = choose|j: int| 0 <= j < 4 && u[j] == p;
                }
            }
        }
        ret
    }

    /// The `satp` value that makes the hart translate through the tables serving `root`: Sv39
    /// mode and the root table's page number.
    pub open spec fn satp_for(&self, root: PageTableRoot) -> u64 {
        0x8000_0000_0000_0000u64 | (self.roots()[root_slot(root)] >> 12u64)
    }

    /// The new `satp` value that serving `root` asks of a hart whose `satp` is
    /// `current_satp`, where it differs (the hart then also fences its translation cache).
    pub fn install_root(&self, root: PageTableRoot, current_satp: u64) -> (r: Option<u64>)
        ensures
            r == (if current_satp != self.satp_for(root) { Some(self.satp_for(root)) } else { None }),
    {
        let new_satp = (8u64 << 60u64) | (self.root_pa(root) >> 12u64);
        assert(8u64 << 60u64 == 0x8000_0000_0000_0000u64) by (bit_vector);
        if current_satp != new_satp {
            Some(new_satp)
        } else {
            None
        }
    }

    /// The four roots are distinct whole pages of the page-table region. No operation moves
    /// them: each keeps `roots()` as it was.
    pub proof fn lemma_roots_placed(&self)
        requires
            self.wf(),
        ensures
            self.roots().len() == 4,
            forall|r: int| 0 <= r < 4 ==> self.page_ok(#[trigger] self.roots()[r]),
            forall|r1: int, r2: int| 0 <= r1 < 4 && 0 <= r2 < 4 && r1 != r2 ==> #[trigger] self.roots()[r1] != #[trigger] self.roots()[r2],
    {
        assert(self.tables_ok());
        assert forall|r: int| 0 <= r < 4 implies self.page_ok(#[trigger] self.roots()[r]) by {
            assert(self.tables().contains_key(self.roots()[r]));
        }
    }

    /// Entries never let the guest reach the tables themselves: a valid entry of a table above
    /// the last level is a pointer to another table of the region, and a valid entry of a
    /// last-level table is a leaf whose page starts past the end of the region.
    pub proof fn lemma_leaves_outside_region(&self, t: u64, i: int)
        requires
            self.wf(),
            self.tables().contains_key(t),
            0 <= i < 512,
            is_valid(self.entry(t, i)),
        ensures
            self.tables()[t] >= 1 ==> is_table_pointer(self.entry(t, i))
                && self.table_region().spec_inside_region(self.entry(t, i)),
            self.tables()[t] == 0 ==> !is_table_pointer(self.entry(t, i))
                && !self.table_region().spec_inside_region(self.entry(t, i)),
    {
        assert(self.tables_ok());
        assert(self.entry_ok(t, i));
        self.region.lemma_wf();
        if self.tables()[t] >= 1 {
            assert(self.page_ok(pte_target(self.entry(t, i))));
        }
    }

    /// The physical address of the root table serving `root`.
    pub fn root_pa(&self, root: PageTableRoot) -> (r: u64)
        ensures
            r == self.roots()[root_slot(root)],
    {
        let i: usize = match root {
            PageTableRoot::MPA => 0,
            PageTableRoot::UVA => 1,
            PageTableRoot::KVA => 2,
            PageTableRoot::MVA => 3,
        };
        self.root_page_tables[i]
    }

    /// The address of the leaf entry that translates `va` below root table `root`, where the
    /// two table pointers on the way are valid.
    pub open spec fn leaf_address(&self, root: u64, va: u64) -> Option<u64> {
        let e2 = self.entry(root, vpn2(va));
        if !is_valid(e2) {
            None
        } else {
            let e1 = self.entry(pte_target(e2), vpn1(va));
            if !is_valid(e1) {
                None
            } else {
                Some((pte_target(e1) + 8 * vpn0(va)) as u64)
            }
        }
    }

    /// The leaf entry that translates `va` below root table `root`: zero where the path to it
    /// is missing.
    pub open spec fn lookup(&self, root: u64, va: u64) -> u64 {
        match self.leaf_address(root, va) {
            Some(a) => self.word(a),
            None => 0,
        }
    }

    /// Whether table `t` hangs, directly or through one more table, below entries `[s, e)` of
    /// table `pa`.
    pub open spec fn below(&self, t: u64, pa: u64, s: int, e: int) -> bool {
        let pm = self.parent_map();
        &&& pm.contains_key(t)
        &&& {
            ||| pm[t].0 == pa && s <= pm[t].1 < e
            ||| pm.contains_key(pm[t].0) && pm[pm[t].0].0 == pa && s <= pm[pm[t].0].1 < e
        }
    }

    /// Whether the translation of `va` below root table `root` goes through one of entries
    /// `[s, e)` of table `pa`.
    pub open spec fn passes_through(&self, root: u64, va: u64, pa: u64, s: int, e: int) -> bool {
        let e2 = self.entry(root, vpn2(va));
        let t1 = pte_target(e2);
        let e1 = self.entry(t1, vpn1(va));
        ||| root == pa && s <= vpn2(va) < e
        ||| is_valid(e2) && t1 == pa && s <= vpn1(va) < e
        ||| is_valid(e2) && is_valid(e1) && pte_target(e1) == pa && s <= vpn0(va) < e
    }

    /// Number of tables that have to be allocated to complete the path for `va` below `root`.
    pub open spec fn pages_needed(&self, root: u64, va: u64) -> nat {
        let e2 = self.entry(root, vpn2(va));
        if !is_valid(e2) {
            2
        } else if !is_valid(self.entry(pte_target(e2), vpn1(va))) {
            1
        } else {
            0
        }
    }

    /// The valid entry `index` of `table` (of level 1 or 2) points to a table one level down,
    /// whose page is created and linked in where the entry was invalid.
    fn next_table(&mut self, table: u64, index: u64) -> (r: u64)
        requires
            old(self).wf(),
            old(self).tables().contains_key(table),
            old(self).tables()[table] >= 1,
            index < 512,
            !is_valid(old(self).entry(table, index as int)) ==> old(self).free_list().len() >= 1,
        ensures
            final(self).wf(),
            final(self).roots() == old(self).roots(),
            final(self).memory().spec_base() == old(self).memory().spec_base(),
            final(self).memory().spec_len() == old(self).memory().spec_len(),
            final(self).memory().spec_ptr() == old(self).memory().spec_ptr(),
            is_valid(final(self).entry(table, index as int)),
            r == pte_target(final(self).entry(table, index as int)),
            final(self).tables().contains_key(r),
            final(self).tables()[r] + 1 == old(self).tables()[table],
            final(self).tables().contains_key(table),
            final(self).tables()[table] == old(self).tables()[table],
            forall|t: u64| old(self).tables().contains_key(t) ==> #[trigger] final(self).tables().contains_key(t)
                && final(self).tables()[t] == old(self).tables()[t],
            Self::pool_kept(&*old(self), &*final(self)),
            is_valid(old(self).entry(table, index as int)) ==> {
                &&& final(self).free_list() == old(self).free_list()
                &&& final(self).memory()@ == old(self).memory()@
            },
            !is_valid(old(self).entry(table, index as int)) ==> {
                &&& r == old(self).free_list()[0]
                &&& final(self).free_list() == old(self).free_list().drop_first()
                &&& forall|t: u64, i: int| old(self).page_ok(t) && 0 <= i < 512 ==> #[trigger] final(self).entry(t, i) == (if t == r {
                    0
                } else if t == table && i == index as int {
                    final(self).entry(table, index as int)
                } else {
                    old(self).entry(t, i)
                })
            },
            forall|rt: int, va: u64| 0 <= rt < 4 ==> #[trigger] final(self).lookup(final(self).roots()[rt], va) == old(self).lookup(old(self).roots()[rt], va),
    {
        let ghost old_self = *self;
        let pte_addr = table + index * 8;
        proof {
            assert(old_self.entry_ok(table, index as int));
            old_self.lemma_entry_slot(table, index as int);
            assert((table + 8 * index) as u64 == pte_addr);
        }
        let pte = self.region.index(pte_addr);
        if pte & PTE_VALID != 0 {
            proof {
                lemma_pointer_bits(pte);
            }
            (pte >> 10u64) << 12u64
        } else {
            let page = self.alloc_page();
            let ghost after_alloc = *self;
            proof {
                self.region.lemma_wf();
                assert(page + 4096 <= self.memory().spec_base() + self.memory().spec_len());
                lemma_page_pointer(page, self.region.spec_end_pa());
                after_alloc.lemma_entry_slot(table, index as int);
            }
            self.region.set_nonleaf_pte(pte_addr, (page >> 2u64) | PTE_VALID);
            let ghost after_store = *self;
            let ghost level = old_self.tables()[table];
            self.levels = Ghost(self.levels@.insert(page, (level - 1) as nat));
            self.parents = Ghost(self.parents@.insert(page, (table, index as int)));
            proof {
                assert(old_self.tables().contains_key(table));
                assert(page != table);
                Self::lemma_store_entry(&after_alloc, &after_store, table, index as int, (page >> 2u64) | PTE_VALID);
                assert(self.memory() == after_store.memory());
                assert forall|t: u64, i: int| old_self.page_ok(t) && 0 <= i < 512 implies #[trigger] self.entry(t, i) == (if t == table && i == index as int {
                    self.entry(table, index as int)
                } else {
                    after_alloc.entry(t, i)
                }) by {
                    assert(self.entry(t, i) == after_store.entry(t, i));
                }
                Self::lemma_link_table(&old_self, &after_alloc, self, table, index as int, page);
            }
            page
        }
    }

    /// Returns the address of the leaf entry that translates `va` in the tables serving `root`,
    /// creating the missing tables on the way. No translation changes.
    #[verifier::spinoff_prover]
    #[verifier::rlimit(40)]
    fn pte_for_addr(&mut self, root: PageTableRoot, va: u64) -> (r: u64)
        requires
            old(self).wf(),
            va < DIRECT_MAP_OFFSET,
            spec_is_sv39(va),
            root != PageTableRoot::MPA,
            old(self).free_list().len() >= old(self).pages_needed(old(self).roots()[root_slot(root)], va),
        ensures
            final(self).wf(),
            final(self).roots() == old(self).roots(),
            final(self).memory().spec_base() == old(self).memory().spec_base(),
            final(self).memory().spec_len() == old(self).memory().spec_len(),
            final(self).memory().spec_ptr() == old(self).memory().spec_ptr(),
            final(self).leaf_address(final(self).roots()[root_slot(root)], va) == Some(r),
            final(self).free_list() == old(self).free_list().subrange(
                old(self).pages_needed(old(self).roots()[root_slot(root)], va) as int,
                old(self).free_list().len() as int,
            ),
            forall|rt: int, va2: u64| 0 <= rt < 4 ==> #[trigger] final(self).lookup(final(self).roots()[rt], va2) == old(self).lookup(old(self).roots()[rt], va2),
            Self::pool_kept(&*old(self), &*final(self)),
    {
        let ghost s0 = *self;
        let page_table = self.root_pa(root);
        proof {
            lemma_vpn_bounds(va);
            lemma_vpn_shifts(va);
            assert(s0.tables().contains_key(page_table));
        }
        let t1 = self.next_table(page_table, (va >> 30u64) & 0x1ff);
        let ghost s1 = *self;
        proof {
            if !is_valid(s0.entry(page_table, vpn2(va))) {
                lemma_zero_entry();
                assert(s0.page_ok(s0.free_list()[0]));
                assert(s1.entry(t1, vpn1(va)) == 0);
            }
        }
        let t0 = self.next_table(t1, (va >> 21u64) & 0x1ff);
        proof {
            assert(self.free_list() =~= s0.free_list().subrange(
                s0.pages_needed(page_table, va) as int,
                s0.free_list().len() as int,
            ));
        }
        t0 + ((va >> 12u64) & 0x1ff) * 8
    }

    /// What `rmw_mapping(root, va, pte)` does to `old`, giving `new` and returning `r`: the leaf
    /// entry for `va` below `root` now holds `pte` and its whole path exists, `r` is the entry
    /// it held before, no other translation changes, and the tables the path needed came off
    /// the front of the free list.
    pub open spec fn remapped(old: &Self, new: &Self, root: PageTableRoot, va: u64, pte: u64, r: u64) -> bool {
        &&& new.wf()
        &&& new.roots() == old.roots()
        &&& new.memory().spec_base() == old.memory().spec_base()
        &&& new.memory().spec_len() == old.memory().spec_len()
        &&& new.memory().spec_ptr() == old.memory().spec_ptr()
        &&& new.table_region().spec_end_pa() == old.table_region().spec_end_pa()
        &&& r == old.lookup(old.roots()[root_slot(root)], va)
        &&& new.lookup(new.roots()[root_slot(root)], va) == pte
        &&& new.pages_needed(new.roots()[root_slot(root)], va) == 0
        &&& Self::pool_kept(old, new)
        &&& forall|rt: int, va2: u64| 0 <= rt < 4 && !same_translation(rt, va2, root_slot(root), va) ==>
            #[trigger] new.lookup(new.roots()[rt], va2) == old.lookup(old.roots()[rt], va2)
        &&& new.free_list() == old.free_list().subrange(
            old.pages_needed(old.roots()[root_slot(root)], va) as int,
            old.free_list().len() as int,
        )
    }

    /// Mapping the same address twice: the second call needs no free page, finds what the
    /// first call stored and returns it, and leaves its own entry in place.
    pub proof fn lemma_remap_twice(
        s0: &Self,
        s1: &Self,
        s2: &Self,
        root: PageTableRoot,
        va: u64,
        p1: u64,
        p2: u64,
        r1: u64,
        r2: u64,
    )
        requires
            Self::remapped(s0, s1, root, va, p1, r1),
            Self::remapped(s1, s2, root, va, p2, r2),
        ensures
            s1.free_list().len() >= s1.pages_needed(s1.roots()[root_slot(root)], va),
            r2 == p1,
            s2.lookup(s2.roots()[root_slot(root)], va) == p2,
            s2.free_list() == s1.free_list(),
    {
        assert(s2.free_list() =~= s1.free_list());
    }

    /// Points the leaf entry that translates `va` in the tables serving `root` at `pte`,
    /// creating the missing tables on the way, and returns the entry it held (zero where the
    /// path was missing). No other translation changes.
    pub fn rmw_mapping(&mut self, root: PageTableRoot, va: u64, pte: u64) -> (r: u64)
        requires
            old(self).wf(),
            va < DIRECT_MAP_OFFSET,
            spec_is_sv39(va),
            root != PageTableRoot::MPA,
            old(self).free_list().len() >= old(self).pages_needed(old(self).roots()[root_slot(root)], va),
            pte & 0xf != 0x1,
            !old(self).table_region().spec_inside_region(pte),
        ensures
            Self::remapped(&*old(self), &*final(self), root, va, pte, r),
    {
        let ghost s0 = *self;
        let pte_addr = self.pte_for_addr(root, va);
        let ghost s1 = *self;
        let ghost root_pa = s1.roots()[root_slot(root)];
        proof {
            lemma_vpn_bounds(va);
            assert(s1.tables_ok());
            assert(s1.tables().contains_key(root_pa) && s1.tables()[root_pa] == 2);
            s1.lemma_leaf_address(root_pa, va);
            s0.region.lemma_wf();
            s1.region.lemma_wf();
            let t0 = pte_target(s1.entry(pte_target(s1.entry(root_pa, vpn2(va))), vpn1(va)));
            s1.lemma_entry_slot(t0, vpn0(va));
            assert(s1.region.spec_end_pa() == s0.region.spec_end_pa());
            assert(s1.lookup(s1.roots()[root_slot(root)], va) == s0.lookup(s0.roots()[root_slot(root)], va));
        }
        let old_pte = self.region.index(pte_addr);
        assert(old_pte == s1.lookup(root_pa, va));
        self.region.set_leaf_pte(pte_addr, pte);
        proof {
            let e1 = s1.entry(pte_target(s1.entry(root_pa, vpn2(va))), vpn1(va));
            let t0 = pte_target(e1);
            assert(pte_addr == (t0 + 8 * vpn0(va)) as u64);
            s1.lemma_entry_slot(t0, vpn0(va));
            Self::lemma_store_entry(&s1, self, t0, vpn0(va), pte);
            Self::lemma_store_leaf(&s1, self, root_slot(root), va, pte);
            assert forall|p: u64| #[trigger] self.owns(p) implies s0.owns(p) by {
                assert(s1.owns(p));
            }
        }
        old_pte
    }

    /// Clears every entry of the table at `pa`, freeing the tables below it.
    pub fn clear_page_table(&mut self, pa: u64)
        requires
            old(self).wf(),
            old(self).tables().contains_key(pa),
        ensures
            Self::cleared(&*old(self), &*final(self), pa, 0, 512),
        decreases old(self).tables()[pa], 1nat,
    {
        self.clear_page_table_range(pa, 0, 512);
    }

    /// The outcome of clearing entries `[s, e)` of table `pa` in `old`: those entries are zero,
    /// the tables below them are cleared themselves and freed (pushed on the free list, each
    /// zero but for the free-list link in its first word), and nothing else changes: the pages
    /// that were free before keep their contents.
    pub open spec fn cleared_entries(old: &Self, new: &Self, pa: u64, s: int, e: int) -> bool {
        let n_old = old.free_list().len();
        let n_new = new.free_list().len();
        &&& new.wf()
        &&& new.roots() == old.roots()
        &&& new.memory().spec_base() == old.memory().spec_base()
        &&& new.memory().spec_len() == old.memory().spec_len()
        &&& new.memory().spec_ptr() == old.memory().spec_ptr()
        &&& new.table_region().spec_end_pa() == old.table_region().spec_end_pa()
        &&& forall|t: u64| #[trigger] new.tables().contains_key(t) <==> old.tables().contains_key(t) && !old.below(t, pa, s, e)
        &&& forall|t: u64| #[trigger] new.tables().contains_key(t) ==> new.tables()[t] == old.tables()[t]
        &&& forall|t: u64| #[trigger] new.parent_map().contains_key(t) ==> new.parent_map()[t] == old.parent_map()[t]
        &&& forall|t: u64, i: int| #![trigger new.entry(t, i)] new.tables().contains_key(t) && 0 <= i < 512 ==> new.entry(t, i) == (if t == pa && s <= i < e {
            0
        } else {
            old.entry(t, i)
        })
        &&& n_new >= n_old
        &&& new.free_list().subrange(n_new - n_old, n_new as int) == old.free_list()
        &&& forall|k: int| 0 <= k < n_new - n_old ==> old.tables().contains_key(#[trigger] new.free_list()[k]) && old.below(new.free_list()[k], pa, s, e)
        &&& forall|t: u64| old.tables().contains_key(t) && #[trigger] old.below(t, pa, s, e) ==> new.free_list().contains(t)
        &&& forall|k: int, j: int| 0 <= k < n_new - n_old && 1 <= j < 512 ==> #[trigger] new.entry(new.free_list()[k], j) == 0
        &&& forall|k: int, j: int| 0 <= k < n_old && 0 <= j < 512 ==> #[trigger] new.entry(old.free_list()[k], j) == old.entry(old.free_list()[k], j)
    }

    /// Clearing entries `[s, e)` of table `pa`, as `cleared_entries` describes, with its effect
    /// on translations: exactly those that go through the cleared entries become zero.
    pub open spec fn cleared(old: &Self, new: &Self, pa: u64, s: int, e: int) -> bool {
        &&& Self::cleared_entries(old, new, pa, s, e)
        &&& Self::pool_kept(old, new)
        &&& forall|rt: int, va: u64| 0 <= rt < 4 ==> #[trigger] new.lookup(new.roots()[rt], va) == (if old.passes_through(old.roots()[rt], va, pa, s, e) {
            0
        } else {
            old.lookup(old.roots()[rt], va)
        })
    }

    /// Clears entries `[start_index, end_index)` of the table at `pa`, freeing the tables below
    /// them.
    pub fn clear_page_table_range(&mut self, pa: u64, start_index: u64, end_index: u64)
        requires
            old(self).wf(),
            old(self).tables().contains_key(pa),
            start_index <= end_index <= 512,
        ensures
            Self::cleared(&*old(self), &*final(self), pa, start_index as int, end_index as int),
        decreases old(self).tables()[pa], 0nat,
    {
        let ghost o = *self;
        let mut i = start_index;
        proof {
            Self::lemma_cleared_start(&o, pa, start_index as int);
        }
        while i < end_index
            invariant
                o.wf(),
                o.tables().contains_key(pa),
                o.tables()[pa] == old(self).tables()[pa],
                start_index <= i <= end_index <= 512,
                Self::cleared_entries(&o, &*self, pa, start_index as int, i as int),
            decreases end_index - i,
        {
            let ghost s0 = *self;
            proof {
                Self::lemma_cleared_facts(&o, &s0, pa, start_index as int, i as int);
                s0.lemma_entry_slot(pa, i as int);
                assert((pa + 8 * i) as u64 == pa + i * 8);
                lemma_zero_entry();
                lemma_page_aligned_bit0(0);
            }
            let pte = self.region.index(pa + i * 8);
            if pte & PTE_RWXV == PTE_VALID {
                let page = (pte >> 10u64) << 12u64;
                proof {
                    assert(s0.tables_ok());
                    assert(s0.entry_ok(pa, i as int));
                    lemma_pointer_bits(pte);
                    assert(s0.tables()[pa] >= 1) by {
                        if s0.tables()[pa] == 0 {
                            assert(!is_table_pointer(s0.entry(pa, i as int)));
                        }
                    }
                    assert(s0.tables()[page] + 1 == o.tables()[pa]);
                }
                self.clear_page_table(page);
                let ghost s1 = *self;
                proof {
                    Self::lemma_child_cleared(&o, &s0, &s1, pa, start_index as int, i as int, page);
                }
                self.free_page(page);
                let ghost s2 = *self;
                self.levels = Ghost(self.levels@.remove(page));
                self.parents = Ghost(self.parents@.remove(page));
                let ghost s3 = *self;
                proof {
                    s3.lemma_entry_slot(pa, i as int);
                }
                self.region.set_invalid_pte(pa + i * 8, 0);
                proof {
                    Self::lemma_store_entry(&s3, self, pa, i as int, 0);
                    Self::lemma_unlink(&o, &s0, &s1, &s2, &*self, pa, start_index as int, i as int, page);
                }
            } else {
                self.region.set_invalid_pte(pa + i * 8, 0);
                proof {
                    Self::lemma_store_entry(&s0, self, pa, i as int, 0);
                    Self::lemma_clear_leaf(&o, &s0, &*self, pa, start_index as int, i as int);
                }
            }
            i = i + 1;
        }
        proof {
            Self::lemma_cleared_finish(&o, &*self, pa, start_index as int, end_index as int);
        }
    }

    /// Clearing frees only tables that were there: the pages stay those of the tables.
    proof fn lemma_cleared_pool(old: &Self, new: &Self, pa: u64, s: int, e: int)
        requires
            Self::cleared_entries(old, new, pa, s, e),
        ensures
            Self::pool_kept(old, new),
    {
        let n_old = old.free_list().len();
        let n_new = new.free_list().len();
        assert forall|p: u64| #[trigger] new.owns(p) implies old.owns(p) by {
            if new.free_list().contains(p) {
                let k = choose|k: int| 0 <= k < n_new && new.free_list()[k] == p;
                if k >= n_new - n_old {
                    assert(new.free_list().subrange(n_new - n_old, n_new as int)[k - (n_new - n_old)] == p);
                    assert(old.free_list()[k - (n_new - n_old)] == p);
                }
            }
        }
    }

    /// A table does not hang below itself, nor below a table of a lower level.
    proof fn lemma_not_below(&self, t: u64, pa: u64, s: int, e: int)
        requires
            self.wf(),
            self.tables().contains_key(t),
            self.tables().contains_key(pa),
            self.tables()[pa] <= self.tables()[t],
        ensures
            !self.below(t, pa, s, e),
    {
        let pm = self.parent_map();
        if pm.contains_key(t) {
            let q = pm[t].0;
            assert(self.tables()[q] == self.tables()[t] + 1);
            if pm.contains_key(q) {
                assert(self.tables()[pm[q].0] == self.tables()[q] + 1);
            }
        }
    }

    proof fn lemma_cleared_start(o: &Self, pa: u64, st: int)
        requires
            o.wf(),
        ensures
            Self::cleared_entries(o, o, pa, st, st),
    {
        o.region.lemma_wf();
        assert(o.free_list().subrange(0, o.free_list().len() as int) =~= o.free_list());
    }

    proof fn lemma_cleared_facts(o: &Self, s0: &Self, pa: u64, st: int, i: int)
        requires
            o.wf(),
            o.tables().contains_key(pa),
            0 <= st <= i < 512,
            Self::cleared_entries(o, s0, pa, st, i),
        ensures
            s0.wf(),
            s0.tables().contains_key(pa),
            s0.tables()[pa] == o.tables()[pa],
            s0.entry(pa, i) == o.entry(pa, i),
            s0.page_ok(pa),
    {
        o.lemma_not_below(pa, pa, st, i);
        assert(s0.tables().contains_key(pa));
        assert(s0.tables()[pa] == o.tables()[pa]);
        assert(0 <= i < 512);
        assert(s0.tables().contains_key(pa) && 0 <= i < 512 ==> s0.entry(pa, i) == (if pa == pa && st <= i < i {
            0
        } else {
            o.entry(pa, i)
        }));
        assert(s0.entry(pa, i) == o.entry(pa, i));
        assert(s0.tables_ok());
    }

    proof fn lemma_child_cleared(o: &Self, s0: &Self, s1: &Self, pa: u64, st: int, i: int, page: u64)
        requires
            o.wf(),
            o.tables().contains_key(pa),
            0 <= st <= i < 512,
            Self::cleared_entries(o, s0, pa, st, i),
            is_table_pointer(s0.entry(pa, i)),
            page == pte_target(s0.entry(pa, i)),
            Self::cleared_entries(s0, s1, page, 0, 512),
        ensures
            s0.tables().contains_key(page),
            s0.tables()[page] + 1 == o.tables()[pa],
            s0.parent_map().contains_key(page),
            s0.parent_map()[page] == (pa, i),
            s1.tables().contains_key(page),
            s1.tables()[page] + 1 == o.tables()[pa],
            s1.parent_map().contains_key(page),
            s1.parent_map()[page] == (pa, i),
            s1.tables().contains_key(pa),
            s1.tables()[pa] == o.tables()[pa],
            s1.entry(pa, i) == s0.entry(pa, i),
            !s1.free_list().contains(page),
            s1.page_ok(page),
            forall|j: int| 0 <= j < 512 ==> #[trigger] s1.entry(page, j) == 0,
            forall|t: u64| #[trigger] s1.tables().contains_key(t) && s1.parent_map().contains_key(t) ==> s1.parent_map()[t].0 != page,
    {
        Self::lemma_cleared_facts(o, s0, pa, st, i);
        lemma_pointer_bits(s0.entry(pa, i));
        assert(s0.tables_ok());
        assert(s0.entry_ok(pa, i));
        assert(s0.tables()[pa] >= 1) by {
            if s0.tables()[pa] == 0 {
                assert(!is_table_pointer(s0.entry(pa, i)));
            }
        }
        s0.lemma_not_below(page, page, 0, 512);
        s0.lemma_not_below(pa, page, 0, 512);
        assert(s1.tables().contains_key(page));
        assert(s1.tables().contains_key(pa));
        assert(s1.parent_map().contains_key(page));
        assert(s1.entry(pa, i) == s0.entry(pa, i));
        assert forall|j: int| 0 <= j < 512 implies #[trigger] s1.entry(page, j) == 0 by {
            assert(s1.tables().contains_key(page));
        }
        assert(!s1.free_list().contains(page)) by {
            if s1.free_list().contains(page) {
                let k = choose|k: int| 0 <= k < s1.free_list().len() && s1.free_list()[k] == page;
                assert(!s1.tables().contains_key(s1.free_list()[k]));
            }
        }
        lemma_zero_entry();
        assert forall|t: u64| #[trigger] s1.tables().contains_key(t) && s1.parent_map().contains_key(t) implies s1.parent_map()[t].0 != page by {
            let (p, j) = s1.parent_map()[t];
            if p == page {
                assert(is_valid(s1.entry(p, j)));
                assert(s1.entry(page, j) == 0);
            }
        }
    }

    proof fn lemma_unlink(o: &Self, s0: &Self, s1: &Self, s2: &Self, s4: &Self, pa: u64, st: int, i: int, page: u64)
        requires
            o.wf(),
            o.tables().contains_key(pa),
            0 <= st <= i < 512,
            Self::cleared_entries(o, s0, pa, st, i),
            is_table_pointer(s0.entry(pa, i)),
            page == pte_target(s0.entry(pa, i)),
            Self::cleared_entries(s0, s1, page, 0, 512),
            s2.region_ok(),
            s2.free_ok(),
            s2.free_list() == seq![page].add(s1.free_list()),
            s2.roots() == s1.roots(),
            s2.memory().spec_base() == s1.memory().spec_base(),
            s2.memory().spec_len() == s1.memory().spec_len(),
            s2.memory().spec_ptr() == s1.memory().spec_ptr(),
            forall|t: u64, j: int| s1.page_ok(t) && 0 <= j < 512 ==> #[trigger] s2.entry(t, j) == (if t == page && j == 0 {
                s1.free_list_head
            } else {
                s1.entry(t, j)
            }),
            s4.region_ok(),
            s4.free_list() == s2.free_list(),
            s4.free_list_head == s2.free_list_head,
            s4.roots() == s1.roots(),
            s4.tables() == s1.tables().remove(page),
            s4.parent_map() == s1.parent_map().remove(page),
            s4.memory().spec_base() == s1.memory().spec_base(),
            s4.memory().spec_len() == s1.memory().spec_len(),
            s4.memory().spec_ptr() == s1.memory().spec_ptr(),
            forall|t: u64, j: int| s1.page_ok(t) && 0 <= j < 512 ==> #[trigger] s4.entry(t, j) == (if t == pa && j == i {
                0
            } else {
                s2.entry(t, j)
            }),
        ensures
            Self::cleared_entries(o, s4, pa, st, i + 1),
    {
        Self::lemma_child_cleared(o, s0, s1, pa, st, i, page);
        lemma_zero_entry();
        o.region.lemma_wf();
        s4.region.lemma_wf();
        let n0 = o.free_list().len();
        let n1 = s0.free_list().len();
        let n2 = s1.free_list().len();
        let n4 = s4.free_list().len();
        // free list
        assert forall|k: int| 0 <= k < n4 implies #[trigger] s4.entry(s4.free_list()[k], 0) == s2.entry(s4.free_list()[k], 0) by {
            let f = s4.free_list()[k];
            if k > 0 {
                assert(f == s1.free_list()[k - 1]);
                assert(!s1.tables().contains_key(f));
            }
            assert(s1.page_ok(f));
        }
        Self::lemma_free_frame(s2, s4);
        // tables
        let tb4 = s4.tables();
        let pm4 = s4.parent_map();
        assert forall|t: u64, j: int| tb4.contains_key(t) && 0 <= j < 512 implies #[trigger] s4.entry(t, j) == (if t == pa && j == i {
            0
        } else {
            s1.entry(t, j)
        }) by {
            assert(s1.tables().contains_key(t));
            assert(s1.page_ok(t));
        }
        assert forall|t: u64, j: int| tb4.contains_key(t) && 0 <= j < 512 implies #[trigger] s4.entry_ok(t, j) by {
            assert(s1.entry_ok(t, j));
            if !(t == pa && j == i) {
                let e = s1.entry(t, j);
                if s1.tables()[t] >= 1 && is_valid(e) {
                    assert(s1.parent_map()[pte_target(e)] == (t, j));
                    assert(pte_target(e) != page);
                }
            }
        }
        assert forall|c: u64| #[trigger] pm4.contains_key(c) implies ({
            let (p, j) = pm4[c];
            &&& tb4.contains_key(p)
            &&& tb4[p] == tb4[c] + 1
            &&& 0 <= j < 512
            &&& is_valid(s4.entry(p, j))
            &&& pte_target(s4.entry(p, j)) == c
        }) by {
            let (p, j) = s1.parent_map()[c];
            assert(s1.tables().contains_key(c));
            assert(p != page);
            if p == pa && j == i {
                assert(pte_target(s1.entry(pa, i)) == page);
            }
        }
        assert forall|t: u64| #[trigger] tb4.contains_key(t) implies s4.page_ok(t) && tb4[t] <= 2 && (tb4[t] == 2 <==> s4.is_root(t)) by {
            assert(s1.tables().contains_key(t));
            if s4.is_root(t) {
                let r = choose|r: int| 0 <= r < 4 && #[trigger] s4.roots()[r] == t;
                assert(s1.roots()[r] == t);
            }
            if s1.is_root(t) {
                let r = choose|r: int| 0 <= r < 4 && #[trigger] s1.roots()[r] == t;
                assert(s4.roots()[r] == t);
            }
        }
        assert forall|r: int| 0 <= r < 4 implies tb4.contains_key(#[trigger] s4.roots()[r]) && tb4[s4.roots()[r]] == 2 by {
            assert(s1.tables().contains_key(s1.roots()[r]));
            assert(s1.is_root(s1.roots()[r]));
        }
        assert(s4.tables_ok());
        assert forall|k: int| 0 <= k < n4 implies !tb4.contains_key(#[trigger] s4.free_list()[k]) by {
            if k > 0 {
                assert(s4.free_list()[k] == s1.free_list()[k - 1]);
            }
        }
        assert(s4.wf());
        // what changed, relative to o
        assert forall|t: u64| o.tables().contains_key(t) && !o.below(t, pa, st, i) && s0.below(t, page, 0, 512) implies #[trigger] o.below(t, pa, st, i + 1) by {
            assert(s0.tables().contains_key(t));
            assert(s0.parent_map().contains_key(t));
            let q = s0.parent_map()[t].0;
            if q == page {
                assert(o.parent_map()[t] == s0.parent_map()[t]);
                assert(o.parent_map()[page] == (pa, i));
            } else {
                assert(s0.parent_map().contains_key(q));
                assert(s0.tables()[q] == s0.tables()[t] + 1);
                assert(s0.tables()[s0.parent_map()[q].0] == s0.tables()[q] + 1);
                assert(false);
            }
        }
        assert forall|t: u64| o.tables().contains_key(t) && #[trigger] o.below(t, pa, st, i + 1) && !o.below(t, pa, st, i) implies t == page || (s0.tables().contains_key(t) && s0.below(t, page, 0, 512)) by {
            let pm = o.parent_map();
            assert(s0.tables().contains_key(t));
            if pm[t].0 == pa && pm[t].1 == i {
                assert(pte_target(o.entry(pa, i)) == t);
            } else {
                let q = pm[t].0;
                assert(pm[q] == (pa, i));
                assert(o.tables().contains_key(q));
                assert(pte_target(o.entry(pa, i)) == q);
                assert(o.parent_map().contains_key(t));
                assert(o.tables()[t] < 2);
                assert(s0.tables()[t] == o.tables()[t]);
                assert(s0.parent_map().contains_key(t));
                assert(s0.parent_map()[t] == pm[t]);
            }
        }
        assert forall|t: u64| #[trigger] tb4.contains_key(t) <==> o.tables().contains_key(t) && !o.below(t, pa, st, i + 1) by {
            if tb4.contains_key(t) {
                assert(s1.tables().contains_key(t));
                assert(s0.tables().contains_key(t));
                assert(!o.below(t, pa, st, i));
                assert(!s0.below(t, page, 0, 512));
                assert(t != page);
            }
            if o.tables().contains_key(t) && !o.below(t, pa, st, i + 1) {
                assert(!o.below(t, pa, st, i));
                assert(s0.tables().contains_key(t));
                assert(t != page) by {
                    assert(o.parent_map()[page] == (pa, i));
                }
                if s0.below(t, page, 0, 512) {
                    assert(o.below(t, pa, st, i + 1));
                }
                assert(s1.tables().contains_key(t));
            }
        }
        assert forall|t: u64| #[trigger] tb4.contains_key(t) implies tb4[t] == o.tables()[t] by {
            assert(s1.tables().contains_key(t));
            assert(s0.tables().contains_key(t));
        }
        assert forall|t: u64| #[trigger] pm4.contains_key(t) implies pm4[t] == o.parent_map()[t] by {
            assert(s1.parent_map().contains_key(t));
            assert(s0.parent_map().contains_key(t));
        }
        assert forall|t: u64, j: int| #![trigger s4.entry(t, j)] tb4.contains_key(t) && 0 <= j < 512 implies s4.entry(t, j) == (if t == pa && st <= j < i + 1 {
            0
        } else {
            o.entry(t, j)
        }) by {
            assert(s1.tables().contains_key(t));
            assert(s0.tables().contains_key(t));
            assert(t != page);
        }
        // the free list, relative to o
        let f4 = s4.free_list();
        assert(n2 >= n1);
        assert(n4 == n2 + 1);
        assert(f4.subrange(n4 - n0, n4 as int) =~= o.free_list()) by {
            assert forall|k: int| 0 <= k < n0 implies #[trigger] f4[n4 - n0 + k] == o.free_list()[k] by {
                assert(f4[n4 - n0 + k] == s1.free_list()[n2 - n0 + k]);
                assert(s1.free_list()[n2 - n0 + k] == s1.free_list().subrange(n2 - n1, n2 as int)[n1 - n0 + k]);
                assert(s0.free_list()[n1 - n0 + k] == s0.free_list().subrange(n1 - n0, n1 as int)[k]);
            }
        }
        assert forall|k: int| 0 <= k < n4 - n0 implies o.tables().contains_key(#[trigger] f4[k]) && o.below(f4[k], pa, st, i + 1) by {
            if k == 0 {
                assert(f4[0] == page);
                assert(o.parent_map()[page] == (pa, i));
                assert(o.tables().contains_key(page));
            } else if k - 1 < n2 - n1 {
                let t = s1.free_list()[k - 1];
                assert(f4[k] == t);
                assert(s0.tables().contains_key(t) && s0.below(t, page, 0, 512));
                assert(o.tables().contains_key(t));
                assert(!o.below(t, pa, st, i));
            } else {
                let t = s1.free_list()[k - 1];
                assert(t == s1.free_list().subrange(n2 - n1, n2 as int)[k - 1 - (n2 - n1)]);
                assert(t == s0.free_list()[k - 1 - (n2 - n1)]);
                assert(o.below(t, pa, st, i));
            }
        }
        assert forall|t: u64| o.tables().contains_key(t) && #[trigger] o.below(t, pa, st, i + 1) implies f4.contains(t) by {
            if t == page {
                assert(f4[0] == t);
            } else if o.below(t, pa, st, i) {
                assert(s0.free_list().contains(t));
                let k = choose|k: int| 0 <= k < n1 && s0.free_list()[k] == t;
                assert(s1.free_list().subrange(n2 - n1, n2 as int)[k] == t);
                assert(f4[n2 - n1 + k + 1] == t);
            } else {
                assert(s0.tables().contains_key(t) && s0.below(t, page, 0, 512));
                assert(s1.free_list().contains(t));
                let k = choose|k: int| 0 <= k < n2 && s1.free_list()[k] == t;
                assert(f4[k + 1] == t);
            }
        }
        // freed tables are zero but for their link, and older free pages are untouched
        assert(s1.wf());
        assert forall|m: int, j: int| 0 <= m < n2 && 0 <= j < 512 implies #[trigger] s4.entry(s1.free_list()[m], j) == s1.entry(s1.free_list()[m], j) by {
            let t = s1.free_list()[m];
            assert(s1.page_ok(t));
            assert(!s1.tables().contains_key(t));
            if t == page {
                assert(s1.free_list().contains(page));
            }
        }
        assert forall|k: int, j: int| 0 <= k < n4 - n0 && 1 <= j < 512 implies #[trigger] s4.entry(f4[k], j) == 0 by {
            if k == 0 {
                assert(f4[0] == page);
                assert(s1.page_ok(page));
                assert(s1.entry(page, j) == 0);
            } else if k - 1 < n2 - n1 {
                assert(f4[k] == s1.free_list()[k - 1]);
                assert(s4.entry(s1.free_list()[k - 1], j) == s1.entry(s1.free_list()[k - 1], j));
            } else {
                let m = k - 1 - (n2 - n1);
                let t = s1.free_list()[k - 1];
                assert(f4[k] == t);
                assert(t == s1.free_list().subrange(n2 - n1, n2 as int)[m]);
                assert(t == s0.free_list()[m]);
                assert(s1.entry(s0.free_list()[m], j) == s0.entry(s0.free_list()[m], j));
                assert(s0.entry(s0.free_list()[m], j) == 0);
                assert(s4.entry(s1.free_list()[k - 1], j) == s1.entry(s1.free_list()[k - 1], j));
            }
        }
        assert forall|k: int, j: int| 0 <= k < n0 && 0 <= j < 512 implies #[trigger] s4.entry(o.free_list()[k], j) == o.entry(o.free_list()[k], j) by {
            let m = n1 - n0 + k;
            let t = o.free_list()[k];
            assert(t == s0.free_list().subrange(n1 - n0, n1 as int)[k]);
            assert(t == s0.free_list()[m]);
            assert(s1.entry(s0.free_list()[m], j) == s0.entry(s0.free_list()[m], j));
            assert(t == s1.free_list().subrange(n2 - n1, n2 as int)[m]);
            assert(t == s1.free_list()[n2 - n1 + m]);
            assert(s4.entry(s1.free_list()[n2 - n1 + m], j) == s1.entry(s1.free_list()[n2 - n1 + m], j));
        }
    }

    proof fn lemma_clear_leaf(o: &Self, s0: &Self, s4: &Self, pa: u64, st: int, i: int)
        requires
            o.wf(),
            o.tables().contains_key(pa),
            0 <= st <= i < 512,
            Self::cleared_entries(o, s0, pa, st, i),
            !is_table_pointer(s0.entry(pa, i)),
            s4.region_ok(),
            s4.free_list() == s0.free_list(),
            s4.free_list_head == s0.free_list_head,
            s4.roots() == s0.roots(),
            s4.tables() == s0.tables(),
            s4.parent_map() == s0.parent_map(),
            s4.memory().spec_base() == s0.memory().spec_base(),
            s4.memory().spec_len() == s0.memory().spec_len(),
            s4.memory().spec_ptr() == s0.memory().spec_ptr(),
            forall|t: u64, j: int| s0.page_ok(t) && 0 <= j < 512 ==> #[trigger] s4.entry(t, j) == (if t == pa && j == i {
                0
            } else {
                s0.entry(t, j)
            }),
        ensures
            Self::cleared_entries(o, s4, pa, st, i + 1),
    {
        Self::lemma_cleared_facts(o, s0, pa, st, i);
        lemma_zero_entry();
        lemma_pointer_bits(s0.entry(pa, i));
        s0.region.lemma_wf();
        s4.region.lemma_wf();
        assert(s0.tables_ok());
        assert(s0.entry_ok(pa, i));
        assert forall|k: int| 0 <= k < s4.free_list().len() implies #[trigger] s4.entry(s4.free_list()[k], 0) == s0.entry(s4.free_list()[k], 0) by {
            assert(s0.page_ok(s4.free_list()[k]));
            assert(!s0.tables().contains_key(s4.free_list()[k]));
        }
        Self::lemma_free_frame(s0, s4);
        assert forall|t: u64, j: int| s4.tables().contains_key(t) && 0 <= j < 512 implies #[trigger] s4.entry_ok(t, j) by {
            assert(s0.entry_ok(t, j));
        }
        assert(s0.tables_ok());
        assert forall|c: u64| #[trigger] s4.parent_map().contains_key(c) implies ({
            let (p, j) = s4.parent_map()[c];
            &&& s4.tables().contains_key(p)
            &&& s4.tables()[p] == s4.tables()[c] + 1
            &&& 0 <= j < 512
            &&& is_valid(s4.entry(p, j))
            &&& pte_target(s4.entry(p, j)) == c
        }) by {
            let (p, j) = s0.parent_map()[c];
            if p == pa && j == i {
                assert(is_valid(s0.entry(pa, i)));
                assert(s0.tables()[pa] >= 1);
            }
        }
        assert forall|t: u64| #[trigger] s4.tables().contains_key(t) implies s4.page_ok(t) && s4.tables()[t] <= 2 && (s4.tables()[t] == 2 <==> s4.is_root(t)) by {
            if s4.is_root(t) {
                let r = choose|r: int| 0 <= r < 4 && #[trigger] s4.roots()[r] == t;
                assert(s0.roots()[r] == t);
            }
            if s0.is_root(t) {
                let r = choose|r: int| 0 <= r < 4 && #[trigger] s0.roots()[r] == t;
                assert(s4.roots()[r] == t);
            }
        }
        assert(s4.tables_ok());
        assert forall|t: u64| o.tables().contains_key(t) implies #[trigger] o.below(t, pa, st, i + 1) == o.below(t, pa, st, i) by {
            let pm = o.parent_map();
            if o.below(t, pa, st, i + 1) && !o.below(t, pa, st, i) {
                if pm[t].0 == pa && pm[t].1 == i {
                    assert(is_valid(o.entry(pa, i)));
                } else {
                    let q = pm[t].0;
                    assert(pm[q] == (pa, i));
                    assert(is_valid(o.entry(pa, i)));
                }
                assert(o.entry_ok(pa, i));
                assert(o.tables()[pa] >= 1);
            }
        }
        assert forall|t: u64, j: int| #![trigger s4.entry(t, j)] s4.tables().contains_key(t) && 0 <= j < 512 implies s4.entry(t, j) == (if t == pa && st <= j < i + 1 {
            0
        } else {
            o.entry(t, j)
        }) by {
            assert(s0.page_ok(t));
        }
        assert forall|k: int| 0 <= k < s4.free_list().len() - o.free_list().len() implies o.tables().contains_key(#[trigger] s4.free_list()[k]) && o.below(s4.free_list()[k], pa, st, i + 1) by {
            assert(o.below(s4.free_list()[k], pa, st, i));
        }
        assert forall|t: u64| o.tables().contains_key(t) && #[trigger] o.below(t, pa, st, i + 1) implies s4.free_list().contains(t) by {
            assert(o.below(t, pa, st, i));
        }
        assert forall|m: int, j: int| 0 <= m < s0.free_list().len() && 0 <= j < 512 implies #[trigger] s4.entry(s0.free_list()[m], j) == s0.entry(s0.free_list()[m], j) by {
            assert(s0.page_ok(s0.free_list()[m]));
            assert(!s0.tables().contains_key(s0.free_list()[m]));
        }
        let n0 = o.free_list().len();
        let n1 = s0.free_list().len();
        assert forall|k: int, j: int| 0 <= k < n0 && 0 <= j < 512 implies #[trigger] s4.entry(o.free_list()[k], j) == o.entry(o.free_list()[k], j) by {
            assert(o.free_list()[k] == s0.free_list().subrange(n1 - n0, n1 as int)[k]);
            assert(o.free_list()[k] == s0.free_list()[n1 - n0 + k]);
            assert(s4.entry(s0.free_list()[n1 - n0 + k], j) == s0.entry(s0.free_list()[n1 - n0 + k], j));
        }
        assert forall|k: int, j: int| 0 <= k < n1 - n0 && 1 <= j < 512 implies #[trigger] s4.entry(s4.free_list()[k], j) == 0 by {
            assert(s4.entry(s0.free_list()[k], j) == s0.entry(s0.free_list()[k], j));
        }
    }

    proof fn lemma_cleared_finish(o: &Self, n: &Self, pa: u64, st: int, e: int)
        requires
            o.wf(),
            o.tables().contains_key(pa),
            0 <= st <= e <= 512,
            Self::cleared_entries(o, n, pa, st, e),
        ensures
            Self::cleared(o, n, pa, st, e),
    {
        Self::lemma_cleared_pool(o, n, pa, st, e);
        lemma_zero_entry();
        assert forall|rt: int, va: u64| 0 <= rt < 4 implies #[trigger] n.lookup(n.roots()[rt], va) == (if o.passes_through(o.roots()[rt], va, pa, st, e) {
            0
        } else {
            o.lookup(o.roots()[rt], va)
        }) by {
            lemma_vpn_bounds(va);
            let r = o.roots()[rt];
            assert(o.tables().contains_key(r) && o.tables()[r] == 2);
            assert(!o.parent_map().contains_key(r));
            assert(n.tables().contains_key(r));
            let e2 = o.entry(r, vpn2(va));
            assert(o.entry_ok(r, vpn2(va)));
            if r == pa && st <= vpn2(va) < e {
                assert(n.entry(r, vpn2(va)) == 0);
            } else {
                assert(n.entry(r, vpn2(va)) == e2);
                if is_valid(e2) {
                    let t1 = pte_target(e2);
                    assert(o.tables().contains_key(t1) && o.parent_map()[t1] == (r, vpn2(va)));
                    assert(!o.below(t1, pa, st, e));
                    assert(n.tables().contains_key(t1));
                    let e1 = o.entry(t1, vpn1(va));
                    assert(o.entry_ok(t1, vpn1(va)));
                    if t1 == pa && st <= vpn1(va) < e {
                        assert(n.entry(t1, vpn1(va)) == 0);
                    } else {
                        assert(n.entry(t1, vpn1(va)) == e1);
                        if is_valid(e1) {
                            let t0 = pte_target(e1);
                            assert(o.tables().contains_key(t0) && o.parent_map()[t0] == (t1, vpn1(va)));
                            assert(o.parent_map().contains_key(t1));
                            assert(!o.below(t0, pa, st, e));
                            assert(n.tables().contains_key(t0));
                            if t0 == pa && st <= vpn0(va) < e {
                                assert(n.entry(t0, vpn0(va)) == 0);
                            } else {
                                assert(n.entry(t0, vpn0(va)) == o.entry(t0, vpn0(va)));
                            }
                        }
                    }
                }
            }
        }
    }

    /// Linking a fresh zeroed table in place of an invalid entry keeps the tables well formed and
    /// changes no translation.
    proof fn lemma_link_table(old: &Self, mid: &Self, new: &Self, table: u64, index: int, page: u64)
        requires
            old.wf(),
            old.tables().contains_key(table),
            old.tables()[table] >= 1,
            0 <= index < 512,
            !is_valid(old.entry(table, index)),
            old.free_list().len() >= 1,
            page == old.free_list()[0],
            old.page_ok(page),
            mid.region_ok(),
            mid.free_ok(),
            mid.free_list() == old.free_list().drop_first(),
            mid.memory().spec_base() == old.memory().spec_base(),
            mid.memory().spec_len() == old.memory().spec_len(),
            forall|t: u64, i: int| old.page_ok(t) && 0 <= i < 512 ==> #[trigger] mid.entry(t, i) == (if t == page {
                0
            } else {
                old.entry(t, i)
            }),
            new.region_ok(),
            new.memory().spec_base() == old.memory().spec_base(),
            new.memory().spec_len() == old.memory().spec_len(),
            new.free_list() == mid.free_list(),
            new.free_list_head == mid.free_list_head,
            new.roots() == old.roots(),
            new.tables() == old.tables().insert(page, (old.tables()[table] - 1) as nat),
            new.parent_map() == old.parent_map().insert(page, (table, index)),
            new.table_region().spec_end_pa() == old.table_region().spec_end_pa(),
            is_table_pointer(new.entry(table, index)),
            pte_target(new.entry(table, index)) == page,
            forall|t: u64, i: int| old.page_ok(t) && 0 <= i < 512 ==> #[trigger] new.entry(t, i) == (if t == table && i == index {
                new.entry(table, index)
            } else {
                mid.entry(t, i)
            }),
        ensures
            new.wf(),
            forall|rt: int, va: u64| 0 <= rt < 4 ==> #[trigger] new.lookup(new.roots()[rt], va) == old.lookup(old.roots()[rt], va),
    {
        lemma_pointer_bits(new.entry(table, index));
        lemma_zero_entry();
        assert(!old.tables().contains_key(page)) by {
            assert(old.free_list()[0] == page);
        }
        assert forall|k: int| 0 <= k < new.free_list().len() implies #[trigger] new.entry(new.free_list()[k], 0) == mid.entry(new.free_list()[k], 0) by {
            assert(new.free_list()[k] == old.free_list()[k + 1]);
            assert(old.free_list()[0] != old.free_list()[k + 1]);
            assert(old.tables().contains_key(table));
            assert(table != new.free_list()[k]);
        }
        Self::lemma_free_frame(mid, new);
        // the table invariant
        assert forall|t: u64, i: int| new.tables().contains_key(t) && 0 <= i < 512 implies #[trigger] new.entry_ok(t, i) by {
            if t == page {
                assert(new.entry(t, i) == 0);
            } else {
                assert(old.entry_ok(t, i));
                if !(t == table && i == index) {
                    assert(new.entry(t, i) == old.entry(t, i));
                    let e = old.entry(t, i);
                    if old.tables()[t] >= 1 && is_valid(e) {
                        assert(old.tables().contains_key(pte_target(e)));
                        assert(pte_target(e) != page);
                    }
                }
            }
        }
        assert forall|c: u64| #[trigger] new.parent_map().contains_key(c) implies ({
            let (p, i) = new.parent_map()[c];
            &&& new.tables().contains_key(p)
            &&& new.tables()[p] == new.tables()[c] + 1
            &&& 0 <= i < 512
            &&& is_valid(new.entry(p, i))
            &&& pte_target(new.entry(p, i)) == c
        }) by {
            if c != page {
                let (p, i) = old.parent_map()[c];
                assert(old.tables().contains_key(p));
                assert(p != page);
                if p == table && i == index {
                    assert(is_valid(old.entry(p, i)));
                }
                assert(new.entry(p, i) == old.entry(p, i));
            }
        }
        assert forall|t: u64| #[trigger] new.tables().contains_key(t) implies new.page_ok(t) && new.tables()[t] <= 2 && (new.tables()[t] == 2 <==> new.is_root(t)) by {
            if t == page {
                assert(!old.is_root(page)) by {
                    if old.is_root(page) {
                        let r = choose|r: int| 0 <= r < 4 && #[trigger] old.roots()[r] == page;
                        assert(old.tables().contains_key(old.roots()[r]));
                    }
                }
            }
        }
        assert forall|k: int| 0 <= k < new.free_list().len() implies !new.tables().contains_key(#[trigger] new.free_list()[k]) by {
            assert(new.free_list()[k] == old.free_list()[k + 1]);
            assert(old.free_list()[0] != old.free_list()[k + 1]);
        }
        // translations
        assert(old.tables_ok());
        assert forall|rt: int, va: u64| 0 <= rt < 4 implies #[trigger] new.lookup(new.roots()[rt], va) == old.lookup(old.roots()[rt], va) by {
            lemma_vpn_bounds(va);
            let root = old.roots()[rt];
            assert(old.tables().contains_key(root) && old.tables()[root] == 2);
            assert(root != page);
            assert(old.entry_ok(root, vpn2(va)));
            let e2 = old.entry(root, vpn2(va));
            if root == table && vpn2(va) == index {
                assert(new.entry(page, vpn1(va)) == 0);
            } else {
                assert(new.entry(root, vpn2(va)) == e2);
                if is_valid(e2) {
                    let t1 = pte_target(e2);
                    assert(old.tables().contains_key(t1) && old.tables()[t1] == 1);
                    assert(t1 != page);
                    assert(old.entry_ok(t1, vpn1(va)));
                    let e1 = old.entry(t1, vpn1(va));
                    if t1 == table && vpn1(va) == index {
                        assert(new.entry(page, vpn0(va)) == 0);
                        assert(new.word((pte_target(new.entry(t1, vpn1(va))) + 8 * vpn0(va)) as u64) == new.entry(page, vpn0(va)));
                    } else {
                        assert(new.entry(t1, vpn1(va)) == e1);
                        if is_valid(e1) {
                            let t0 = pte_target(e1);
                            assert(old.tables().contains_key(t0) && old.tables()[t0] == 0);
                            assert(t0 != page && t0 != table);
                            assert(new.entry(t0, vpn0(va)) == old.entry(t0, vpn0(va)));
                        }
                    }
                }
            }
        }
    }

    /// A present leaf address is the address of an entry of a leaf table, reached through a
    /// level-1 table.
    proof fn lemma_leaf_address(&self, root: u64, va: u64)
        requires
            self.wf(),
            self.tables().contains_key(root),
            self.tables()[root] == 2,
            self.leaf_address(root, va) is Some,
        ensures
            ({
                let t1 = pte_target(self.entry(root, vpn2(va)));
                let t0 = pte_target(self.entry(t1, vpn1(va)));
                &&& self.tables().contains_key(t1) && self.tables()[t1] == 1
                &&& self.parent_map()[t1] == (root, vpn2(va))
                &&& self.tables().contains_key(t0) && self.tables()[t0] == 0
                &&& self.parent_map()[t0] == (t1, vpn1(va))
                &&& self.leaf_address(root, va) == Some((t0 + 8 * vpn0(va)) as u64)
                &&& self.page_ok(t0)
            }),
    {
        lemma_vpn_bounds(va);
        assert(self.entry_ok(root, vpn2(va)));
        let t1 = pte_target(self.entry(root, vpn2(va)));
        assert(self.entry_ok(t1, vpn1(va)));
    }

    /// Two translations that end at the same leaf entry are the same translation.
    #[verifier::spinoff_prover]
    proof fn lemma_leaf_unique(&self, rt1: int, va1: u64, rt2: int, va2: u64)
        requires
            self.wf(),
            0 <= rt1 < 4,
            0 <= rt2 < 4,
            self.leaf_address(self.roots()[rt1], va1) is Some,
            self.leaf_address(self.roots()[rt1], va1) == self.leaf_address(self.roots()[rt2], va2),
        ensures
            same_translation(rt1, va1, rt2, va2),
    {
        let r1 = self.roots()[rt1];
        let r2 = self.roots()[rt2];
        lemma_vpn_bounds(va1);
        lemma_vpn_bounds(va2);
        self.lemma_leaf_address(r1, va1);
        self.lemma_leaf_address(r2, va2);
        let t1a = pte_target(self.entry(r1, vpn2(va1)));
        let t0a = pte_target(self.entry(t1a, vpn1(va1)));
        let t1b = pte_target(self.entry(r2, vpn2(va2)));
        let t0b = pte_target(self.entry(t1b, vpn1(va2)));
        assert(t0a == t0b && vpn0(va1) == vpn0(va2)) by {
            assert(t0a % 4096 == 0 && t0b % 4096 == 0);
            assert(t0a + 8 * vpn0(va1) == t0b + 8 * vpn0(va2));
            lemma_page_offset_unique(t0a as int, t0b as int, vpn0(va1), vpn0(va2));
        }
        assert(t1a == t1b && vpn1(va1) == vpn1(va2));
        assert(r1 == r2 && vpn2(va1) == vpn2(va2));
    }

    /// Storing leaf entry `pte` at the leaf address of `va` below root slot `rs` sets that
    /// translation and changes no other.
    proof fn lemma_store_leaf(old: &Self, new: &Self, rs: int, va: u64, pte: u64)
        requires
            old.wf(),
            0 <= rs < 4,
            old.leaf_address(old.roots()[rs], va) is Some,
            !is_table_pointer(pte),
            is_valid(pte) ==> !old.table_region().spec_inside_region(pte),
            new.table_region().spec_end_pa() == old.table_region().spec_end_pa(),
            new.region_ok(),
            new.memory().spec_base() == old.memory().spec_base(),
            new.memory().spec_len() == old.memory().spec_len(),
            new.roots() == old.roots(),
            new.tables() == old.tables(),
            new.parent_map() == old.parent_map(),
            new.free_list() == old.free_list(),
            new.free_list_head == old.free_list_head,
            ({
                let root = old.roots()[rs];
                let t0 = pte_target(old.entry(pte_target(old.entry(root, vpn2(va))), vpn1(va)));
                forall|t: u64, i: int| old.page_ok(t) && 0 <= i < 512 ==> #[trigger] new.entry(t, i) == (if t == t0 && i == vpn0(va) {
                    pte
                } else {
                    old.entry(t, i)
                })
            }),
        ensures
            new.wf(),
            new.lookup(new.roots()[rs], va) == pte,
            forall|rt: int, va2: u64| 0 <= rt < 4 && !same_translation(rt, va2, rs, va) ==>
                #[trigger] new.lookup(new.roots()[rt], va2) == old.lookup(old.roots()[rt], va2),
    {
        let root = old.roots()[rs];
        lemma_vpn_bounds(va);
        old.lemma_leaf_address(root, va);
        let t1 = pte_target(old.entry(root, vpn2(va)));
        let t0 = pte_target(old.entry(t1, vpn1(va)));
        assert forall|k: int| 0 <= k < old.free_list().len() implies #[trigger] new.entry(old.free_list()[k], 0) == old.entry(old.free_list()[k], 0) by {
            assert(old.page_ok(old.free_list()[k]));
            assert(old.free_list()[k] != t0);
        }
        Self::lemma_free_frame(old, new);
        assert forall|t: u64, i: int| new.tables().contains_key(t) && 0 <= i < 512 implies #[trigger] new.entry_ok(t, i) by {
            assert(old.entry_ok(t, i));
        }
        assert forall|c: u64| #[trigger] new.parent_map().contains_key(c) implies ({
            let (p, i) = new.parent_map()[c];
            &&& new.tables().contains_key(p)
            &&& new.tables()[p] == new.tables()[c] + 1
            &&& 0 <= i < 512
            &&& is_valid(new.entry(p, i))
            &&& pte_target(new.entry(p, i)) == c
        }) by {
            let (p, i) = old.parent_map()[c];
            assert(old.tables()[p] >= 1);
            assert(p != t0);
        }
        assert(old.tables_ok());
        assert forall|t: u64| #[trigger] new.tables().contains_key(t) implies new.page_ok(t) && new.tables()[t] <= 2 && (new.tables()[t] == 2 <==> new.is_root(t)) by {
        }
        assert(new.tables_ok());
        assert(new.entry(root, vpn2(va)) == old.entry(root, vpn2(va)));
        assert(new.entry(t1, vpn1(va)) == old.entry(t1, vpn1(va)));
        assert(new.entry(t0, vpn0(va)) == pte);
        assert(new.leaf_address(root, va) == Some((t0 + 8 * vpn0(va)) as u64));
        assert forall|rt: int, va2: u64| 0 <= rt < 4 && !same_translation(rt, va2, rs, va) implies
            #[trigger] new.lookup(new.roots()[rt], va2) == old.lookup(old.roots()[rt], va2) by {
            lemma_vpn_bounds(va2);
            let r2 = old.roots()[rt];
            assert(old.tables().contains_key(r2) && old.tables()[r2] == 2);
            assert(old.entry_ok(r2, vpn2(va2)));
            assert(new.entry(r2, vpn2(va2)) == old.entry(r2, vpn2(va2)));
            let e2 = old.entry(r2, vpn2(va2));
            if is_valid(e2) {
                let u1 = pte_target(e2);
                assert(old.tables()[u1] == 1);
                assert(old.entry_ok(u1, vpn1(va2)));
                assert(new.entry(u1, vpn1(va2)) == old.entry(u1, vpn1(va2)));
                let e1 = old.entry(u1, vpn1(va2));
                if is_valid(e1) {
                    let u0 = pte_target(e1);
                    if u0 == t0 && vpn0(va2) == vpn0(va) {
                        old.lemma_leaf_unique(rt, va2, rs, va);
                    }
                    assert(new.entry(u0, vpn0(va2)) == old.entry(u0, vpn0(va2)));
                }
            }
        }
    }

    /// Pushes `page` on the free list, storing the old head in its first word.
    fn free_page(&mut self, page: u64)
        requires
            old(self).region_ok(),
            old(self).free_ok(),
            old(self).page_ok(page),
            !old(self).free_list().contains(page),
        ensures
            final(self).region_ok(),
            final(self).free_ok(),
            final(self).free_list() == seq![page].add(old(self).free_list()),
            final(self).roots() == old(self).roots(),
            final(self).tables() == old(self).tables(),
            final(self).parent_map() == old(self).parent_map(),
            final(self).memory().spec_base() == old(self).memory().spec_base(),
            final(self).memory().spec_len() == old(self).memory().spec_len(),
            final(self).memory().spec_ptr() == old(self).memory().spec_ptr(),
            forall|t: u64, i: int|
                old(self).page_ok(t) && 0 <= i < 512 ==> #[trigger] final(self).entry(t, i) == (if t == page && i == 0 {
                    old(self).free_list_head
                } else {
                    old(self).entry(t, i)
                }),
    {
        let ghost old_self = *self;
        proof {
            old_self.lemma_entry_slot(page, 0);
            assert((page + 8 * 0) as u64 == page);
            lemma_page_aligned_bit0(page);
            if old_self.free_list().len() > 0 {
                lemma_page_aligned_bit0(old_self.free_list()[0]);
            }
        }
        self.region.set_invalid_pte(page, self.free_list_head);
        self.free_list_head = page;
        self.free_pages = Ghost(seq![page].add(self.free_pages@));
        proof {
            assert((page + 8 * 0) as u64 == page);
            Self::lemma_store_entry(&old_self, self, page, 0, old_self.free_list_head);
            let f = self.free_list();
            assert forall|k: int| 0 <= k < f.len() implies #[trigger] self.word(f[k]) == (if k + 1 < f.len() {
                f[k + 1]
            } else {
                NULL_PAGE_PTR
            }) by {
                assert(self.entry(f[k], 0) == self.word(f[k]));
                if k > 0 {
                    assert(f[k] == old_self.free_list()[k - 1]);
                    assert(old_self.entry(f[k], 0) == old_self.word(f[k]));
                }
            }
            assert forall|j: int, k: int| 0 <= j < k < f.len() implies f[j] != f[k] by {
                if j == 0 {
                    assert(old_self.free_list()[k - 1] == f[k]);
                }
            }
        }
    }

    /// Pops the head of the free list and fills the page with zeros.
    fn alloc_page(&mut self) -> (r: u64)
        requires
            old(self).region_ok(),
            old(self).free_ok(),
            old(self).free_list().len() > 0,
        ensures
            r == old(self).free_list()[0],
            old(self).page_ok(r),
            final(self).region_ok(),
            final(self).free_ok(),
            final(self).free_list() == old(self).free_list().drop_first(),
            final(self).roots() == old(self).roots(),
            final(self).tables() == old(self).tables(),
            final(self).parent_map() == old(self).parent_map(),
            final(self).memory().spec_base() == old(self).memory().spec_base(),
            final(self).memory().spec_len() == old(self).memory().spec_len(),
            final(self).memory().spec_ptr() == old(self).memory().spec_ptr(),
            final(self).table_region().spec_end_pa() == old(self).table_region().spec_end_pa(),
            forall|t: u64, i: int|
                old(self).page_ok(t) && 0 <= i < 512 ==> #[trigger] final(self).entry(t, i) == (if t == r {
                    0
                } else {
                    old(self).entry(t, i)
                }),
    {
        let ghost old_self = *self;
        let free = self.free_list_head;
        proof {
            old_self.lemma_entry_slot(free, 0);
            assert((free + 8 * 0) as u64 == free);
            old_self.region.lemma_wf();
            old_self.memory().lemma_wf();
        }
        self.free_list_head = self.region.index(free);
        self.free_pages = Ghost(self.free_pages@.drop_first());
        let ghost mid = *self;
        let mut addr = free;
        let mut k: u64 = 0;
        while addr < free + PAGE_SIZE
            invariant
                old_self.region_ok(),
                old_self.page_ok(free),
                self.region_ok(),
                addr == free + 8 * k,
                k <= 512,
                free + 4096 <= u64::MAX,
                self.memory().spec_base() == old_self.memory().spec_base(),
                self.memory().spec_len() == old_self.memory().spec_len(),
                self.memory().spec_ptr() == old_self.memory().spec_ptr(),
                self.region.spec_end_pa() == old_self.region.spec_end_pa(),
                self.free_list() == mid.free_list(),
                self.free_list_head == mid.free_list_head,
                self.roots() == old_self.roots(),
                self.tables() == old_self.tables(),
                self.parent_map() == old_self.parent_map(),
                forall|t: u64, i: int|
                    old_self.page_ok(t) && 0 <= i < 512 ==> #[trigger] self.entry(t, i) == (if t == free && i < k {
                        0
                    } else {
                        old_self.entry(t, i)
                    }),
            decreases 512 - k,
        {
            let ghost before = *self;
            proof {
                before.lemma_entry_slot(free, k as int);
                assert((free + 8 * k) as u64 == addr);
                lemma_page_aligned_bit0(free);
            }
            self.region.set_invalid_pte(addr, 0);
            proof {
                Self::lemma_store_entry(&before, self, free, k as int, 0);
            }
            addr = addr + 8;
            k = k + 1;
        }
        proof {
            let f = self.free_list();
            let f0 = old_self.free_list();
            assert forall|j: int| 0 <= j < f.len() implies #[trigger] self.entry(f[j], 0) == old_self.entry(f[j], 0) by {
                assert(f[j] == f0[j + 1]);
                assert(f0[0] != f0[j + 1]);
            }
            assert(old_self.entry(f0[0], 0) == old_self.word(f0[0]));
            assert forall|k2: int| 0 <= k2 < f.len() implies #[trigger] self.word(f[k2]) == (if k2 + 1 < f.len() {
                f[k2 + 1]
            } else {
                NULL_PAGE_PTR
            }) by {
                assert(f[k2] == f0[k2 + 1]);
                assert(f0[0] != f0[k2 + 1]);
                assert(self.entry(f[k2], 0) == self.word(f[k2]));
                assert(old_self.entry(f[k2], 0) == old_self.word(f[k2]));
            }
            assert forall|j: int, k2: int| 0 <= j < k2 < f.len() implies f[j] != f[k2] by {
                assert(f[j] == f0[j + 1] && f[k2] == f0[k2 + 1]);
            }
        }
        free
    }

    proof fn lemma_entry_slot(&self, t: u64, i: int)
        requires
            self.region_ok(),
            self.page_ok(t),
            0 <= i < 512,
        ensures
            self.memory().valid_index((t + 8 * i) as u64),
            self.slot_of(t, i) == 512 * self.page_number(t) + i,
            0 <= self.slot_of(t, i) < self.memory()@.len(),
            0 <= self.page_number(t),
            512 * self.page_number(t) + 512 <= self.memory()@.len(),
    {
        let b = self.memory().spec_base() as int;
        let l = self.memory().spec_len() as int;
        self.region.lemma_wf();
        self.memory().lemma_wf();
        self.region.lemma_wf();
        let q = self.page_number(t);
        assert((t as int - b) % 4096 == 0);
        assert(t as int - b == 4096 * q);
        assert((t + 8 * i - b) / 8 == 512 * q + i);
        assert(self.memory()@.len() * 8 == l);
        assert(t + 8 * i - b < l);
        assert((t + 8 * i) as u64 % 8 == 0);
        self.memory().lemma_slot((t + 8 * i) as u64);
    }
}

/// Every usable page is clear of the range it was chosen to avoid.
proof fn lemma_usable_pages_avoid(start: u64, k: nat, initrd_start: u64, initrd_end: u64)
    ensures
        forall|j: int| 0 <= j < usable_pages(start, k, initrd_start, initrd_end).len() ==>
            #[trigger] usable_pages(start, k, initrd_start, initrd_end)[j] + 4096 <= initrd_start
            || usable_pages(start, k, initrd_start, initrd_end)[j] >= initrd_end,
    decreases k,
{
    if k > 0 {
        lemma_usable_pages_avoid(start, (k - 1) as nat, initrd_start, initrd_end);
        let u = usable_pages(start, k, initrd_start, initrd_end);
        let rest = usable_pages(start, (k - 1) as nat, initrd_start, initrd_end);
        let p = (start + 4096 * (k - 1)) as u64;
        if p + 4096 <= initrd_start || p >= initrd_end {
            assert forall|j: int| 0 <= j < u.len() implies #[trigger] u[j] + 4096 <= initrd_start || u[j] >= initrd_end by {
                if j > 0 {
                    assert(u[j] == rest[j - 1]);
                }
            }
        }
    }
}

proof fn lemma_usable_pages_bounds(start: u64, k: nat, initrd_start: u64, initrd_end: u64)
    requires
        start % 4096 == 0,
        start + 4096 * k <= u64::MAX,
    ensures
        ({
            let u = usable_pages(start, k, initrd_start, initrd_end);
            &&& u.len() <= k
            &&& forall|j: int| 0 <= j < u.len() ==> start <= #[trigger] u[j] && u[j] + 4096 <= start + 4096 * k && u[j] % 4096 == 0
            &&& forall|j1: int, j2: int| 0 <= j1 < j2 < u.len() ==> u[j1] > u[j2]
        }),
    decreases k,
{
    if k > 0 {
        lemma_usable_pages_bounds(start, (k - 1) as nat, initrd_start, initrd_end);
        let u = usable_pages(start, k, initrd_start, initrd_end);
        let rest = usable_pages(start, (k - 1) as nat, initrd_start, initrd_end);
        let p = (start + 4096 * (k - 1)) as u64;
        assert(p % 4096 == 0);
        if p + 4096 <= initrd_start || p >= initrd_end {
            assert forall|j: int| 0 <= j < u.len() implies start <= #[trigger] u[j] && u[j] + 4096 <= start + 4096 * k && u[j] % 4096 == 0 by {
                if j > 0 {
                    assert(u[j] == rest[j - 1]);
                }
            }
            assert forall|j1: int, j2: int| 0 <= j1 < j2 < u.len() implies u[j1] > u[j2] by {
                assert(u[j2] == rest[j2 - 1]);
                if j1 > 0 {
                    assert(u[j1] == rest[j1 - 1]);
                }
            }
        }
    }
}

/// A valid entry of an interior table points to a table; a pointer built from a page address
/// points back to that page.
proof fn lemma_pointer_bits(e: u64)
    ensures
        is_table_pointer(e) ==> is_valid(e),
        (e & 1 != 0) == is_valid(e),
{
    assert(e & 0xf == 1 ==> e & 1 != 0) by (bit_vector);
}

proof fn lemma_page_pointer(page: u64, end: u64)
    requires
        page % 4096 == 0,
        page < end,
    ensures
        is_table_pointer((page >> 2u64) | PTE_VALID),
        is_valid((page >> 2u64) | PTE_VALID),
        pte_target((page >> 2u64) | PTE_VALID) == page,
{
    assert(page % 4096 == 0 ==> ((page >> 2u64) | 1u64) & 0xf == 1
        && ((((page >> 2u64) | 1u64) >> 10u64) << 12u64) == page
        && ((page >> 2u64) | 1u64) & 1 != 0) by (bit_vector);
}

proof fn lemma_vpn_bounds(va: u64)
    ensures
        0 <= vpn2(va) < 512,
        0 <= vpn1(va) < 512,
        0 <= vpn0(va) < 512,
{
    assert((va >> 30u64) & 0x1ff < 512 && (va >> 21u64) & 0x1ff < 512 && (va >> 12u64) & 0x1ff < 512) by (bit_vector);
}

proof fn lemma_vpn_shifts(va: u64)
    ensures
        (va >> 30u64) & 0x1ff == vpn2(va),
        (va >> 21u64) & 0x1ff == vpn1(va),
        (va >> 12u64) & 0x1ff == vpn0(va),
{
}

proof fn lemma_zero_entry()
    ensures
        !is_valid(0),
        !is_table_pointer(0),
{
    assert(0u64 & 1 == 0 && 0u64 & 0xf == 0) by (bit_vector);
}

/// Page addresses have a clear valid bit.
proof fn lemma_page_aligned_bit0(p: u64)
    requires
        p % 4096 == 0,
    ensures
        p & 1 == 0,
        0u64 & 1 == 0,
        NULL_PAGE_PTR & 1 == 0,
{
    assert((p % 4096 == 0 ==> p & 1 == 0) && 0u64 & 1 == 0 && 2u64 & 1 == 0) by (bit_vector);
}


/// Number of root entries below the direct map: the guest's part of each root table.
pub const GUEST_ROOT_ENTRIES: u64 = 0x1f0;

/// Whether `rt` is the root slot of one of the three shadowed guest address spaces (all but
/// guest-physical).
pub open spec fn is_shadow_slot(rt: int) -> bool {
    1 <= rt < 4
}

impl PageTables {
    /// Clearing a root's guest entries affects exactly the translations below that root whose
    /// root entry lies in the cleared range.
    proof fn lemma_passes_root(&self, rt: int, rt2: int, va: u64)
        requires
            self.wf(),
            0 <= rt < 4,
            0 <= rt2 < 4,
        ensures
            self.passes_through(self.roots()[rt], va, self.roots()[rt2], 0, GUEST_ROOT_ENTRIES as int)
                == (rt == rt2 && vpn2(va) < GUEST_ROOT_ENTRIES),
    {
        lemma_vpn_bounds(va);
        let r = self.roots()[rt];
        let p = self.roots()[rt2];
        assert(self.tables()[p] == 2);
        assert(self.tables()[r] == 2);
        assert(self.entry_ok(r, vpn2(va)));
        let e2 = self.entry(r, vpn2(va));
        if is_valid(e2) {
            assert(self.tables()[pte_target(e2)] == 1);
            let e1 = self.entry(pte_target(e2), vpn1(va));
            assert(self.entry_ok(pte_target(e2), vpn1(va)));
            if is_valid(e1) {
                assert(self.tables()[pte_target(e1)] == 0);
            }
        }
    }
}

/// Whether table `t` of `old` hangs below the guest entries of one of the shadowed roots (user,
/// supervisor, supervisor with user access).
pub open spec fn below_guest_entries(old: &PageTables, t: u64) -> bool {
    exists|rt: int| is_shadow_slot(rt) && #[trigger] old.below(t, old.roots()[rt], 0, GUEST_ROOT_ENTRIES as int)
}

/// The effect of flushing the guest part of the shadowed address spaces: every guest
/// translation of the user, supervisor and supervisor-with-user-access roots is dropped,
/// the tables below their guest entries are put on the free list (behind the pages already
/// free, which stay), and everything else kept.
pub open spec fn flushed(old: &PageTables, new: &PageTables) -> bool {
    &&& new.wf()
    &&& new.roots() == old.roots()
    &&& new.free_list().subrange(new.free_list().len() - old.free_list().len(), new.free_list().len() as int) == old.free_list()
    &&& forall|t: u64| old.tables().contains_key(t) && #[trigger] below_guest_entries(old, t) ==> new.free_list().contains(t)
    &&& new.memory().spec_base() == old.memory().spec_base()
    &&& new.memory().spec_len() == old.memory().spec_len()
    &&& new.memory().spec_ptr() == old.memory().spec_ptr()
    &&& new.table_region().spec_end_pa() == old.table_region().spec_end_pa()
    &&& new.free_list().len() >= old.free_list().len()
    &&& PageTables::pool_kept(old, new)
    &&& forall|rt: int, va: u64| 0 <= rt < 4 ==> #[trigger] new.lookup(new.roots()[rt], va) == (if is_shadow_slot(rt) && vpn2(va) < GUEST_ROOT_ENTRIES {
        0
    } else {
        old.lookup(old.roots()[rt], va)
    })
}

/// A table that survives a clearing hangs below the same entries as before it.
proof fn lemma_below_kept(s0: &PageTables, s1: &PageTables, pa: u64, s: int, e: int, t: u64, pa2: u64, s2: int, e2: int)
    requires
        s0.wf(),
        PageTables::cleared_entries(s0, s1, pa, s, e),
        s1.tables().contains_key(t),
        s0.below(t, pa2, s2, e2),
    ensures
        s1.below(t, pa2, s2, e2),
{
    let pm0 = s0.parent_map();
    let pm1 = s1.parent_map();
    assert(s0.tables_ok());
    assert(s1.tables_ok());
    assert(pm0.contains_key(t));
    assert(s1.tables()[t] == s0.tables()[t]);
    assert(pm1.contains_key(t));
    assert(pm1[t] == pm0[t]);
    let p = pm0[t].0;
    if !(pm0[t].0 == pa2 && s2 <= pm0[t].1 < e2) {
        assert(pm0.contains_key(p));
        assert(s0.tables().contains_key(p));
        if s0.below(p, pa, s, e) {
            if pm0[p].0 == pa && s <= pm0[p].1 < e {
                assert(s0.below(t, pa, s, e));
            } else {
                let g = pm0[p].0;
                assert(pm0.contains_key(g));
                assert(s0.tables()[g] == s0.tables()[p] + 1);
                assert(s0.tables()[p] == s0.tables()[t] + 1);
                assert(false);
            }
        }
        assert(s1.tables().contains_key(p));
        assert(s1.tables()[p] == s0.tables()[p]);
        assert(pm1.contains_key(p));
        assert(pm1[p] == pm0[p]);
    }
}

/// A page still free after a clearing, or freed by it, is free.
proof fn lemma_free_suffix(a: Seq<u64>, b: Seq<u64>, c: Seq<u64>)
    requires
        b.len() >= a.len(),
        c.len() >= b.len(),
        b.subrange(b.len() - a.len(), b.len() as int) == a,
        c.subrange(c.len() - b.len(), c.len() as int) == b,
    ensures
        c.subrange(c.len() - a.len(), c.len() as int) == a,
        forall|t: u64| b.contains(t) ==> c.contains(t),
{
    assert(c.subrange(c.len() - a.len(), c.len() as int) =~= a) by {
        assert forall|k: int| 0 <= k < a.len() implies c.subrange(c.len() - a.len(), c.len() as int)[k] == a[k] by {
            assert(c[c.len() - a.len() + k] == b[b.len() - a.len() + k]);
        }
    }
    assert forall|t: u64| b.contains(t) implies c.contains(t) by {
        let k = choose|k: int| 0 <= k < b.len() && b[k] == t;
        assert(c[c.len() - b.len() + k] == b[k]);
    }
}

/// Drops every guest translation of the three shadowed address spaces (user, supervisor, and
/// supervisor with user access), freeing their tables; guest-physical translations and the
/// hypervisor's own entries are kept. The hart must then drop all its cached translations,
/// which `actions` records.
pub fn flush_shadow_page_table(shadow_page_tables: &mut PageTables, actions: &mut HartActions)
    requires
        old(shadow_page_tables).wf(),
    ensures
        flushed(&*old(shadow_page_tables), &*final(shadow_page_tables)),
        *final(actions) == (HartActions { sfence: true, ..*old(actions) }),
{
    actions.sfence = true;
    let ghost s0 = *shadow_page_tables;
    let uva = shadow_page_tables.root_pa(PageTableRoot::UVA);
    proof {
        assert(s0.tables_ok());
        assert(s0.tables().contains_key(uva));
    }
    shadow_page_tables.clear_page_table_range(uva, 0, GUEST_ROOT_ENTRIES);
    let ghost s1 = *shadow_page_tables;
    let kva = shadow_page_tables.root_pa(PageTableRoot::KVA);
    proof {
        assert(s1.tables_ok());
        assert(s1.tables().contains_key(kva));
    }
    shadow_page_tables.clear_page_table_range(kva, 0, GUEST_ROOT_ENTRIES);
    let ghost s2 = *shadow_page_tables;
    let mva = shadow_page_tables.root_pa(PageTableRoot::MVA);
    proof {
        assert(s2.tables_ok());
        assert(s2.tables().contains_key(mva));
    }
    shadow_page_tables.clear_page_table_range(mva, 0, GUEST_ROOT_ENTRIES);
    proof {
        let s3 = *shadow_page_tables;
        assert forall|rt: int, va: u64| 0 <= rt < 4 implies #[trigger] s3.lookup(s3.roots()[rt], va) == (if is_shadow_slot(rt) && vpn2(va) < GUEST_ROOT_ENTRIES {
            0
        } else {
            s0.lookup(s0.roots()[rt], va)
        }) by {
            s0.lemma_passes_root(rt, 1, va);
            s1.lemma_passes_root(rt, 2, va);
            s2.lemma_passes_root(rt, 3, va);
            assert(s1.lookup(s1.roots()[rt], va) == (if s0.passes_through(s0.roots()[rt], va, uva, 0, GUEST_ROOT_ENTRIES as int) {
                0
            } else {
                s0.lookup(s0.roots()[rt], va)
            }));
            assert(s2.lookup(s2.roots()[rt], va) == (if s1.passes_through(s1.roots()[rt], va, kva, 0, GUEST_ROOT_ENTRIES as int) {
                0
            } else {
                s1.lookup(s1.roots()[rt], va)
            }));
        }
        let g = GUEST_ROOT_ENTRIES as int;
        lemma_free_suffix(s0.free_list(), s1.free_list(), s2.free_list());
        lemma_free_suffix(s0.free_list(), s2.free_list(), s3.free_list());
        lemma_free_suffix(s1.free_list(), s2.free_list(), s3.free_list());
        assert forall|t: u64| s0.tables().contains_key(t) && #[trigger] below_guest_entries(&s0, t) implies s3.free_list().contains(t) by {
            let rt = choose|rt: int| is_shadow_slot(rt) && #[trigger] s0.below(t, s0.roots()[rt], 0, g);
            if s0.below(t, uva, 0, g) {
                assert(s1.free_list().contains(t));
            } else {
                assert(s1.tables().contains_key(t));
                if s1.below(t, kva, 0, g) {
                    assert(s2.free_list().contains(t));
                } else if s0.below(t, kva, 0, g) {
                    lemma_below_kept(&s0, &s1, uva, 0, g, t, kva, 0, g);
                } else {
                    assert(s0.below(t, mva, 0, g));
                    lemma_below_kept(&s0, &s1, uva, 0, g, t, mva, 0, g);
                    assert(s2.tables().contains_key(t));
                    lemma_below_kept(&s1, &s2, kva, 0, g, t, mva, 0, g);
                    assert(s3.free_list().contains(t));
                }
            }
        }
    }
}


/// Every translation of `new` is the one of `old`, or has been dropped.
pub open spec fn only_dropped(old: &PageTables, new: &PageTables) -> bool {
    &&& new.wf()
    &&& new.roots() == old.roots()
    &&& new.memory().spec_base() == old.memory().spec_base()
    &&& new.memory().spec_len() == old.memory().spec_len()
    &&& new.memory().spec_ptr() == old.memory().spec_ptr()
    &&& new.table_region().spec_end_pa() == old.table_region().spec_end_pa()
    &&& forall|rt: int, va: u64| 0 <= rt < 4 ==> {
        ||| #[trigger] new.lookup(new.roots()[rt], va) == old.lookup(old.roots()[rt], va)
        ||| new.lookup(new.roots()[rt], va) == 0
    }
}

/// `va` with its leaf index replaced by `i`.
pub open spec fn with_vpn0(va: u64, i: u64) -> u64 {
    (va & !0x1f_f000u64) | (i << 12u64)
}

proof fn lemma_with_vpn0(va: u64, i: u64)
    requires
        i < 512,
    ensures
        vpn2(with_vpn0(va, i)) == vpn2(va),
        vpn1(with_vpn0(va, i)) == vpn1(va),
        vpn0(with_vpn0(va, i)) == i,
{
    assert(i < 512 ==> (((va & !0x1f_f000u64) | (i << 12u64)) >> 30u64) & 0x1ff == (va >> 30u64) & 0x1ff
        && (((va & !0x1f_f000u64) | (i << 12u64)) >> 21u64) & 0x1ff == (va >> 21u64) & 0x1ff
        && (((va & !0x1f_f000u64) | (i << 12u64)) >> 12u64) & 0x1ff == i) by (bit_vector);
}

/// Guest addresses below the direct map have root entries below the hypervisor's.
proof fn lemma_guest_root_entry(va: u64)
    requires
        spec_is_sv39(va),
        va < DIRECT_MAP_OFFSET,
    ensures
        vpn2(va) < GUEST_ROOT_ENTRIES,
{
    assert(((va >> 38u64) == 0 || (va >> 38u64) == 0x3ff_ffff) && va < 0xffff_fffc_0000_0000u64
        ==> (va >> 30u64) & 0x1ff < 0x1f0) by (bit_vector);
}

impl PageTables {
    /// Entry `i` of the allocated table at `t`.
    #[verifier::spinoff_prover]
    fn read_entry(&self, t: u64, i: u64) -> (r: u64)
        requires
            self.wf(),
            self.tables().contains_key(t),
            i < 512,
        ensures
            r == self.entry(t, i as int),
    {
        proof {
            assert(self.page_ok(t)) by {
                assert(self.tables_ok());
            }
            self.lemma_entry_slot(t, i as int);
        }
        self.region.index(t + i * 8)
    }

    /// Whether the free list holds at least `n` pages.
    fn free_at_least(&self, n: u64) -> (r: bool)
        requires
            self.wf(),
            n <= 2,
        ensures
            r == (self.free_list().len() >= n),
    {
        if n == 0 {
            return true;
        }
        let head = self.free_list_head;
        proof {
            assert(self.free_ok());
            if self.free_list().len() > 0 {
                assert(self.page_ok(self.free_list()[0]));
            }
        }
        if head == NULL_PAGE_PTR {
            return false;
        }
        if n == 1 {
            return true;
        }
        proof {
            self.lemma_entry_slot(head, 0);
            assert((head + 8 * 0) as u64 == head);
            assert(self.word(self.free_list()[0]) == (if 1 < self.free_list().len() {
                self.free_list()[1]
            } else {
                NULL_PAGE_PTR
            }));
            if self.free_list().len() > 1 {
                assert(self.page_ok(self.free_list()[1]));
            }
        }
        let next = self.region.index(head);
        next != NULL_PAGE_PTR
    }

    /// Whether `pte` may be stored as a leaf entry: it is not a table pointer, and the page
    /// it maps lies above the tables' own region.
    pub fn leaf_allowed(&self, pte: u64) -> (r: bool)
        requires
            self.wf(),
        ensures
            r == (pte & 0xf != 0x1 && !self.table_region().spec_inside_region(pte)),
    {
        pte & 0xf != 0x1 && !self.region.inside_region(pte)
    }

    /// Whether the free list holds the tables that completing the path for `va` below `root`
    /// needs.
    pub fn can_map(&self, root: PageTableRoot, va: u64) -> (r: bool)
        requires
            self.wf(),
        ensures
            r == (self.free_list().len() >= self.pages_needed(self.roots()[root_slot(root)], va)),
    {
        let root_pa = self.root_pa(root);
        proof {
            lemma_vpn_bounds(va);
            lemma_vpn_shifts(va);
            assert(self.tables_ok());
            assert(self.tables().contains_key(root_pa));
        }
        let e2 = self.read_entry(root_pa, (va >> 30u64) & 0x1ff);
        proof {
            lemma_pointer_bits(e2);
        }
        let needed: u64 = if e2 & PTE_VALID == 0 {
            2
        } else {
            proof {
                assert(self.entry_ok(root_pa, vpn2(va)));
            }
            let t1 = (e2 >> 10u64) << 12u64;
            let e1 = self.read_entry(t1, (va >> 21u64) & 0x1ff);
            proof {
                lemma_pointer_bits(e1);
            }
            if e1 & PTE_VALID == 0 {
                1
            } else {
                0
            }
        };
        self.free_at_least(needed)
    }

    /// Drops the translation of `va` below `root`, completing its path first. Which further
    /// translations go with it depends on the software bits (8 and 9) of the leaf entry: none,
    /// those of its whole leaf table, or all guest translations below `root`.
    #[verifier::spinoff_prover]
    #[verifier::rlimit(100)]
    fn drop_translation(&mut self, root: PageTableRoot, va: u64)
        requires
            old(self).wf(),
            va < DIRECT_MAP_OFFSET,
            spec_is_sv39(va),
            root != PageTableRoot::MPA,
            old(self).free_list().len() >= old(self).pages_needed(old(self).roots()[root_slot(root)], va),
        ensures
            only_dropped(&*old(self), &*final(self)),
            final(self).lookup(final(self).roots()[root_slot(root)], va) == 0,
            final(self).free_list().len() + 2 >= old(self).free_list().len(),
    {
        let ghost s0 = *self;
        let pte_addr = self.pte_for_addr(root, va);
        let ghost s1 = *self;
        let ghost rs = root_slot(root);
        let ghost root_pa = s1.roots()[rs];
        let ghost t1 = pte_target(s1.entry(root_pa, vpn2(va)));
        let ghost t0 = pte_target(s1.entry(t1, vpn1(va)));
        proof {
            lemma_vpn_bounds(va);
            assert(s1.tables_ok());
            assert(s1.tables().contains_key(root_pa) && s1.tables()[root_pa] == 2);
            s1.lemma_leaf_address(root_pa, va);
            s1.lemma_entry_slot(t0, vpn0(va));
            assert(pte_addr == (t0 + 8 * vpn0(va)) as u64);
            s0.region.lemma_wf();
            s1.region.lemma_wf();
            assert(s1.region.spec_end_pa() == s0.region.spec_end_pa());
        }
        let e = self.region.index(pte_addr);
        let kind = (e >> 8u64) & 0x3;
        proof {
            lemma_zero_entry();
            lemma_page_aligned_bit0(0);
        }
        if kind == 0 {
            self.region.set_invalid_pte(pte_addr, 0);
            proof {
                Self::lemma_store_entry(&s1, self, t0, vpn0(va), 0);
                Self::lemma_store_leaf(&s1, self, rs, va, 0);
                self.region.lemma_wf();
                assert forall|rt: int, va2: u64| 0 <= rt < 4 implies {
                    ||| #[trigger] self.lookup(self.roots()[rt], va2) == s0.lookup(s0.roots()[rt], va2)
                    ||| self.lookup(self.roots()[rt], va2) == 0
                } by {
                    if !same_translation(rt, va2, rs, va) {
                        assert(s1.lookup(s1.roots()[rt], va2) == s0.lookup(s0.roots()[rt], va2));
                    } else {
                        assert(self.lookup(self.roots()[rt], va2) == self.lookup(self.roots()[rs], va));
                    }
                }
            }
        } else if kind == 1 {
            let page = pte_addr & !(PAGE_SIZE - 1);
            proof {
                let k = vpn0(va) as u64;
                assert(t0 % 4096 == 0);
                assert(t0 % 4096 == 0 && k < 512 ==> ((t0 + 8 * k) as u64) & !0xfffu64 == t0) by (bit_vector);
                assert(t0 + 4096 <= s1.memory().spec_base() + s1.memory().spec_len());
            }
            proof {
                assert(s1.page_ok(root_pa));
                assert(s1.page_ok(t1));
            }
            let mut i: u64 = 0;
            proof {
                Self::lemma_zero_leaf_start(&s1, rs, va);
            }
            while i < 512
                invariant
                    i <= 512,
                    page == t0,
                    s1.wf(),
                    0 <= rs < 4,
                    s1.leaf_address(s1.roots()[rs], va) is Some,
                    t0 == pte_target(s1.entry(pte_target(s1.entry(s1.roots()[rs], vpn2(va))), vpn1(va))),
                    Self::zeroed_leaf_prefix(&s1, self, rs, va, i as int),
                decreases 512 - i,
            {
                let ghost prev = *self;
                proof {
                    Self::lemma_zero_leaf_index(&s1, &prev, rs, va, i);
                }
                self.region.set_invalid_pte(page + i * 8, 0);
                proof {
                    Self::lemma_zero_leaf_step(&s1, &prev, self, rs, va, i);
                }
                i = i + 1;
            }
            proof {
                lemma_vpn_bounds(va);
                assert forall|rt: int, va2: u64| 0 <= rt < 4 implies {
                    ||| #[trigger] self.lookup(self.roots()[rt], va2) == s0.lookup(s0.roots()[rt], va2)
                    ||| self.lookup(self.roots()[rt], va2) == 0
                } by {
                    assert(s1.lookup(s1.roots()[rt], va2) == s0.lookup(s0.roots()[rt], va2));
                }
                assert(self.lookup(self.roots()[rs], va) == 0);
            }
        } else {
            let rp = self.root_pa(root);
            self.clear_page_table_range(rp, 0, DIRECT_MAP_PT_INDEX / 8);
            proof {
                lemma_guest_root_entry(va);
                assert forall|rt: int, va2: u64| 0 <= rt < 4 implies #[trigger] s1.passes_through(s1.roots()[rt], va2, rp, 0, GUEST_ROOT_ENTRIES as int)
                    == (rt == rs && vpn2(va2) < GUEST_ROOT_ENTRIES) by {
                    s1.lemma_passes_root(rt, rs, va2);
                }
                assert forall|rt: int, va2: u64| 0 <= rt < 4 implies {
                    ||| #[trigger] self.lookup(self.roots()[rt], va2) == s0.lookup(s0.roots()[rt], va2)
                    ||| self.lookup(self.roots()[rt], va2) == 0
                } by {
                    assert(s1.lookup(s1.roots()[rt], va2) == s0.lookup(s0.roots()[rt], va2));
                    assert(s1.passes_through(s1.roots()[rt], va2, rp, 0, GUEST_ROOT_ENTRIES as int)
                        == (rt == rs && vpn2(va2) < GUEST_ROOT_ENTRIES));
                }
                assert(s1.passes_through(s1.roots()[rs], va, rp, 0, GUEST_ROOT_ENTRIES as int));
            }
        }
    }
}

/// Dropping translations keeps the rest; translations once dropped stay dropped.
proof fn lemma_only_dropped_trans(a: &PageTables, b: &PageTables, c: &PageTables)
    requires
        only_dropped(a, b),
        only_dropped(b, c),
    ensures
        only_dropped(a, c),
{
    assert forall|rt: int, va: u64| 0 <= rt < 4 implies {
        ||| #[trigger] c.lookup(c.roots()[rt], va) == a.lookup(a.roots()[rt], va)
        ||| c.lookup(c.roots()[rt], va) == 0
    } by {
        assert(b.lookup(b.roots()[rt], va) == a.lookup(a.roots()[rt], va) || b.lookup(b.roots()[rt], va) == 0);
        assert(c.lookup(c.roots()[rt], va) == b.lookup(b.roots()[rt], va) || c.lookup(c.roots()[rt], va) == 0);
    }
}

/// The effect of a guest `sfence.vma` whose address operand is register `rs1` of `old`, where
/// the hart does not stop: with no register, every guest translation of the shadowed address
/// spaces is dropped and the hart drops all its cached translations; with an address below the direct map, its translations in the three
/// shadowed address spaces are dropped (with possibly more, as the entries' software bits
/// say) and the hart drops its cached translation of the address; other addresses are
/// ignored.
pub open spec fn sfence_done(old: &Context, new: &Context, rs1: u32) -> bool {
    let va = old.saved_registers.reg(rs1 as int);
    &&& new.same_control(old)
    &&& new.virtio.same(&old.virtio)
    &&& new.saved_registers == old.saved_registers
    &&& new.guest_memory == old.guest_memory
    &&& if rs1 == 0 {
        &&& flushed(&old.shadow_page_tables, &new.shadow_page_tables)
        &&& new.actions == (HartActions { sfence: true, ..old.actions })
    } else if va >= DIRECT_MAP_OFFSET {
        &&& new.shadow_page_tables == old.shadow_page_tables
        &&& new.actions == old.actions
    } else {
        &&& only_dropped(&old.shadow_page_tables, &new.shadow_page_tables)
        &&& forall|rt: int| 1 <= rt < 4 ==> #[trigger] new.shadow_page_tables.lookup(new.shadow_page_tables.roots()[rt], va) == 0
        &&& new.actions == (HartActions { sfence_va: Some(va), ..old.actions })
    }
}

/// Drops the translation of `va` below `root`; returns false, changing nothing, where the free
/// list is too short to complete its path.
fn drop_guest_translation(state: &mut Context, root: PageTableRoot, va: u64) -> (r: bool)
    requires
        old(state).shadow_page_tables.wf(),
        va < DIRECT_MAP_OFFSET,
        spec_is_sv39(va),
        root != PageTableRoot::MPA,
    ensures
        r ==> only_dropped(&old(state).shadow_page_tables, &final(state).shadow_page_tables),
        r ==> final(state).shadow_page_tables.lookup(final(state).shadow_page_tables.roots()[root_slot(root)], va) == 0,
        r ==> final(state).shadow_page_tables.free_list().len() + 2 >= old(state).shadow_page_tables.free_list().len(),
        !r ==> final(state).shadow_page_tables == old(state).shadow_page_tables,
        old(state).shadow_page_tables.free_list().len() >= 2 ==> r,
        final(state).same_control(&*old(state)),
        final(state).virtio == old(state).virtio,
        final(state).saved_registers == old(state).saved_registers,
        final(state).guest_memory == old(state).guest_memory,
        final(state).actions == old(state).actions,
{
    if !state.shadow_page_tables.can_map(root, va) {
        return false;
    }
    state.shadow_page_tables.drop_translation(root, va);
    true
}

/// Emulates the guest's `sfence.vma` instruction `instruction`.
pub fn handle_sfence_vma(state: &mut Context, instruction: riscv_decode::types::RType)
    requires
        old(state).wf(),
        old(state).actions.halt is None,
    ensures
        ({
            let rs1 = rs1_of(instruction.0);
            let va = old(state).saved_registers.reg(rs1 as int);
            if rs1 != 0 && va < DIRECT_MAP_OFFSET && !spec_is_sv39(va) {
                final(state).actions.halt == Some(Halt::Unsupported)
            } else {
                &&& final(state).actions.halt is None || final(state).actions.halt == Some(Halt::PageTablesFull)
                &&& old(state).shadow_page_tables.free_list().len() >= 6 ==> final(state).actions.halt is None
                &&& final(state).actions.halt is None ==> final(state).wf() && sfence_done(&*old(state), &*final(state), rs1)
            }
        }),
{
    let ghost s0 = *state;
    let rs1 = instruction.rs1();
    proof {
        lemma_register_fields(instruction.0);
    }
    if rs1 == 0 {
        flush_shadow_page_table(&mut state.shadow_page_tables, &mut state.actions);
    } else {
        let va = state.saved_registers.get(rs1);
        if va < DIRECT_MAP_OFFSET {
            if !is_sv39(va) {
                state.actions.halt = Some(Halt::Unsupported);
                return;
            }
            let ghost p0 = state.shadow_page_tables;
            if !drop_guest_translation(state, PageTableRoot::UVA, va) {
                state.actions.halt = Some(Halt::PageTablesFull);
                return;
            }
            let ghost p1 = state.shadow_page_tables;
            if !drop_guest_translation(state, PageTableRoot::KVA, va) {
                state.actions.halt = Some(Halt::PageTablesFull);
                return;
            }
            let ghost p2 = state.shadow_page_tables;
            if !drop_guest_translation(state, PageTableRoot::MVA, va) {
                state.actions.halt = Some(Halt::PageTablesFull);
                return;
            }
            proof {
                let p3 = state.shadow_page_tables;
                lemma_only_dropped_trans(&p0, &p1, &p2);
                lemma_only_dropped_trans(&p0, &p2, &p3);
                assert(p2.lookup(p2.roots()[1], va) == 0);
                assert(p3.lookup(p3.roots()[1], va) == p2.lookup(p2.roots()[1], va) || p3.lookup(p3.roots()[1], va) == 0);
                assert(p3.lookup(p3.roots()[2], va) == p2.lookup(p2.roots()[2], va) || p3.lookup(p3.roots()[2], va) == 0);
                assert(p2.lookup(p2.roots()[1], va) == p1.lookup(p1.roots()[1], va) || p2.lookup(p2.roots()[1], va) == 0);
                assert(forall|rt: int| 1 <= rt < 4 ==> #[trigger] p3.lookup(p3.roots()[rt], va) == 0);
            }
            state.actions.sfence_va = Some(va);
        }
    }
}

impl PageTables {
    /// `cur` is `s1` with the first `i` entries of the leaf table that translates `va` below
    /// root slot `rs` cleared.
    spec fn zeroed_leaf_prefix(s1: &Self, cur: &Self, rs: int, va: u64, i: int) -> bool {
        let t0 = pte_target(s1.entry(pte_target(s1.entry(s1.roots()[rs], vpn2(va))), vpn1(va)));
        &&& cur.wf()
        &&& cur.roots() == s1.roots()
        &&& cur.tables() == s1.tables()
        &&& cur.parent_map() == s1.parent_map()
        &&& cur.free_list() == s1.free_list()
        &&& cur.free_list_head == s1.free_list_head
        &&& cur.memory().spec_base() == s1.memory().spec_base()
        &&& cur.memory().spec_len() == s1.memory().spec_len()
        &&& cur.memory().spec_ptr() == s1.memory().spec_ptr()
        &&& cur.table_region().spec_end_pa() == s1.table_region().spec_end_pa()
        &&& forall|t: u64, j: int| s1.page_ok(t) && 0 <= j < 512 ==> #[trigger] cur.entry(t, j) == (if t == t0 && j < i {
            0
        } else {
            s1.entry(t, j)
        })
        &&& forall|rt: int, va2: u64| 0 <= rt < 4 ==> #[trigger] cur.lookup(cur.roots()[rt], va2) == (if rt == rs
            && vpn2(va2) == vpn2(va) && vpn1(va2) == vpn1(va) && vpn0(va2) < i {
            0
        } else {
            s1.lookup(s1.roots()[rt], va2)
        })
    }

    proof fn lemma_zero_leaf_start(s1: &Self, rs: int, va: u64)
        requires
            s1.wf(),
        ensures
            Self::zeroed_leaf_prefix(s1, s1, rs, va, 0),
    {
    }

    /// The address of entry `i` of the leaf table is a word of the region.
    #[verifier::spinoff_prover]
    #[verifier::rlimit(40)]
    proof fn lemma_zero_leaf_index(s1: &Self, cur: &Self, rs: int, va: u64, i: u64)
        requires
            s1.wf(),
            0 <= rs < 4,
            s1.leaf_address(s1.roots()[rs], va) is Some,
            i < 512,
            Self::zeroed_leaf_prefix(s1, cur, rs, va, i as int),
        ensures
            ({
                let t0 = pte_target(s1.entry(pte_target(s1.entry(s1.roots()[rs], vpn2(va))), vpn1(va)));
                &&& cur.memory().valid_index((t0 + 8 * i) as u64)
                &&& t0 + i * 8 <= u64::MAX
                &&& 0u64 & 1 == 0
            }),
    {
        let root_pa = s1.roots()[rs];
        lemma_vpn_bounds(va);
        assert(s1.tables_ok());
        s1.lemma_leaf_address(root_pa, va);
        let t1 = pte_target(s1.entry(root_pa, vpn2(va)));
        let t0 = pte_target(s1.entry(t1, vpn1(va)));
        assert(cur.page_ok(t0));
        cur.lemma_entry_slot(t0, i as int);
        lemma_page_aligned_bit0(0);
    }

    /// Clearing entry `i` of the leaf table extends the cleared prefix by one.
    #[verifier::spinoff_prover]
    proof fn lemma_zero_leaf_step(s1: &Self, prev: &Self, new: &Self, rs: int, va: u64, i: u64)
        requires
            s1.wf(),
            0 <= rs < 4,
            s1.leaf_address(s1.roots()[rs], va) is Some,
            i < 512,
            Self::zeroed_leaf_prefix(s1, prev, rs, va, i as int),
            ({
                let t0 = pte_target(s1.entry(pte_target(s1.entry(s1.roots()[rs], vpn2(va))), vpn1(va)));
                &&& new.region.wf()
                &&& new.region.spec_end_pa() == prev.region.spec_end_pa()
                &&& new.memory().spec_base() == prev.memory().spec_base()
                &&& new.memory().spec_len() == prev.memory().spec_len()
                &&& new.memory().spec_ptr() == prev.memory().spec_ptr()
                &&& new.memory()@ == prev.memory()@.update(prev.memory().slot((t0 + i * 8) as u64), 0)
            }),
            new.root_page_tables == prev.root_page_tables,
            new.free_list_head == prev.free_list_head,
            new.free_pages == prev.free_pages,
            new.levels == prev.levels,
            new.parents == prev.parents,
        ensures
            Self::zeroed_leaf_prefix(s1, new, rs, va, i + 1),
    {
        let root_pa = s1.roots()[rs];
        lemma_vpn_bounds(va);
        assert(s1.tables_ok());
        s1.lemma_leaf_address(root_pa, va);
        let t1 = pte_target(s1.entry(root_pa, vpn2(va)));
        let t0 = pte_target(s1.entry(t1, vpn1(va)));
        let vai = with_vpn0(va, i);
        lemma_with_vpn0(va, i);
        assert(s1.page_ok(root_pa));
        assert(s1.page_ok(t1));
        assert(root_pa != t0 && t1 != t0);
        assert(prev.entry(root_pa, vpn2(vai)) == s1.entry(root_pa, vpn2(va)));
        assert(prev.entry(t1, vpn1(vai)) == s1.entry(t1, vpn1(va)));
        assert(prev.leaf_address(prev.roots()[rs], vai) is Some);
        prev.lemma_entry_slot(t0, i as int);
        assert((t0 + i * 8) as u64 == (t0 + 8 * i) as u64);
        lemma_zero_entry();
        Self::lemma_store_entry(prev, new, t0, i as int, 0);
        Self::lemma_store_leaf(prev, new, rs, vai, 0);
        assert forall|rt: int, va2: u64| 0 <= rt < 4 implies #[trigger] new.lookup(new.roots()[rt], va2) == (if rt == rs
            && vpn2(va2) == vpn2(va) && vpn1(va2) == vpn1(va) && vpn0(va2) < i + 1 {
            0
        } else {
            s1.lookup(s1.roots()[rt], va2)
        }) by {
            if !same_translation(rt, va2, rs, vai) {
                assert(new.lookup(new.roots()[rt], va2) == prev.lookup(prev.roots()[rt], va2));
            }
        }
    }
}

/// The size of page a leaf entry maps.
#[derive(Copy, Clone, Debug, PartialEq, Eq, Structural)]
pub enum PageTableLevel {
    Level4KB,
    Level2MB,
    Level1GB,
}

/// A page-table entry met during a walk: its address, its value, and the level it sits at.
#[derive(Copy, Clone)]
pub struct Pte {
    pub addr: u64,
    pub value: u64,
    pub level: PageTableLevel,
}

/// The outcome of a successful walk: the entries on the way, and the physical address reached.
pub struct PageTableWalk {
    pub path: PtePath,
    pub pa: u64,
}

/// The leaf entry of a successful translation.
pub struct AddressTranslation {
    pub pte_value: u64,
    pub pte_addr: u64,
    pub guest_pa: u64,
    pub level: PageTableLevel,
}

/// Index of the entry that translates `va` at walk step `step` (0: root table).
pub open spec fn walk_index(va: u64, step: nat) -> u64 {
    if step == 0 {
        (va >> 30u64) & 0x1ff
    } else if step == 1 {
        (va >> 21u64) & 0x1ff
    } else {
        (va >> 12u64) & 0x1ff
    }
}

/// The page size of a leaf met at walk step `step`.
pub open spec fn step_level(step: nat) -> PageTableLevel {
    if step == 0 {
        PageTableLevel::Level1GB
    } else if step == 1 {
        PageTableLevel::Level2MB
    } else {
        PageTableLevel::Level4KB
    }
}

/// The physical address that `va` maps to through leaf `pte` of page size `level`.
pub open spec fn leaf_pa(pte: u64, va: u64, level: PageTableLevel) -> u64 {
    match level {
        PageTableLevel::Level4KB => ((pte >> 10u64) << 12u64) | (va & 0xfff),
        PageTableLevel::Level2MB => ((pte >> 19u64) << 21u64) | (va & 0x1f_ffff),
        PageTableLevel::Level1GB => ((pte >> 28u64) << 30u64) | (va & 0x3fff_ffff),
    }
}

/// Whether entry `pte` ends a walk without a translation: invalid, or writable and not
/// readable.
pub open spec fn walk_fails(pte: u64) -> bool {
    pte & PTE_VALID == 0 || (pte & PTE_WRITE != 0 && pte & PTE_READ == 0)
}

/// Whether entry `pte` is a leaf: readable or executable.
pub open spec fn is_leaf(pte: u64) -> bool {
    pte & (PTE_READ | PTE_EXECUTE) != 0
}

/// The Sv39 walk from step `step`, at table `table`, having gone through `path`: the entries
/// met and the physical address reached, or `None` where an entry cannot be read, is invalid,
/// or no leaf is met within three steps.
pub open spec fn walk_from(memory: MemoryRegion, table: u64, va: u64, step: nat, path: Seq<Pte>) -> Option<(Seq<Pte>, u64)>
    decreases 3 - step,
{
    if step >= 3 {
        None
    } else {
        let addr = (table + walk_index(va, step) * 8) as u64;
        if !memory.valid_index(addr) {
            None
        } else {
            let pte = memory.at(addr);
            let path2 = path.push(Pte { addr, value: pte, level: step_level(step) });
            if walk_fails(pte) {
                None
            } else if is_leaf(pte) {
                Some((path2, leaf_pa(pte, va, step_level(step))))
            } else {
                walk_from(memory, pte_target(pte), va, step + 1, path2)
            }
        }
    }
}

/// The Sv39 translation of `va` through the tables rooted at `root` in `memory`.
pub open spec fn sv39_walk(memory: MemoryRegion, root: u64, va: u64) -> Option<(Seq<Pte>, u64)> {
    if !spec_is_sv39(va) || root % PAGE_SIZE != 0 {
        None
    } else {
        walk_from(memory, root, va, 0, Seq::empty())
    }
}

/// Walks the Sv39 page tables rooted at physical address `root`, held in `memory`, for `va`.
pub fn walk_page_table(root: u64, va: u64, memory: &MemoryRegion) -> (r: Option<PageTableWalk>)
    requires
        memory.wf(),
    ensures
        match sv39_walk(*memory, root, va) {
            None => r is None,
            Some((path, pa)) => r matches Some(w) && pte_path_items(w.path) == path && w.pa == pa,
        },
{
    if !is_sv39(va) || root % PAGE_SIZE != 0 {
        return None;
    }
    let mut path = pte_path_new();
    let mut page_table = root;
    let mut level: usize = 0;
    while level < 3
        invariant
            memory.wf(),
            level <= 3,
            page_table % 4096 == 0,
            pte_path_items(path).len() == level,
            sv39_walk(*memory, root, va) == walk_from(*memory, page_table, va, level as nat, pte_path_items(path)),
        decreases 3 - level,
    {
        let shift: u64 = if level == 0 {
            30
        } else if level == 1 {
            21
        } else {
            12
        };
        let pte_index = (va >> shift) & 0x1ff;
        proof {
            lemma_walk_address(page_table, va >> shift);
        }
        let pte_addr = page_table + pte_index * 8;
        let pte = match memory.get(pte_addr) {
            Some(v) => v,
            None => {
                return None;
            },
        };
        let lv = if level == 0 {
            PageTableLevel::Level1GB
        } else if level == 1 {
            PageTableLevel::Level2MB
        } else {
            PageTableLevel::Level4KB
        };
        pte_path_push(&mut path, Pte { addr: pte_addr, value: pte, level: lv });
        if pte & PTE_VALID == 0 || ((pte & PTE_WRITE) != 0 && (pte & PTE_READ) == 0) {
            return None;
        } else if pte & (PTE_READ | PTE_EXECUTE) != 0 {
            let pa = match lv {
                PageTableLevel::Level4KB => ((pte >> 10u64) << 12u64) | (va & 0xfff),
                PageTableLevel::Level2MB => ((pte >> 19u64) << 21u64) | (va & 0x1f_ffff),
                PageTableLevel::Level1GB => ((pte >> 28u64) << 30u64) | (va & 0x3fff_ffff),
            };
            return Some(PageTableWalk { path, pa });
        } else {
            page_table = (pte >> 10u64) << 12u64;
            proof {
                lemma_target_aligned(pte);
            }
        }
        level = level + 1;
    }
    None
}

proof fn lemma_walk_address(table: u64, x: u64)
    requires
        table % 4096 == 0,
    ensures
        x & 0x1ff < 512,
        table + (x & 0x1ff) * 8 <= u64::MAX,
{
    assert(x & 0x1ff < 512 && (table % 4096 == 0 ==> table <= 0xffff_ffff_ffff_f000u64)) by (bit_vector);
}

proof fn lemma_target_aligned(pte: u64)
    ensures
        ((pte >> 10u64) << 12u64) % 4096 == 0,
{
    assert(((pte >> 10u64) << 12u64) % 4096 == 0) by (bit_vector);
}

/// Translates guest virtual address `addr` through the guest's page tables rooted at
/// `root_page_table` in guest memory, returning the leaf entry met and the guest physical
/// address reached.
pub fn translate_guest_address(guest_memory: &MemoryRegion, root_page_table: u64, addr: u64) -> (r: Option<AddressTranslation>)
    requires
        guest_memory.wf(),
    ensures
        match sv39_walk(*guest_memory, root_page_table, addr) {
            None => r is None,
            Some((path, pa)) => r matches Some(t) && {
                let last = path[path.len() - 1];
                &&& t.pte_value == last.value
                &&& t.pte_addr == last.addr
                &&& t.level == last.level
                &&& t.guest_pa == pa
            },
        },
{
    match walk_page_table(root_page_table, addr, guest_memory) {
        None => None,
        Some(t) => {
            let n = pte_path_len(&t.path);
            proof {
                lemma_walk_path_nonempty(*guest_memory, root_page_table, addr);
            }
            let last = pte_path_get(&t.path, n - 1);
            Some(AddressTranslation { pte_value: last.value, pte_addr: last.addr, level: last.level, guest_pa: t.pa })
        },
    }
}

proof fn lemma_walk_from_nonempty(memory: MemoryRegion, table: u64, va: u64, step: nat, path: Seq<Pte>)
    ensures
        walk_from(memory, table, va, step, path) matches Some((p, _)) ==> p.len() > path.len(),
    decreases 3 - step,
{
    if step < 3 {
        let addr = (table + walk_index(va, step) * 8) as u64;
        let pte = memory.at(addr);
        let path2 = path.push(Pte { addr, value: pte, level: step_level(step) });
        lemma_walk_from_nonempty(memory, pte_target(pte), va, step + 1, path2);
    }
}

proof fn lemma_walk_path_nonempty(memory: MemoryRegion, root: u64, va: u64)
    ensures
        sv39_walk(memory, root, va) matches Some((p, _)) ==> p.len() > 0,
{
    lemma_walk_from_nonempty(memory, root, va, 0, Seq::empty());
}

proof fn lemma_walk_from_in_memory(memory: MemoryRegion, table: u64, va: u64, step: nat, path: Seq<Pte>)
    requires
        forall|k: int| 0 <= k < path.len() ==> memory.valid_index(#[trigger] path[k].addr)
            && path[k].value == memory.at(path[k].addr),
    ensures
        walk_from(memory, table, va, step, path) matches Some((p, _)) ==> forall|k: int| 0 <= k < p.len() ==>
            memory.valid_index(#[trigger] p[k].addr) && p[k].value == memory.at(p[k].addr),
    decreases 3 - step,
{
    if step < 3 {
        let addr = (table + walk_index(va, step) * 8) as u64;
        if memory.valid_index(addr) {
            let pte = memory.at(addr);
            let path2 = path.push(Pte { addr, value: pte, level: step_level(step) });
            assert forall|k: int| 0 <= k < path2.len() implies memory.valid_index(#[trigger] path2[k].addr)
                && path2[k].value == memory.at(path2[k].addr) by {
                if k < path.len() {
                    assert(path2[k] == path[k]);
                }
            }
            lemma_walk_from_in_memory(memory, pte_target(pte), va, step + 1, path2);
        }
    }
}

/// The entries a walk reads are words of the memory it walks.
pub proof fn lemma_walk_in_memory(memory: MemoryRegion, root: u64, va: u64)
    ensures
        sv39_walk(memory, root, va) matches Some((p, _)) ==> p.len() > 0
            && forall|k: int| 0 <= k < p.len() ==> memory.valid_index(#[trigger] p[k].addr) && p[k].value == memory.at(p[k].addr),
{
    lemma_walk_path_nonempty(memory, root, va);
    lemma_walk_from_in_memory(memory, root, va, 0, Seq::empty());
}

/// The 64-bit word at guest virtual address `guest_va`, translated through the guest page
/// tables whose root has page number `page_table_ppn`; `None` where the page is unmapped or the
/// word lies outside guest memory.
pub open spec fn spec_read64(guest_memory: MemoryRegion, page_table_ppn: u64, guest_va: u64) -> Option<u64> {
    match sv39_walk(guest_memory, page_table_ppn << 12u64, guest_va & !0xfffu64) {
        None => None,
        Some((_, pa)) => {
            let guest_pa = (pa & !0xfffu64) | (guest_va & 0xfff);
            if guest_memory.valid_index(guest_pa) {
                Some(guest_memory.at(guest_pa))
            } else {
                None
            }
        },
    }
}

/// Reads the 64-bit word at guest virtual address `guest_va`, translated through the guest
/// page tables whose root has page number `page_table_ppn`.
pub fn read64(guest_memory: &MemoryRegion, page_table_ppn: u64, guest_va: u64) -> (r: Option<u64>)
    requires
        guest_memory.wf(),
    ensures
        r == spec_read64(*guest_memory, page_table_ppn, guest_va),
{
    let guest_page = guest_va & !0xfffu64;
    if let Some(page_translation) = translate_guest_address(guest_memory, page_table_ppn << 12u64, guest_page) {
        let guest_pa = (page_translation.guest_pa & !0xfffu64) | (guest_va & 0xfff);
        return guest_memory.get(guest_pa);
    }
    None
}

proof fn lemma_page_offset_unique(a: int, b: int, i: int, j: int)
    requires
        a % 4096 == 0,
        b % 4096 == 0,
        0 <= i < 512,
        0 <= j < 512,
        a + 8 * i == b + 8 * j,
    ensures
        a == b,
        i == j,
{
    assert(a == b) by (nonlinear_arith)
        requires
            a % 4096 == 0,
            b % 4096 == 0,
            0 <= i < 512,
            0 <= j < 512,
            a + 8 * i == b + 8 * j,
    {
        let qa = a / 4096;
        let qb = b / 4096;
        assert(a == 4096 * qa);
        assert(b == 4096 * qb);
    }
}


/// Entry `i` of the boot page table of the hart whose table lies at `base_pa`: entry 511
/// points to the second page (the next-level table), entry 512 maps the first gigabyte of
/// hypervisor memory, entries 513.. map further 2 MB pages of it, and entries 496..503 map the
/// first 8 GB of physical memory in the direct map.
pub open spec fn boot_pte(base_pa: u64, i: int) -> u64 {
    if i == 511 {
        ((base_pa + 4096) as u64 >> 2u64) | 0x01
    } else if i == 512 {
        0x2000_0000u64 | 0xcbu64
    } else if i >= 513 {
        ((0x2000_0000 + (((i - 512) as u64) << 19u64)) as u64) | 0xc7u64
    } else if 496 <= i < 504 {
        (((i - 496) as u64) << 28u64) | PTE_AD | PTE_RWXV
    } else {
        0u64
    }
}

/// Builds the minimal page table with which a hart boots into supervisor mode.
pub fn make_boot_page_table(base_pa: u64) -> (r: [u64; 1024])
    requires
        base_pa + 4096 <= u64::MAX,
    ensures
        forall|i: int| 0 <= i < 1024 ==> r@[i] == #[trigger] boot_pte(base_pa, i),
{
    let mut table = [0u64; 1024];
    let mut i: u64 = 0;
    while i < 1024
        invariant
            i <= 1024,
            base_pa + 4096 <= u64::MAX,
            forall|j: int| 0 <= j < i ==> table@[j] == #[trigger] boot_pte(base_pa, j),
        decreases 1024 - i,
    {
        let v: u64 = if i == 511 {
            ((base_pa + 4096) >> 2u64) | 0x01
        } else if i == 512 {
            0x2000_0000u64 | 0xcbu64
        } else if i >= 513 {
            let d: u64 = i - 512;
            proof {
                assert(d << 19u64 <= 0x0fff_ffffu64) by (bit_vector)
                    requires d < 512u64;
            }
            (0x2000_0000u64 + (d << 19u64)) | 0xc7u64
        } else if i >= DIRECT_MAP_PT_INDEX / 8 && i < DIRECT_MAP_PT_INDEX / 8 + DIRECT_MAP_PAGES {
            ((i - DIRECT_MAP_PT_INDEX / 8) << 28u64) | PTE_AD | PTE_RWXV
        } else {
            0
        };
        table[i as usize] = v;
        i = i + 1;
    }
    table
}

} // verus!
