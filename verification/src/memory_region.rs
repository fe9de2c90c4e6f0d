//! Regions of physical memory addressed by byte address, holding machine words.
use vstd::prelude::*;
use crate::pmap::{va2pa, spec_va2pa, DIRECT_MAP_OFFSET, DIRECT_MAP_LIMIT};

verus! {

/// A machine word that a memory region can hold.
pub trait Word: Copy + Sized {
    /// The all-zero value of the word.
    spec fn spec_zero() -> Self;

    /// The size of the word in bytes.
    spec fn spec_bytes() -> nat;

    fn zero() -> (r: Self)
        ensures
            r == Self::spec_zero(),
    ;

    fn bytes() -> (r: u64)
        ensures
            r as nat == Self::spec_bytes(),
            0 < r <= 8,
    ;
}

impl Word for u64 {
    open spec fn spec_zero() -> u64 {
        0
    }

    open spec fn spec_bytes() -> nat {
        8
    }

    fn zero() -> (r: u64) {
        0
    }

    fn bytes() -> (r: u64) {
        8
    }
}

impl Word for u32 {
    open spec fn spec_zero() -> u32 {
        0
    }

    open spec fn spec_bytes() -> nat {
        4
    }

    fn zero() -> (r: u32) {
        0
    }

    fn bytes() -> (r: u64) {
        4
    }
}

/// A region of `length_bytes` bytes starting at physical address `base_address`, mapped at
/// virtual address `ptr`. It holds `length_bytes / size_of::<T>()` words; a word is addressed by
/// the physical address of its first byte.
pub struct MemoryRegion<T: Word = u64> {
    ptr: u64,
    base_address: u64,
    length_bytes: u64,
    data: Vec<T>,
    /// The stores made to the region since it was created: address and value, in order.
    writes: Ghost<Seq<(u64, T)>>,
}

impl<T: Word> MemoryRegion<T> {
    /// The region's internal consistency: its words exactly cover its bytes, and its last byte
    /// has an address.
    pub closed spec fn wf(&self) -> bool {
        &&& 0 < T::spec_bytes() <= 8
        &&& (self.length_bytes as int) % (T::spec_bytes() as int) == 0
        &&& self.data.len() * T::spec_bytes() == self.length_bytes
        &&& self.base_address + self.length_bytes <= u64::MAX
    }

    /// The physical address of the first byte of the region.
    pub closed spec fn spec_base(&self) -> u64 {
        self.base_address
    }

    /// The length of the region in bytes.
    pub closed spec fn spec_len(&self) -> u64 {
        self.length_bytes
    }

    /// The stores made to the region since it was created, in order: a store of the value a
    /// word already holds is one of them, though it leaves the contents as they were.
    pub closed spec fn stores(&self) -> Seq<(u64, T)> {
        self.writes@
    }

    /// The virtual address at which the region is mapped.
    pub closed spec fn spec_ptr(&self) -> u64 {
        self.ptr
    }

    /// The words of the region, in address order.
    pub closed spec fn view(&self) -> Seq<T> {
        self.data@
    }

    /// Whether `addr` lies inside the region.
    pub open spec fn contains(&self, addr: u64) -> bool {
        self.spec_base() <= addr < self.spec_base() + self.spec_len()
    }

    /// Whether `addr` is the address of a word of the region.
    pub open spec fn valid_index(&self, addr: u64) -> bool {
        &&& (addr as int) % (T::spec_bytes() as int) == 0
        &&& self.contains(addr)
    }

    /// The position in `self@` of the word at address `addr`.
    pub open spec fn slot(&self, addr: u64) -> int {
        (addr - self.spec_base()) / (T::spec_bytes() as int)
    }

    /// The word at address `addr`.
    pub open spec fn at(&self, addr: u64) -> T {
        self@[self.slot(addr)]
    }

    /// `self` is `old` with the word at address `addr` replaced by `value`.
    pub open spec fn is_update(&self, old: &Self, addr: u64, value: T) -> bool {
        &&& self.wf()
        &&& self.spec_base() == old.spec_base()
        &&& self.spec_len() == old.spec_len()
        &&& self.spec_ptr() == old.spec_ptr()
        &&& self@ == old@.update(old.slot(addr), value)
    }

    pub proof fn lemma_wf(&self)
        requires
            self.wf(),
        ensures
            0 < T::spec_bytes() <= 8,
            (self.spec_len() as int) % (T::spec_bytes() as int) == 0,
            self@.len() * T::spec_bytes() == self.spec_len(),
            self.spec_base() + self.spec_len() <= u64::MAX,
    {
    }

    /// The word addresses of a region map one to one onto the positions of its contents.
    pub proof fn lemma_slot(&self, addr: u64)
        requires
            self.wf(),
            self.valid_index(addr),
        ensures
            0 <= self.slot(addr) < self@.len(),
    {
        let b = T::spec_bytes() as int;
        let off = addr - self.spec_base();
        assert(0 <= off / b < self@.len()) by (nonlinear_arith)
            requires
                0 <= off < self@.len() * b,
                b > 0,
        ;
    }

    fn zeroed(n: u64) -> (v: Vec<T>)
        requires
            n <= usize::MAX,
        ensures
            v@ == Seq::new(n as nat, |i: int| T::spec_zero()),
    {
        let mut v: Vec<T> = Vec::new();
        let mut i: u64 = 0;
        while i < n
            invariant
                i <= n <= usize::MAX,
                v@ == Seq::new(i as nat, |k: int| T::spec_zero()),
            decreases n - i,
        {
            v.push(T::zero());
            i = i + 1;
        }
        v
    }

    /// A zero-filled region of `length` bytes mapped at `address` in the direct map; its physical
    /// base address is the one that `address` maps.
    pub fn new(address: u64, length: u64) -> (r: Self)
        requires
            DIRECT_MAP_OFFSET <= address < DIRECT_MAP_LIMIT,
            (length as int) % (T::spec_bytes() as int) == 0,
            spec_va2pa(address) + length <= u64::MAX,
            (length as int) / (T::spec_bytes() as int) <= usize::MAX,
        ensures
            r.wf(),
            r.spec_ptr() == address,
            r.spec_base() == spec_va2pa(address),
            r.spec_len() == length,
            r@ == Seq::new(((length as int) / (T::spec_bytes() as int)) as nat, |i: int| T::spec_zero()),
            r.stores() == Seq::<(u64, T)>::empty(),
    {
        let base_address = va2pa(address);
        Self::with_base_address(address, base_address, length)
    }

    /// A zero-filled region of `length` bytes mapped at `address`, whose first byte has physical
    /// address `base_address`.
    pub fn with_base_address(address: u64, base_address: u64, length: u64) -> (r: Self)
        requires
            (length as int) % (T::spec_bytes() as int) == 0,
            base_address + length <= u64::MAX,
            (length as int) / (T::spec_bytes() as int) <= usize::MAX,
        ensures
            r.wf(),
            r.spec_ptr() == address,
            r.spec_base() == base_address,
            r.spec_len() == length,
            r@ == Seq::new(((length as int) / (T::spec_bytes() as int)) as nat, |i: int| T::spec_zero()),
            r.stores() == Seq::<(u64, T)>::empty(),
    {
        let bytes = T::bytes();
        let n = length / bytes;
        let data = Self::zeroed(n);
        proof {
            let b = bytes as int;
            assert(n * b == length as int) by (nonlinear_arith)
                requires
                    (length as int) % b == 0,
                    n == (length as int) / b,
                    b > 0,
            ;
        }
        MemoryRegion { ptr: address, base_address, length_bytes: length, data, writes: Ghost(Seq::empty()) }
    }

    /// The word at address `index`, or `None` where `index` is not the address of a word of the
    /// region.
    pub fn get(&self, index: u64) -> (r: Option<T>)
        requires
            self.wf(),
        ensures
            r == (if self.valid_index(index) { Some(self.at(index)) } else { None::<T> }),
    {
        let bytes = T::bytes();
        if index % bytes != 0 || index < self.base_address {
            return None;
        }
        let offset = index - self.base_address;
        if offset >= self.length_bytes {
            return None;
        }
        proof {
            self.lemma_slot(index);
        }
        Some(self.data[(offset / bytes) as usize])
    }

    pub fn base(&self) -> (r: u64)
        ensures
            r == self.spec_base(),
    {
        self.base_address
    }

    pub fn len(&self) -> (r: u64)
        ensures
            r == self.spec_len(),
    {
        self.length_bytes
    }

    pub fn in_region(&self, addr: u64) -> (r: bool)
        requires
            self.wf(),
        ensures
            r == self.contains(addr),
    {
        addr >= self.base_address && addr < self.base_address + self.length_bytes
    }

    /// The word at address `index`, which must be the address of a word of the region.
    pub fn index(&self, index: u64) -> (r: T)
        requires
            self.wf(),
            self.valid_index(index),
        ensures
            r == self.at(index),
    {
        proof {
            self.lemma_slot(index);
        }
        let offset = index - self.base_address;
        self.data[(offset / T::bytes()) as usize]
    }

    /// Stores `value` in the word at address `index`, which must be the address of a word of the
    /// region.
    pub fn set(&mut self, index: u64, value: T)
        requires
            old(self).wf(),
            old(self).valid_index(index),
        ensures
            final(self).wf(),
            final(self).spec_base() == old(self).spec_base(),
            final(self).spec_len() == old(self).spec_len(),
            final(self).spec_ptr() == old(self).spec_ptr(),
            final(self)@ == old(self)@.update(old(self).slot(index), value),
            final(self).stores() == old(self).stores().push((index, value)),
    {
        proof {
            self.lemma_slot(index);
        }
        let offset = index - self.base_address;
        let i = (offset / T::bytes()) as usize;
        self.data.set(i, value);
        self.writes = Ghost(self.writes@.push((index, value)));
    }
}

} // verus!

verus! {

/// A region holding page tables. All addresses are physical addresses; the region is mapped
/// in the direct map, and `end_pa` is the physical address just past it.
pub struct PageTableRegion {
    region: MemoryRegion,
    end_pa: u64,
}

/// The physical address of the page that page-table entry `pte` points to.
pub open spec fn pte_target(pte: u64) -> u64 {
    (pte >> 10u64) << 12u64
}

impl PageTableRegion {
    pub closed spec fn wf(&self) -> bool {
        &&& self.region.wf()
        &&& self.region.spec_ptr() % 4096 == 0
        &&& self.region.spec_len() % 4096 == 0
        &&& DIRECT_MAP_OFFSET <= self.region.spec_ptr() < DIRECT_MAP_LIMIT
        &&& self.end_pa == spec_va2pa(self.region.spec_ptr()) + self.region.spec_len()
    }

    /// The memory the page tables live in.
    pub closed spec fn memory(&self) -> MemoryRegion {
        self.region
    }

    /// The physical address just past the region's mapping.
    pub closed spec fn spec_end_pa(&self) -> u64 {
        self.end_pa
    }

    pub proof fn lemma_wf(&self)
        requires
            self.wf(),
        ensures
            self.memory().wf(),
            self.memory().spec_ptr() % 4096 == 0,
            self.memory().spec_len() % 4096 == 0,
            DIRECT_MAP_OFFSET <= self.memory().spec_ptr() < DIRECT_MAP_LIMIT,
            self.spec_end_pa() == spec_va2pa(self.memory().spec_ptr()) + self.memory().spec_len(),
    {
    }

    /// Whether the page that `pte` points to might overlap the region: only its start is
    /// compared, against the end of the region.
    pub open spec fn spec_inside_region(&self, pte: u64) -> bool {
        pte_target(pte) < self.spec_end_pa()
    }

    /// The entry stored at physical address `address`.
    pub open spec fn word(&self, address: u64) -> u64 {
        self.memory().at(address)
    }

    pub fn new(region: MemoryRegion) -> (r: Self)
        requires
            region.wf(),
            region.spec_ptr() % 4096 == 0,
            region.spec_len() % 4096 == 0,
            DIRECT_MAP_OFFSET <= region.spec_ptr() < DIRECT_MAP_LIMIT,
            spec_va2pa(region.spec_ptr()) + region.spec_len() <= u64::MAX,
        ensures
            r.wf(),
            r.memory() == region,
            r.spec_end_pa() == spec_va2pa(region.spec_ptr()) + region.spec_len(),
    {
        let end_pa = va2pa(region.ptr) + region.length_bytes;
        Self { region, end_pa }
    }

    pub(crate) fn inside_region(&self, pte: u64) -> (r: bool)
        ensures
            r == self.spec_inside_region(pte),
    {
        ((pte >> 10u64) << 12u64) < self.end_pa
    }

    /// The entry at physical address `address`, or `None` where that is not the address of a
    /// word of the region.
    pub fn get(&self, address: u64) -> (r: Option<u64>)
        requires
            self.wf(),
        ensures
            r == (if self.memory().valid_index(address) { Some(self.word(address)) } else { None::<u64> }),
    {
        self.region.get(address)
    }

    /// The entry at physical address `address`.
    pub fn index(&self, address: u64) -> (r: u64)
        requires
            self.wf(),
            self.memory().valid_index(address),
        ensures
            r == self.word(address),
    {
        self.region.index(address)
    }

    /// Stores a leaf entry: one that is not a pointer to a next-level table, and whose page
    /// does not overlap the region.
    pub fn set_leaf_pte(&mut self, pte_address: u64, pte_value: u64)
        requires
            old(self).wf(),
            old(self).memory().valid_index(pte_address),
            pte_value & 0xf != 0x1,
            !old(self).spec_inside_region(pte_value),
        ensures
            final(self).wf(),
            final(self).spec_end_pa() == old(self).spec_end_pa(),
            final(self).memory().spec_base() == old(self).memory().spec_base(),
            final(self).memory().spec_len() == old(self).memory().spec_len(),
            final(self).memory().spec_ptr() == old(self).memory().spec_ptr(),
            final(self).memory()@ == old(self).memory()@.update(
                old(self).memory().slot(pte_address),
                pte_value,
            ),
    {
        self.region.set(pte_address, pte_value);
    }

    /// Stores a pointer to a next-level table, which must lie in the region.
    pub fn set_nonleaf_pte(&mut self, pte_address: u64, pte_value: u64)
        requires
            old(self).wf(),
            old(self).memory().valid_index(pte_address),
            pte_value & 0xf == 0x1,
            old(self).spec_inside_region(pte_value),
        ensures
            final(self).wf(),
            final(self).spec_end_pa() == old(self).spec_end_pa(),
            final(self).memory().spec_base() == old(self).memory().spec_base(),
            final(self).memory().spec_len() == old(self).memory().spec_len(),
            final(self).memory().spec_ptr() == old(self).memory().spec_ptr(),
            final(self).memory()@ == old(self).memory()@.update(
                old(self).memory().slot(pte_address),
                pte_value,
            ),
    {
        self.region.set(pte_address, pte_value);
    }

    /// Stores an entry whose valid bit is clear.
    pub fn set_invalid_pte(&mut self, pte_address: u64, pte_value: u64)
        requires
            old(self).wf(),
            old(self).memory().valid_index(pte_address),
            pte_value & 0x1 == 0,
        ensures
            final(self).wf(),
            final(self).spec_end_pa() == old(self).spec_end_pa(),
            final(self).memory().spec_base() == old(self).memory().spec_base(),
            final(self).memory().spec_len() == old(self).memory().spec_len(),
            final(self).memory().spec_ptr() == old(self).memory().spec_ptr(),
            final(self).memory()@ == old(self).memory()@.update(
                old(self).memory().slot(pte_address),
                pte_value,
            ),
    {
        self.region.set(pte_address, pte_value);
    }
}

} // verus!
