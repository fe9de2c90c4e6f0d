//! Bringing up the machine: the checks on the host's device tree and machine description,
//! the choice of the harts that run guests, and what each guest hart is started with.
use vstd::prelude::*;
use crate::fdt::{Fdt, MachineMeta, Hart, be32};
use crate::outside::{hart_items, harts_len, harts_get, device_items, devices_len, devices_get};
use crate::pmap::{HART_SEGMENT_SIZE, HEAP_SIZE, DIRECT_MAP_OFFSET, VM_RESERVATION_SIZE, SYMBOL_PA2VA_OFFSET};
use crate::bits::{STATUS_SIE, STATUS_SPIE, STATUS_SPP, STATUS_MPP_M, STATUS_MPP_S};

verus! {

/// Why another hart is woken: to enter the supervisor with these registers.
#[derive(Copy, Clone, Debug, PartialEq, Eq, Structural)]
pub enum Reason {
    EnterSupervisor { a0: u64, a1: u64, a2: u64, a3: u64, sp: u64, satp: u64, mepc: u64 },
}

/// What a hart waiting for an inter-processor interrupt is asked to do: enter the guest entry
/// point with these registers.
#[derive(Copy, Clone, Debug, PartialEq, Eq, Structural)]
pub enum IpiReason {
    TriggerHartEntry { a0: u64, a1: u64, a2: u64, a3: u64, a4: u64, sp: u64, satp: u64 },
}

/// The address of the statics shared between the harts.
pub struct ConditionalPointer(pub u64);

/// The device tree version the hypervisor reads.
pub const FDT_VERSION: u32 = 17;

/// Whether the host's device tree has the magic number, a compatible version (at least 17,
/// last compatible at most 17) and a size under 64 KB.
pub fn host_fdt_acceptable(fdt: &Fdt) -> (r: bool)
    requires
        fdt.wf(),
    ensures
        r == (be32(fdt@, 0) == 0xd00d_feed && be32(fdt@, 20) >= 17 && be32(fdt@, 24) <= 17
            && be32(fdt@, 4) < 64 * 1024),
{
    fdt.magic_valid() && fdt.version() >= FDT_VERSION && fdt.last_comp_version() <= FDT_VERSION
        && fdt.total_size() < 64 * 1024
}

/// Whether `harts` lists hart `hartid`.
pub open spec fn has_hart(harts: Seq<Hart>, hartid: u64) -> bool {
    exists|i: int| 0 <= i < harts.len() && #[trigger] harts[i].hartid == hartid
}

/// The harts of the first `n` of `harts` other than `hartid`, in order.
pub open spec fn others_upto(harts: Seq<Hart>, hartid: u64, n: int) -> Seq<Hart>
    decreases n,
{
    if n <= 0 {
        Seq::empty()
    } else if harts[n - 1].hartid != hartid {
        others_upto(harts, hartid, n - 1).push(harts[n - 1])
    } else {
        others_upto(harts, hartid, n - 1)
    }
}

/// The harts that run guests: all of them where there is only one, else all but the boot hart
/// `hartid`.
pub open spec fn guest_harts(harts: Seq<Hart>, hartid: u64) -> Seq<Hart> {
    if harts.len() == 1 {
        harts
    } else {
        others_upto(harts, hartid, harts.len() as int)
    }
}

/// The mask of the host interrupts of guest `g`'s devices among the first `j` of its group of
/// four (`4 * (g - 1)` on) in `virtio`; `None` where one of them is 32 or more.
pub open spec fn irq_mask_upto(virtio: Seq<crate::fdt::Device>, g: int, j: int) -> Option<u32>
    decreases j,
{
    if j <= 0 {
        Some(0)
    } else {
        match irq_mask_upto(virtio, g, j - 1) {
            None => None,
            Some(m) => {
                let index = 4 * (g - 1) + j - 1;
                if index < virtio.len() {
                    let irq = virtio[index].irq;
                    if irq >= 32 {
                        None
                    } else {
                        Some(m | (1u32 << irq))
                    }
                } else {
                    Some(m)
                }
            },
        }
    }
}

/// How the boot hart starts guest number `guestid` on hart `hart`.
pub struct GuestLaunch {
    pub hart: Hart,
    pub guestid: u64,
    /// The start of the guest's memory segment.
    pub hart_base_pa: u64,
    /// The host interrupts the hart's interrupt controller context enables.
    pub irq_mask: u32,
    /// The physical address of the context's priority threshold register.
    pub plic_threshold_address: u64,
    /// The physical address of the context's first interrupt enable word.
    pub plic_enable_address: u64,
    /// The physical address of the hart's software interrupt register.
    pub ipi_address: u64,
    /// The registers the hart enters the supervisor with.
    pub reason: Reason,
}

/// The launch of guest `g` on hart `hart` of `machine`, with entry point `entry`; `a3` carries
/// the guest id, or `u64::MAX` where there is only one guest. `None` where an address
/// overflows or a device interrupt is 32 or more.
pub open spec fn spec_launch(machine: &MachineMeta, hart: Hart, g: u64, single_guest: bool, entry: u64) -> Option<GuestLaunch> {
    let base = machine.physical_memory_offset + HART_SEGMENT_SIZE * g;
    let ctx = hart.plic_context;
    let threshold = machine.plic_address + 0x20_0000 + 0x1000 * ctx;
    let enable = machine.plic_address + 0x2000 + 0x80 * ctx;
    let ipi = machine.clint_address + hart.hartid * 4;
    if base + 0x40_0000 + DIRECT_MAP_OFFSET > u64::MAX || threshold > u64::MAX || enable + 4 > u64::MAX
        || ipi > u64::MAX || 4 * g > u64::MAX {
        None
    } else {
        match irq_mask_upto(device_items(machine.virtio), g as int, 4) {
            None => None,
            Some(mask) => Some(GuestLaunch {
                hart,
                guestid: g,
                hart_base_pa: base as u64,
                irq_mask: mask,
                plic_threshold_address: threshold as u64,
                plic_enable_address: enable as u64,
                ipi_address: ipi as u64,
                reason: Reason::EnterSupervisor {
                    a0: hart.hartid,
                    a1: (base + 4096) as u64,
                    a2: base as u64,
                    a3: if single_guest { u64::MAX } else { g },
                    sp: (base + 0x40_0000 + DIRECT_MAP_OFFSET) as u64,
                    satp: ((8u64 << 60u64) | ((base as u64) >> 12u64)),
                    mepc: entry,
                },
            }),
        }
    }
}

/// The launches of the first `n` guest harts, guest ids counting from 1.
pub open spec fn launches_upto(machine: &MachineMeta, guests: Seq<Hart>, entry: u64, n: int) -> Option<Seq<GuestLaunch>>
    decreases n,
{
    if n <= 0 {
        Some(Seq::empty())
    } else {
        match launches_upto(machine, guests, entry, n - 1) {
            None => None,
            Some(s) => match spec_launch(machine, guests[n - 1], n as u64, guests.len() == 1, entry) {
                None => None,
                Some(l) => Some(s.push(l)),
            },
        }
    }
}

/// Whether `machine` passes the boot checks for boot hart `hartid`: the initial ramdisk ends
/// within the first memory segment and fits the heap, the boot hart is listed, and some hart
/// is left for a guest.
pub open spec fn boot_checks(machine: &MachineMeta, hartid: u64) -> bool {
    &&& machine.physical_memory_offset + HART_SEGMENT_SIZE <= u64::MAX
    &&& machine.initrd_end <= machine.physical_memory_offset + HART_SEGMENT_SIZE
    &&& machine.initrd_start <= machine.initrd_end
    &&& machine.initrd_end - machine.initrd_start <= HEAP_SIZE
    &&& has_hart(hart_items(machine.harts), hartid)
    &&& guest_harts(hart_items(machine.harts), hartid).len() != 0
}

/// The launch of guest `g` on `hart`, as `spec_launch` says.
fn launch(machine: &MachineMeta, hart: Hart, g: u64, single_guest: bool, entry: u64) -> (r: Option<GuestLaunch>)
    requires
        g >= 1,
    ensures
        r == spec_launch(machine, hart, g, single_guest, entry),
{
    let ctx = hart.plic_context;
    if g > (u64::MAX - machine.physical_memory_offset) / HART_SEGMENT_SIZE {
        return None;
    }
    let base = machine.physical_memory_offset + HART_SEGMENT_SIZE * g;
    if base > u64::MAX - DIRECT_MAP_OFFSET - 0x40_0000 {
        return None;
    }
    if ctx > (u64::MAX - 0x20_0000) / 0x1000 || machine.plic_address > u64::MAX - 0x20_0000 - 0x1000 * ctx {
        return None;
    }
    if ctx > (u64::MAX - 0x2004) / 0x80 || machine.plic_address > u64::MAX - 0x2004 - 0x80 * ctx {
        return None;
    }
    if hart.hartid > u64::MAX / 4 || machine.clint_address > u64::MAX - hart.hartid * 4 {
        return None;
    }
    if g > u64::MAX / 4 {
        return None;
    }
    let mask = match irq_mask(machine, g) {
        Some(m) => m,
        None => {
            return None;
        },
    };
    Some(GuestLaunch {
        hart,
        guestid: g,
        hart_base_pa: base,
        irq_mask: mask,
        plic_threshold_address: machine.plic_address + 0x20_0000 + 0x1000 * ctx,
        plic_enable_address: machine.plic_address + 0x2000 + 0x80 * ctx,
        ipi_address: machine.clint_address + hart.hartid * 4,
        reason: Reason::EnterSupervisor {
            a0: hart.hartid,
            a1: base + 4096,
            a2: base,
            a3: if single_guest { u64::MAX } else { g },
            sp: base + 0x40_0000 + DIRECT_MAP_OFFSET,
            satp: (8u64 << 60u64) | (base >> 12u64),
            mepc: entry,
        },
    })
}

/// The mask of guest `g`'s host device interrupts, as `irq_mask_upto` says.
fn irq_mask(machine: &MachineMeta, g: u64) -> (r: Option<u32>)
    requires
        1 <= g,
        4 * g <= u64::MAX,
    ensures
        r == irq_mask_upto(device_items(machine.virtio), g as int, 4),
{
    let n = devices_len(&machine.virtio);
    let mut mask: u32 = 0;
    let mut j: u64 = 0;
    while j < 4
        invariant
            j <= 4,
            1 <= g,
            4 * g <= u64::MAX,
            n == device_items(machine.virtio).len(),
            irq_mask_upto(device_items(machine.virtio), g as int, j as int) == Some(mask),
        decreases 4 - j,
    {
        let index = (g - 1) * 4 + j;
        if index < n as u64 {
            let irq = devices_get(&machine.virtio, index as usize).irq;
            if irq >= 32 {
                proof {
                    lemma_irq_mask_none(device_items(machine.virtio), g as int, j + 1, 4);
                }
                return None;
            }
            mask = mask | (1u32 << irq);
        }
        j = j + 1;
    }
    Some(mask)
}

proof fn lemma_irq_mask_none(virtio: Seq<crate::fdt::Device>, g: int, j: int, m: int)
    requires
        0 <= j <= m,
        irq_mask_upto(virtio, g, j) is None,
    ensures
        irq_mask_upto(virtio, g, m) is None,
    decreases m - j,
{
    if j < m {
        lemma_irq_mask_none(virtio, g, j, m - 1);
    }
}

/// The harts that run guests, as `guest_harts` says.
fn select_guest_harts(machine: &MachineMeta, hartid: u64) -> (r: Vec<Hart>)
    ensures
        r@ == guest_harts(hart_items(machine.harts), hartid),
{
    let ghost harts = hart_items(machine.harts);
    let n = harts_len(&machine.harts);
    let mut v: Vec<Hart> = Vec::new();
    if n == 1 {
        v.push(harts_get(&machine.harts, 0));
        assert(v@ =~= harts);
        return v;
    }
    let mut k: usize = 0;
    while k < n
        invariant
            k <= n,
            n == harts.len(),
            harts == hart_items(machine.harts),
            v@ == others_upto(harts, hartid, k as int),
        decreases n - k,
    {
        let h = harts_get(&machine.harts, k);
        if h.hartid != hartid {
            v.push(h);
        }
        k = k + 1;
    }
    v
}

/// Whether `machine` lists hart `hartid`.
fn lists_hart(machine: &MachineMeta, hartid: u64) -> (r: bool)
    ensures
        r == has_hart(hart_items(machine.harts), hartid),
{
    let n = harts_len(&machine.harts);
    let mut k: usize = 0;
    while k < n
        invariant
            k <= n,
            n == hart_items(machine.harts).len(),
            forall|i: int| 0 <= i < k ==> #[trigger] hart_items(machine.harts)[i].hartid != hartid,
        decreases n - k,
    {
        if harts_get(&machine.harts, k).hartid == hartid {
            return true;
        }
        k = k + 1;
    }
    false
}

/// Whether `machine` passes the boot checks for boot hart `hartid`, as `boot_checks` says: the
/// checks the boot hart makes before it plans the guests, where it cannot go on otherwise.
pub fn boot_checks_hold(machine: &MachineMeta, hartid: u64) -> (r: bool)
    ensures
        r == boot_checks(machine, hartid),
{
    if machine.physical_memory_offset > u64::MAX - HART_SEGMENT_SIZE {
        return false;
    }
    if machine.initrd_end > machine.physical_memory_offset + HART_SEGMENT_SIZE {
        return false;
    }
    if machine.initrd_start > machine.initrd_end || machine.initrd_end - machine.initrd_start > HEAP_SIZE {
        return false;
    }
    if !lists_hart(machine, hartid) {
        return false;
    }
    let guests = select_guest_harts(machine, hartid);
    guests.len() != 0
}

/// The plan for starting the guests from boot hart `hartid` of `machine`, which passes the
/// boot checks, whose guest harts enter at `entry`: a launch per guest hart, in order, with
/// guest ids from 1. `None` where a launch cannot be computed.
pub fn plan_guests(machine: &MachineMeta, hartid: u64, entry: u64) -> (r: Option<Vec<GuestLaunch>>)
    requires
        boot_checks(machine, hartid),
    ensures
        r is Some <==> launches_upto(machine, guest_harts(hart_items(machine.harts), hartid), entry,
            guest_harts(hart_items(machine.harts), hartid).len() as int) is Some,
        r matches Some(v) ==> v@ == launches_upto(machine, guest_harts(hart_items(machine.harts), hartid), entry,
            guest_harts(hart_items(machine.harts), hartid).len() as int)->0,
{
    let guests = select_guest_harts(machine, hartid);
    let single_guest = guests.len() == 1;
    let mut launches: Vec<GuestLaunch> = Vec::new();
    let mut k: usize = 0;
    while k < guests.len()
        invariant
            k <= guests@.len(),
            guests@ == guest_harts(hart_items(machine.harts), hartid),
            single_guest == (guests@.len() == 1),
            launches_upto(machine, guests@, entry, k as int) == Some(launches@),
        decreases guests@.len() - k,
    {
        let g = (k + 1) as u64;
        match launch(machine, guests[k], g, single_guest, entry) {
            None => {
                proof {
                    lemma_launches_none(machine, guests@, entry, k + 1, guests@.len() as int);
                }
                return None;
            },
            Some(l) => {
                launches.push(l);
            },
        }
        k = k + 1;
    }
    Some(launches)
}

proof fn lemma_launches_none(machine: &MachineMeta, guests: Seq<Hart>, entry: u64, n: int, m: int)
    requires
        0 <= n <= m,
        launches_upto(machine, guests, entry, n) is None,
    ensures
        launches_upto(machine, guests, entry, m) is None,
    decreases m - n,
{
    if n < m {
        lemma_launches_none(machine, guests, entry, n, m - 1);
    }
}

/// The guest a hart entering the supervisor runs, from the id it was handed: the all-ones id
/// names none in particular (the machine runs a single guest).
pub open spec fn spec_guest_of(guestid: u64) -> Option<u64> {
    if guestid == u64::MAX {
        None
    } else {
        Some(guestid)
    }
}

/// The guest a hart entering the supervisor runs, as `spec_guest_of` says.
pub fn guest_of(guestid: u64) -> (r: Option<u64>)
    ensures
        r == spec_guest_of(guestid),
{
    if guestid == u64::MAX {
        None
    } else {
        Some(guestid)
    }
}

/// What a launch hands a guest hart names its guest: reading the id back gives no guest in
/// particular where there is a single guest hart, and the launch's guest id otherwise.
pub proof fn lemma_launch_guest_ids(machine: &MachineMeta, guests: Seq<Hart>, entry: u64, n: int)
    requires
        0 <= n < u64::MAX,
        launches_upto(machine, guests, entry, n) is Some,
    ensures
        ({
            let l = launches_upto(machine, guests, entry, n)->0;
            forall|k: int| 0 <= k < n ==> spec_guest_of((#[trigger] l[k]).reason->a3)
                == if guests.len() == 1 { None } else { Some(l[k].guestid) }
        }),
    decreases n,
{
    lemma_launch_segments(machine, guests, entry, n);
    if n > 0 {
        lemma_launch_guest_ids(machine, guests, entry, n - 1);
        let l = launches_upto(machine, guests, entry, n)->0;
        let prev = launches_upto(machine, guests, entry, n - 1)->0;
        let last = spec_launch(machine, guests[n - 1], n as u64, guests.len() == 1, entry)->0;
        assert(l == prev.push(last));
        assert forall|k: int| 0 <= k < n implies spec_guest_of((#[trigger] l[k]).reason->a3)
            == if guests.len() == 1 { None } else { Some(l[k].guestid) } by {
            if k < n - 1 {
                assert(l[k] == prev[k]);
            }
        }
    }
}

/// The guests get disjoint memory segments: guest `k + 1` (the launch at position `k`) gets the
/// 1 GB segment `k + 1` segments above the start of memory, so each launch's segment ends
/// before the next one's starts.
pub proof fn lemma_launch_segments(machine: &MachineMeta, guests: Seq<Hart>, entry: u64, n: int)
    requires
        0 <= n <= u64::MAX,
        launches_upto(machine, guests, entry, n) is Some,
    ensures
        ({
            let l = launches_upto(machine, guests, entry, n)->0;
            &&& l.len() == n
            &&& forall|k: int| 0 <= k < n ==> (#[trigger] l[k]).guestid == k + 1
                && l[k].hart_base_pa == machine.physical_memory_offset + HART_SEGMENT_SIZE * (k + 1)
                && l[k].hart == guests[k]
            &&& forall|j: int, k: int| 0 <= j < k < n ==>
                (#[trigger] l[j]).hart_base_pa + HART_SEGMENT_SIZE <= (#[trigger] l[k]).hart_base_pa
        }),
    decreases n,
{
    if n > 0 {
        lemma_launch_segments(machine, guests, entry, n - 1);
        let l = launches_upto(machine, guests, entry, n)->0;
        let prev = launches_upto(machine, guests, entry, n - 1)->0;
        let last = spec_launch(machine, guests[n - 1], n as u64, guests.len() == 1, entry)->0;
        assert(l == prev.push(last));
        assert(last.guestid == n && last.hart == guests[n - 1]);
        assert(last.hart_base_pa == machine.physical_memory_offset + HART_SEGMENT_SIZE * n);
        assert forall|k: int| 0 <= k < n implies (#[trigger] l[k]).guestid == k + 1
            && l[k].hart_base_pa == machine.physical_memory_offset + HART_SEGMENT_SIZE * (k + 1)
            && l[k].hart == guests[k] by {
            if k < n - 1 {
                assert(l[k] == prev[k]);
            }
        }
        assert forall|j: int, k: int| 0 <= j < k < n implies
            (#[trigger] l[j]).hart_base_pa + HART_SEGMENT_SIZE <= (#[trigger] l[k]).hart_base_pa by {
            assert(HART_SEGMENT_SIZE * (j + 1) + HART_SEGMENT_SIZE <= HART_SEGMENT_SIZE * (k + 1)) by (nonlinear_arith)
                requires
                    j < k,
            ;
            assert(l[j].hart_base_pa == machine.physical_memory_offset + HART_SEGMENT_SIZE * (j + 1));
            assert(l[k].hart_base_pa == machine.physical_memory_offset + HART_SEGMENT_SIZE * (k + 1));
        }
    }
}

/// Where the statics shared by the harts are mapped, and how many host harts there can be.
pub const SUPERVISOR_SHARED_STATIC_ADDRESS: u64 = 0xffff_ffff_c020_0000;
pub const MAX_HOST_HARTS: u64 = 16;

/// The guest physical memory of the guest whose segment starts at `hart_base_pa`: where it
/// starts (the start of the host's memory), its size (the segment without the hypervisor's
/// reservation), and how far above its guest address each byte lies in host memory. `None`
/// where the segment is not aligned, lies below the host's memory, or the host's memory does not
/// start at 0x8000_0000.
pub open spec fn spec_guest_layout(hart_base_pa: u64, physical_memory_offset: u64) -> Option<(u64, u64, u64)> {
    if hart_base_pa % HART_SEGMENT_SIZE != 0 || hart_base_pa < physical_memory_offset
        || physical_memory_offset != 0x8000_0000 {
        None
    } else {
        Some((physical_memory_offset, (HART_SEGMENT_SIZE - VM_RESERVATION_SIZE) as u64,
            (VM_RESERVATION_SIZE + hart_base_pa - physical_memory_offset) as u64))
    }
}

/// The guest physical memory of the guest whose segment starts at `hart_base_pa`, as
/// `spec_guest_layout` says.
pub fn guest_layout(hart_base_pa: u64, physical_memory_offset: u64) -> (r: Option<(u64, u64, u64)>)
    ensures
        r == spec_guest_layout(hart_base_pa, physical_memory_offset),
{
    if hart_base_pa % HART_SEGMENT_SIZE != 0 || hart_base_pa < physical_memory_offset
        || physical_memory_offset != 0x8000_0000 {
        return None;
    }
    let size = HART_SEGMENT_SIZE - VM_RESERVATION_SIZE;
    let shift = VM_RESERVATION_SIZE + (hart_base_pa - physical_memory_offset);
    Some((physical_memory_offset, size, shift))
}

/// `mstatus` once a trap is forwarded from M-mode to S-mode: SPIE takes SIE, SPP records
/// whether the trap came from S-mode, SIE is cleared and the previous mode becomes S.
pub open spec fn spec_forwarded_status(status: u64) -> u64 {
    let s1 = if status & STATUS_SIE != 0 { status | STATUS_SPIE } else { status & !STATUS_SPIE };
    let s2 = if status & STATUS_MPP_S != 0 { s1 | STATUS_SPP } else { s1 & !STATUS_SPP };
    (s2 & !(STATUS_SIE | STATUS_MPP_M)) | STATUS_MPP_S
}

/// Forwards a trap taken in M-mode to the supervisor: the new `mstatus`, and the address M-mode
/// returns to, the supervisor's trap vector (its base).
pub fn forward_exception(mstatus: u64, stvec: u64) -> (r: (u64, u64))
    ensures
        r == (spec_forwarded_status(mstatus), stvec & !0x3u64),
{
    let s1 = if mstatus & STATUS_SIE != 0 { mstatus | STATUS_SPIE } else { mstatus & !STATUS_SPIE };
    let s2 = if mstatus & STATUS_MPP_S != 0 { s1 | STATUS_SPP } else { s1 & !STATUS_SPP };
    ((s2 & !(STATUS_SIE | STATUS_MPP_M)) | STATUS_MPP_S, stvec & !0x3u64)
}

/// The boot page tables of the host harts: hart `i`'s table lies 8 KB past hart `i - 1`'s,
/// starting at the physical address of the shared statics.
pub fn make_boot_page_tables_array() -> (r: Vec<[u64; 1024]>)
    ensures
        r@.len() == MAX_HOST_HARTS,
        forall|i: int, j: int| 0 <= i < MAX_HOST_HARTS && 0 <= j < 1024 ==> #[trigger] r@[i]@[j]
            == crate::pmap::boot_pte((SUPERVISOR_SHARED_STATIC_ADDRESS - SYMBOL_PA2VA_OFFSET + 8192 * i) as u64, j),
{
    let base = SUPERVISOR_SHARED_STATIC_ADDRESS - SYMBOL_PA2VA_OFFSET;
    let stride: u64 = 1024 * 8;
    let mut v: Vec<[u64; 1024]> = Vec::new();
    let mut i: u64 = 0;
    while i < MAX_HOST_HARTS
        invariant
            i <= MAX_HOST_HARTS,
            v@.len() == i,
            base == SUPERVISOR_SHARED_STATIC_ADDRESS - SYMBOL_PA2VA_OFFSET,
            stride == 8192,
            forall|k: int, j: int| 0 <= k < i && 0 <= j < 1024 ==> #[trigger] v@[k]@[j]
                == crate::pmap::boot_pte((base + 8192 * k) as u64, j),
        decreases MAX_HOST_HARTS - i,
    {
        v.push(crate::pmap::make_boot_page_table(base + i * stride));
        i = i + 1;
    }
    v
}

/// Runs `f` with access to user memory, and gives what it returns.
pub fn access_user_memory<T, F: Fn() -> T>(f: F) -> (r: T)
    requires
        f.requires(()),
    ensures
        f.ensures((), r),
{
    f()
}

} // verus!
