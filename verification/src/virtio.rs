//! Passthrough of the host's virtio MMIO devices to the guest, with the guest-physical
//! addresses in its queues translated to host-physical ones.
use vstd::prelude::*;
use riscv_decode::Instruction;
use crate::memory_region::MemoryRegion;
use crate::context::{Context, Halt, HartActions};
use crate::outside::{decode, decoded, instruction_length, spec_instruction_length, rd_of, rs2_of, lemma_register_fields,
    word_bytes, word_from_bytes, le_read_u32, le_read_u16, le_read_i32, le_read_i16, le_write_u32, le_write_u16};
use crate::bits::{le_value, le_bytes, overwritten};
use crate::pmap::{flush_shadow_page_table, flushed};

verus! {

pub const MAX_QUEUES: usize = 4;
pub const MAX_DEVICES: usize = 4;

/// A virtqueue of a passthrough device.
#[derive(Copy, Clone)]
pub struct Queue {
    /// Address the guest thinks the queue is mapped at.
    pub guest_pa: u64,
    /// Address the queue is actually mapped at.
    pub host_pa: u64,
    /// Number of entries in the queue.
    pub size: u64,
}

impl Queue {
    /// A queue's guest page number and size come from 32-bit guest stores.
    pub open spec fn wf(&self) -> bool {
        &&& self.guest_pa <= 0xffff_ffff_000
        &&& self.size <= 0xffff_ffff
    }

    /// Whether the guest store or load at `guest_pa` touches the address word of one of the
    /// queue's 16-byte entries.
    pub open spec fn holds_entry_word(&self, guest_pa: u64) -> bool {
        &&& self.guest_pa <= guest_pa < self.guest_pa + self.size * 16
        &&& guest_pa & 0xf < 8
    }
}

/// A virtio device slot of the guest.
pub enum Device {
    Passthrough {
        /// Virtual queue index, register offset 0x30.
        queue_sel: u32,
        queues: [Queue; MAX_QUEUES],
        device_registers: MemoryRegion<u32>,
    },
    Unmapped,
}

impl Device {
    pub open spec fn wf(&self) -> bool {
        match self {
            Device::Passthrough { queue_sel, queues, device_registers } => {
                &&& device_registers.wf()
                &&& device_registers.spec_base() == 0
                &&& device_registers.spec_len() == 0x1000
                &&& *queue_sel < 4
                &&& forall|j: int| 0 <= j < MAX_QUEUES ==> (#[trigger] queues@[j]).wf()
            },
            Device::Unmapped => true,
        }
    }

    /// A passthrough of the host device whose registers are `device_registers` (the 4 KB
    /// register page, at address 0), with no queue set up.
    pub fn new(device_registers: MemoryRegion<u32>) -> (r: Self)
        requires
            device_registers.wf(),
            device_registers.spec_base() == 0,
            device_registers.spec_len() == 0x1000,
        ensures
            r.wf(),
            r matches Device::Passthrough { queue_sel, queues, device_registers: regs } && queue_sel == 0
                && regs == device_registers && forall|i: int| 0 <= i < 4 ==> #[trigger] queues@[i] == (Queue {
                guest_pa: 0,
                host_pa: 0,
                size: 0,
            }),
    {
        Device::Passthrough {
            queue_sel: 0,
            queues: [Queue { guest_pa: 0, host_pa: 0, size: 0 }; MAX_QUEUES],
            device_registers,
        }
    }
}


/// Guest-physical address of the register page of the first virtio device; device `i` has the
/// page `i` pages above it.
pub const VIRTIO_BASE: u64 = 0x1000_1000;

/// Whether guest-physical address `guest_pa` lies in the register page of a device slot.
pub open spec fn spec_is_device_access(guest_pa: u64) -> bool {
    VIRTIO_BASE <= guest_pa < VIRTIO_BASE + 0x1000 * MAX_DEVICES
}

/// The device slot whose register page holds `guest_pa`.
pub open spec fn device_slot(guest_pa: u64) -> int {
    (guest_pa - VIRTIO_BASE) / 0x1000
}

/// What a guest load of register `offset` reads where the device holds `current`: the
/// indirect-descriptor feature (bit 28 of the feature word) is hidden, and queues are offered
/// with at most 256 entries, so that a queue fits in one page.
pub open spec fn shown_register(current: u32, offset: u64) -> u32 {
    if offset == 0x10 {
        current & !(1u32 << 28u32)
    } else if offset == 0x34 {
        if current < 256 { current } else { 256 }
    } else {
        current
    }
}

/// Whether the `size` 16-byte queue entries from guest-physical address `guest_pa` have their
/// first words in `memory`.
pub open spec fn queue_in_memory(memory: &MemoryRegion, guest_pa: u64, size: u64) -> bool {
    size == 0 || {
        &&& guest_pa % 8 == 0
        &&& memory.spec_base() <= guest_pa
        &&& guest_pa + 16 * (size - 1) < memory.spec_base() + memory.spec_len()
    }
}

/// Whether word `k` of `memory` holds the address in one of the `size` entries of the queue
/// at `guest_pa`.
pub open spec fn is_queue_entry_word(memory: &MemoryRegion, guest_pa: u64, size: u64, k: int) -> bool {
    let first = memory.slot(guest_pa);
    &&& first <= k
    &&& (k - first) % 2 == 0
    &&& (k - first) / 2 < size
}

/// `memory` with the address word of each of the `size` entries of the queue at `guest_pa`
/// moved up by `shift`: guest-physical buffer addresses become host-physical ones.
pub open spec fn relocated_queue(memory: &MemoryRegion, guest_pa: u64, size: u64, shift: u64) -> Seq<u64> {
    Seq::new(memory@.len(), |k: int| if is_queue_entry_word(memory, guest_pa, size, k) {
        vstd::wrapping::u64_specs::wrapping_add(memory@[k], shift)
    } else {
        memory@[k]
    })
}

/// The guest address `pc` advanced past an instruction of `len` bytes.
pub open spec fn advanced(pc: u64, len: usize) -> u64 {
    vstd::wrapping::u64_specs::wrapping_add(pc, len as u64)
}

/// Whether a guest store of `value` to register `offset` of a passthrough device is emulated,
/// in a state `s` whose selected queue of that device is `queue`.
pub open spec fn passthrough_store_supported(s: &Context, queue: Queue, offset: u64, value: u32) -> bool {
    if offset == 0x30 {
        value < 4
    } else if offset == 0x38 {
        queue.host_pa == 0
    } else if offset == 0x40 {
        &&& queue.host_pa == 0
        &&& value != 0
        &&& value + ((s.guest_shift >> 12u64) as u32) <= u32::MAX
        &&& s.virtio.num_queue_guest_pages < MAX_DEVICES * MAX_QUEUES
        &&& queue_in_memory(&s.guest_memory, (value as u64) << 12u64, queue.size)
    } else {
        offset % 4 == 0
    }
}

/// The reason, if any, for which the guest access with instruction bits `instruction` to
/// `guest_pa`, a register of a device slot, stops the hart in state `s`.
pub open spec fn device_access_halt(s: &Context, guest_pa: u64, instruction: u32) -> Option<Halt> {
    let offset = guest_pa & 0xfff;
    let unsupported = Some(Halt::UnsupportedAccess { instruction, address: guest_pa });
    match s.virtio.devices@[device_slot(guest_pa)] {
        Device::Passthrough { queue_sel, queues, device_registers } => match decoded(instruction) {
            Ok(Instruction::Lw(_)) => None,
            Ok(Instruction::Lb(_)) => if offset >= 0x100 { None } else { Some(Halt::Unsupported) },
            Ok(Instruction::Sw(t)) => {
                let value = s.saved_registers.reg(rs2_of(t.0) as int) as u32;
                if passthrough_store_supported(s, queues[queue_sel as int], offset, value) {
                    None
                } else {
                    Some(Halt::Unsupported)
                }
            },
            _ => unsupported,
        },
        Device::Unmapped => match decoded(instruction) {
            Ok(Instruction::Lw(_)) | Ok(Instruction::Lb(_)) | Ok(Instruction::Sw(_)) => None,
            _ => unsupported,
        },
    }
}

/// Whether the `size` entries of a queue at `guest_pa` have their first words in `memory`.
fn queue_fits(memory: &MemoryRegion, guest_pa: u64, size: u64) -> (r: bool)
    requires
        memory.wf(),
    ensures
        r == queue_in_memory(memory, guest_pa, size),
{
    if size == 0 {
        return true;
    }
    proof {
        memory.lemma_wf();
    }
    let base = memory.base();
    let end = base + memory.len();
    if guest_pa % 8 != 0 || guest_pa < base || guest_pa >= end {
        return false;
    }
    let room = (end - guest_pa - 1) / 16;
    proof {
        let n = (size - 1) as int;
        let d = (end - guest_pa) as int;
        assert(n <= room <==> 16 * n < d) by (nonlinear_arith)
            requires
                room == (d - 1) / 16,
                d > 0,
                n >= 0,
        ;
    }
    size - 1 <= room
}

/// Moves the address word of each of the `size` entries of the queue at `guest_pa` up by
/// `shift`, wrapping around.
fn relocate_queue(memory: &mut MemoryRegion, guest_pa: u64, size: u64, shift: u64)
    requires
        old(memory).wf(),
        queue_in_memory(&*old(memory), guest_pa, size),
    ensures
        final(memory).wf(),
        final(memory).spec_base() == old(memory).spec_base(),
        final(memory).spec_len() == old(memory).spec_len(),
        final(memory).spec_ptr() == old(memory).spec_ptr(),
        final(memory)@ == relocated_queue(&*old(memory), guest_pa, size, shift),
{
    let ghost m0 = *memory;
    let mut i: u64 = 0;
    while i < size
        invariant
            i <= size,
            m0.wf(),
            queue_in_memory(&m0, guest_pa, size),
            memory.wf(),
            memory.spec_base() == m0.spec_base(),
            memory.spec_len() == m0.spec_len(),
            memory.spec_ptr() == m0.spec_ptr(),
            memory@ == relocated_queue(&m0, guest_pa, i, shift),
        decreases size - i,
    {
        proof {
            m0.lemma_wf();
            assert(16 * i <= 16 * (size - 1)) by (nonlinear_arith)
                requires
                    i < size,
            ;
        }
        let addr = guest_pa + i * 16;
        proof {
            assert(addr % 8 == 0);
            assert(memory.valid_index(addr));
            memory.lemma_slot(addr);
            let b = m0.spec_base() as int;
            assert((addr - b) / 8 == (guest_pa - b) / 8 + 2 * i) by (nonlinear_arith)
                requires
                    addr == guest_pa + 16 * i,
                    guest_pa >= b,
            ;
        }
        let word = memory.index(addr);
        memory.set(addr, word.wrapping_add(shift));
        proof {
            let k0 = m0.slot(addr);
            assert forall|k: int| 0 <= k < m0@.len() implies #[trigger] memory@[k] == relocated_queue(&m0, guest_pa, (i + 1) as u64, shift)[k] by {
                let first = m0.slot(guest_pa);
                if k == k0 {
                    assert(is_queue_entry_word(&m0, guest_pa, (i + 1) as u64, k));
                    assert(!is_queue_entry_word(&m0, guest_pa, i, k));
                } else {
                    assert(is_queue_entry_word(&m0, guest_pa, (i + 1) as u64, k)
                        == is_queue_entry_word(&m0, guest_pa, i, k));
                }
            }
            assert(memory@ =~= relocated_queue(&m0, guest_pa, (i + 1) as u64, shift));
        }
        i = i + 1;
    }
    proof {
        assert(memory@ =~= relocated_queue(&m0, guest_pa, size, shift));
    }
}

/// What a guest load of register `offset` reads where the device holds `current`.
fn shown(current: u32, offset: u64) -> (r: u32)
    ensures
        r == shown_register(current, offset),
{
    if offset == 0x10 {
        current & !(1u32 << 28u32)
    } else if offset == 0x34 {
        if current < 256 { current } else { 256 }
    } else {
        current
    }
}

/// The value a passthrough device register receives from a guest store of `value` at `offset`:
/// a queue's page number is moved from guest-physical to host-physical.
pub open spec fn stored_register(value: u32, offset: u64, guest_shift: u64) -> u32 {
    if offset == 0x40 {
        (value + ((guest_shift >> 12u64) as u32)) as u32
    } else {
        value
    }
}

/// The queues of a passthrough device after a guest store of `value` at `offset`, where
/// `queue_sel` selects the queue.
pub open spec fn stored_queues(queues: [Queue; MAX_QUEUES], queue_sel: u32, offset: u64, value: u32, guest_shift: u64) -> Seq<Queue> {
    let q = queues@[queue_sel as int];
    if offset == 0x38 {
        queues@.update(queue_sel as int, Queue { guest_pa: q.guest_pa, host_pa: q.host_pa, size: value as u64 })
    } else if offset == 0x40 {
        queues@.update(queue_sel as int, Queue {
            guest_pa: (value as u64) << 12u64,
            host_pa: (stored_register(value, offset, guest_shift) as u64) << 12u64,
            size: q.size,
        })
    } else {
        queues@
    }
}

/// Emulates a guest store of `value` to register `offset` of a passthrough device, whose
/// fields are `queue_sel`, `queues` and `registers`. Returns why the hart must stop, if it must.
fn passthrough_store(
    state: &mut Context,
    queue_sel: &mut u32,
    queues: &mut [Queue; MAX_QUEUES],
    registers: &mut MemoryRegion<u32>,
    offset: u64,
    value: u32,
) -> (halt: Option<Halt>)
    requires
        old(state).guest_memory.wf(),
        old(state).shadow_page_tables.wf(),
        old(state).virtio.num_queue_guest_pages <= MAX_DEVICES * MAX_QUEUES,
        *old(queue_sel) < 4,
        forall|j: int| 0 <= j < MAX_QUEUES ==> (#[trigger] old(queues)@[j]).wf(),
        old(registers).wf(),
        old(registers).spec_base() == 0,
        old(registers).spec_len() == 0x1000,
        offset < 0x1000,
    ensures
        halt == (if passthrough_store_supported(&*old(state), old(queues)@[*old(queue_sel) as int], offset, value) {
            None
        } else {
            Some(Halt::Unsupported)
        }),
        final(state).same_control(&*old(state)),
        final(state).saved_registers == old(state).saved_registers,
        final(state).actions == (if halt is None && offset == 0x40 {
            HartActions { sfence: true, ..old(state).actions }
        } else {
            old(state).actions
        }),
        final(state).virtio.devices@ == old(state).virtio.devices@,
        halt is None ==> {
            let shift = old(state).guest_shift;
            let q = old(queues)@[*old(queue_sel) as int];
            &&& *final(queue_sel) == (if offset == 0x30 { value } else { *old(queue_sel) })
            &&& final(queues)@ == stored_queues(*old(queues), *old(queue_sel), offset, value, shift)
            &&& forall|j: int| 0 <= j < MAX_QUEUES ==> (#[trigger] final(queues)@[j]).wf()
            &&& final(registers).is_update(&*old(registers), offset, stored_register(value, offset, shift))
            &&& if offset == 0x40 {
                &&& final(state).virtio.num_queue_guest_pages == old(state).virtio.num_queue_guest_pages + 1
                &&& final(state).virtio.queue_guest_pages@ == old(state).virtio.queue_guest_pages@.update(
                    old(state).virtio.num_queue_guest_pages as int,
                    (value as u64) << 12u64,
                )
                &&& flushed(&old(state).shadow_page_tables, &final(state).shadow_page_tables)
                &&& final(state).guest_memory.wf()
                &&& final(state).guest_memory.spec_base() == old(state).guest_memory.spec_base()
                &&& final(state).guest_memory.spec_len() == old(state).guest_memory.spec_len()
                &&& final(state).guest_memory.spec_ptr() == old(state).guest_memory.spec_ptr()
                &&& final(state).guest_memory@ == relocated_queue(&old(state).guest_memory, (value as u64) << 12u64, q.size, shift)
            } else {
                &&& final(state).virtio.same(&old(state).virtio)
                &&& final(state).shadow_page_tables == old(state).shadow_page_tables
                &&& final(state).guest_memory == old(state).guest_memory
            }
        },
{
    let sel = *queue_sel as usize;
    let q = queues[sel];
    let mut stored = value;
    if offset == 0x30 {
        if value >= 4 {
            return Some(Halt::Unsupported);
        }
        *queue_sel = value;
    } else if offset == 0x38 {
        if q.host_pa != 0 {
            return Some(Halt::Unsupported);
        }
        queues[sel] = Queue { guest_pa: q.guest_pa, host_pa: q.host_pa, size: value as u64 };
    } else if offset == 0x40 {
        let shift_pages = (state.guest_shift >> 12u64) as u32;
        let guest_pa = (value as u64) << 12u64;
        if q.host_pa != 0 || value == 0 || value > u32::MAX - shift_pages
            || state.virtio.num_queue_guest_pages >= MAX_DEVICES * MAX_QUEUES
            || !queue_fits(&state.guest_memory, guest_pa, q.size) {
            return Some(Halt::Unsupported);
        }
        stored = value + shift_pages;
        assert(((value as u64) << 12u64) <= 0xffff_ffff_000) by (bit_vector);
        queues[sel] = Queue { guest_pa, host_pa: (stored as u64) << 12u64, size: q.size };
        flush_shadow_page_table(&mut state.shadow_page_tables, &mut state.actions);
        let n = state.virtio.num_queue_guest_pages;
        state.virtio.queue_guest_pages[n] = guest_pa;
        state.virtio.num_queue_guest_pages = n + 1;
        relocate_queue(&mut state.guest_memory, guest_pa, q.size, state.guest_shift);
    } else if offset % 4 != 0 {
        return Some(Halt::Unsupported);
    }
    proof {
        assert(offset % 4 == 0);
        assert(registers.valid_index(offset));
    }
    registers.set(offset, stored);
    proof {
        assert(queues@ =~= stored_queues(*old(queues), *old(queue_sel), offset, value, state.guest_shift));
    }
    None
}

/// `new` is `old` with register `x{rd}` set to `value` and the guest resuming after the
/// instruction of `len` bytes at the current `sepc`; nothing else changes.
pub open spec fn loaded(old: &Context, new: &Context, rd: u32, value: u64, len: usize) -> bool {
    &&& new.saved_registers.wf()
    &&& forall|r: int| 0 <= r < 32 ==> #[trigger] new.saved_registers.reg(r) == (if r == rd && r != 0 {
        value
    } else {
        old.saved_registers.reg(r)
    })
    &&& new.same_control(old)
    &&& new.virtio.same(&old.virtio)
    &&& new.guest_memory == old.guest_memory
    &&& new.shadow_page_tables == old.shadow_page_tables
    &&& new.actions == (HartActions { sepc: advanced(old.actions.sepc, len), ..old.actions })
}

/// The effect of an emulated guest access with instruction bits `instruction` to `guest_pa`,
/// a register of a device slot, that does not stop the hart.
pub open spec fn device_access_done(old: &Context, new: &Context, guest_pa: u64, instruction: u32) -> bool {
    let offset = guest_pa & 0xfff;
    let slot = device_slot(guest_pa);
    let len = spec_instruction_length(instruction as u16);
    match old.virtio.devices@[slot] {
        Device::Passthrough { queue_sel, queues, device_registers } => {
            let current = shown_register(device_registers.at(offset & !0x3u64), offset);
            match decoded(instruction) {
                Ok(Instruction::Lw(t)) => loaded(old, new, rd_of(t.0), current as u64, len),
                Ok(Instruction::Lb(t)) => loaded(old, new, rd_of(t.0),
                    ((current >> (8 * (offset & 0x3)) as u32) & 0xff) as u64, len),
                Ok(Instruction::Sw(t)) => {
                    let value = old.saved_registers.reg(rs2_of(t.0) as int) as u32;
                    let q = queues@[queue_sel as int];
                    &&& new.virtio.devices@.len() == old.virtio.devices@.len()
                    &&& forall|j: int| 0 <= j < old.virtio.devices@.len() && j != slot ==>
                        #[trigger] new.virtio.devices@[j] == old.virtio.devices@[j]
                    &&& new.virtio.devices@[slot] matches Device::Passthrough {
                        queue_sel: sel2, queues: queues2, device_registers: regs2 }
                    &&& new.virtio.devices@[slot]->queue_sel == (if offset == 0x30 { value } else { queue_sel })
                    &&& new.virtio.devices@[slot]->queues@ == stored_queues(queues, queue_sel, offset, value, old.guest_shift)
                    &&& new.virtio.devices@[slot]->device_registers.is_update(&device_registers, offset,
                        stored_register(value, offset, old.guest_shift))
                    &&& new.same_control(old)
                    &&& new.saved_registers == old.saved_registers
                    &&& new.actions == (HartActions {
                        sepc: advanced(old.actions.sepc, len),
                        sfence: if offset == 0x40 { true } else { old.actions.sfence },
                        ..old.actions
                    })
                    &&& if offset == 0x40 {
                        &&& new.virtio.num_queue_guest_pages == old.virtio.num_queue_guest_pages + 1
                        &&& new.virtio.queue_guest_pages@ == old.virtio.queue_guest_pages@.update(
                            old.virtio.num_queue_guest_pages as int,
                            (value as u64) << 12u64,
                        )
                        &&& flushed(&old.shadow_page_tables, &new.shadow_page_tables)
                        &&& new.guest_memory.spec_base() == old.guest_memory.spec_base()
                        &&& new.guest_memory.spec_len() == old.guest_memory.spec_len()
                        &&& new.guest_memory.spec_ptr() == old.guest_memory.spec_ptr()
                        &&& new.guest_memory@ == relocated_queue(&old.guest_memory, (value as u64) << 12u64, q.size, old.guest_shift)
                    } else {
                        &&& new.virtio.queue_guest_pages == old.virtio.queue_guest_pages
                        &&& new.virtio.num_queue_guest_pages == old.virtio.num_queue_guest_pages
                        &&& new.shadow_page_tables == old.shadow_page_tables
                        &&& new.guest_memory == old.guest_memory
                    }
                },
                _ => true,
            }
        },
        Device::Unmapped => match decoded(instruction) {
            Ok(Instruction::Lw(t)) => loaded(old, new, rd_of(t.0), 0, len),
            Ok(Instruction::Lb(t)) => loaded(old, new, rd_of(t.0), 0, len),
            Ok(Instruction::Sw(_)) => {
                &&& new.same_control(old)
                &&& new.saved_registers == old.saved_registers
                &&& new.virtio.same(&old.virtio)
                &&& new.guest_memory == old.guest_memory
                &&& new.shadow_page_tables == old.shadow_page_tables
                &&& new.actions == (HartActions { sepc: advanced(old.actions.sepc, len), ..old.actions })
            },
            _ => true,
        },
    }
}

/// Emulates the guest instruction with bits `instruction`, which accessed `guest_pa` in the
/// register page of a device slot. A passthrough device serves loads from its registers, with
/// the indirect-descriptor feature hidden and queue sizes capped at 256, and stores to them;
/// setting a queue's page number moves the guest-physical addresses in the queue to
/// host-physical ones and records the page as a queue page. An empty slot reads as zero and
/// ignores stores. Any other access stops the hart. The guest resumes after the instruction.
#[verifier::rlimit(40)]
pub fn handle_device_access(state: &mut Context, guest_pa: u64, instruction: u32) -> (handled: bool)
    requires
        old(state).wf(),
        old(state).actions.halt is None,
        spec_is_device_access(guest_pa),
    ensures
        handled,
        final(state).actions.halt == device_access_halt(&*old(state), guest_pa, instruction),
        final(state).actions.halt is None ==> {
            &&& final(state).wf()
            &&& device_access_done(&*old(state), &*final(state), guest_pa, instruction)
        },
{
    let ghost s0 = *state;
    let device = ((guest_pa - VIRTIO_BASE) / 0x1000) as usize;
    let offset = guest_pa & 0xfff;
    proof {
        let d = (guest_pa - VIRTIO_BASE) as int;
        assert(d / 0x1000 < 4) by (nonlinear_arith)
            requires 0 <= d < 0x4000;
        assert(device as int == device_slot(guest_pa));
        assert(offset < 0x1000) by (bit_vector)
            requires offset == guest_pa & 0xfff;
        assert((offset & !0x3u64) % 4 == 0 && (offset & !0x3u64) < 0x1000) by (bit_vector)
            requires offset < 0x1000;
    }
    let insn = decode(instruction);
    let dev = state.virtio.devices.remove(device);
    let mut halt: Option<Halt> = None;
    let unsupported = Halt::UnsupportedAccess { instruction, address: guest_pa };
    let new_dev = match dev {
        Device::Passthrough { queue_sel, queues, device_registers } => {
            let mut queue_sel = queue_sel;
            let mut queues = queues;
            let mut device_registers = device_registers;
            let current = shown(device_registers.index(offset & !0x3u64), offset);
            match insn {
                Ok(Instruction::Lw(i)) => {
                    proof {
                        lemma_register_fields(i.0);
                    }
                    state.saved_registers.set(i.rd(), current as u64);
                },
                Ok(Instruction::Lb(i)) => {
                    proof {
                        lemma_register_fields(i.0);
                    }
                    if offset >= 0x100 {
                        let byte = offset & 0x3;
                        assert(byte <= 3) by (bit_vector)
                            requires byte == offset & 0x3;
                        let value = (current >> (8 * byte) as u32) & 0xff;
                        state.saved_registers.set(i.rd(), value as u64);
                    } else {
                        halt = Some(Halt::Unsupported);
                    }
                },
                Ok(Instruction::Sw(i)) => {
                    proof {
                        lemma_register_fields(i.0);
                    }
                    let value = state.saved_registers.get(i.rs2()) as u32;
                    halt = passthrough_store(state, &mut queue_sel, &mut queues, &mut device_registers, offset, value);
                },
                _ => {
                    halt = Some(unsupported);
                },
            }
            Device::Passthrough { queue_sel, queues, device_registers }
        },
        Device::Unmapped => {
            match insn {
                Ok(Instruction::Lw(i)) => {
                    proof {
                        lemma_register_fields(i.0);
                    }
                    state.saved_registers.set(i.rd(), 0);
                },
                Ok(Instruction::Lb(i)) => {
                    proof {
                        lemma_register_fields(i.0);
                    }
                    state.saved_registers.set(i.rd(), 0);
                },
                Ok(Instruction::Sw(_)) => {},
                _ => {
                    halt = Some(unsupported);
                },
            }
            Device::Unmapped
        },
    };
    state.virtio.devices.insert(device, new_dev);
    proof {
        assert(forall|j: int| 0 <= j < 4 && j != device as int ==> #[trigger] state.virtio.devices@[j] == s0.virtio.devices@[j]);
    }
    if let Some(h) = halt {
        state.actions.halt = Some(h);
        return true;
    }
    let len = instruction_length(instruction as u16);
    state.actions.sepc = state.actions.sepc.wrapping_add(len as u64);
    proof {
        assert(state.virtio.devices@ =~= s0.virtio.devices@.update(device as int, new_dev));
        if new_dev == s0.virtio.devices@[device as int] {
            assert(state.virtio.devices@ =~= s0.virtio.devices@);
        }
        assert(state.virtio.wf());
        assert(state.wf());
        assert(device_access_done(&s0, &*state, guest_pa, instruction));
    }
    true
}

/// Whether guest page `guest_page` holds a virtqueue.
pub open spec fn spec_is_queue_access(s: &Context, guest_page: u64) -> bool {
    exists|i: int| 0 <= i < s.virtio.num_queue_guest_pages && s.virtio.queue_guest_pages@[i] == guest_page
}

/// Whether `guest_page` is one of the guest pages that hold a virtqueue.
pub fn is_queue_access(state: &Context, guest_page: u64) -> (r: bool)
    requires
        state.virtio.wf(),
    ensures
        r == spec_is_queue_access(state, guest_page),
{
    let mut i: usize = 0;
    while i < state.virtio.num_queue_guest_pages
        invariant
            state.virtio.wf(),
            i <= state.virtio.num_queue_guest_pages,
            forall|k: int| 0 <= k < i ==> state.virtio.queue_guest_pages@[k] != guest_page,
        decreases state.virtio.num_queue_guest_pages - i,
    {
        if state.virtio.queue_guest_pages[i] == guest_page {
            return true;
        }
        i = i + 1;
    }
    false
}

/// Whether `dev` is a passthrough device one of whose queues has an entry address word at
/// `guest_pa`.
pub open spec fn device_holds_entry_word(dev: Device, guest_pa: u64) -> bool {
    match dev {
        Device::Passthrough { queues, .. } => exists|j: int| 0 <= j < MAX_QUEUES && (#[trigger] queues@[j]).holds_entry_word(guest_pa),
        Device::Unmapped => false,
    }
}

/// Whether `guest_pa` is the address word of an entry of some queue of the guest.
pub open spec fn is_entry_word(s: &Context, guest_pa: u64) -> bool {
    exists|d: int| 0 <= d < s.virtio.devices@.len() && device_holds_entry_word(#[trigger] s.virtio.devices@[d], guest_pa)
}

fn entry_word_hit(state: &Context, guest_pa: u64) -> (r: bool)
    requires
        state.virtio.wf(),
    ensures
        r == is_entry_word(state, guest_pa),
{
    let mut hit = false;
    let mut d: usize = 0;
    while d < state.virtio.devices.len()
        invariant
            state.virtio.wf(),
            d <= state.virtio.devices@.len(),
            hit == exists|e: int| 0 <= e < d && device_holds_entry_word(#[trigger] state.virtio.devices@[e], guest_pa),
        decreases state.virtio.devices@.len() - d,
    {
        if let Device::Passthrough { queues, .. } = &state.virtio.devices[d] {
            let mut j: usize = 0;
            let ghost before = hit;
            let mut found = false;
            while j < MAX_QUEUES
                invariant
                    j <= MAX_QUEUES,
                    forall|k: int| 0 <= k < MAX_QUEUES ==> (#[trigger] queues@[k]).wf(),
                    found == exists|k: int| 0 <= k < j && (#[trigger] queues@[k]).holds_entry_word(guest_pa),
                decreases MAX_QUEUES - j,
            {
                let q = queues[j];
                assert(q.wf());
                if guest_pa >= q.guest_pa && guest_pa < q.guest_pa + q.size * 16 && guest_pa & 0xf < 8 {
                    found = true;
                }
                j = j + 1;
            }
            if found {
                hit = true;
            }
            proof {
                assert(device_holds_entry_word(state.virtio.devices@[d as int], guest_pa) == found);
            }
        }
        d = d + 1;
    }
    hit
}

/// The reason, if any, for which the guest access with instruction bits `instruction` to
/// `guest_pa`, in a queue page, stops the hart in state `s`.
pub open spec fn queue_access_halt(s: &Context, guest_pa: u64, instruction: u32) -> Option<Halt> {
    let unsupported = Some(Halt::UnsupportedAccess { instruction, address: guest_pa });
    let index = guest_pa & !0x7u64;
    let offset = guest_pa % 8;
    match decoded(instruction) {
        Err(_) => unsupported,
        Ok(insn) => if is_entry_word(s, guest_pa) {
            match insn {
                Instruction::Ld(_) => if s.guest_memory.valid_index(guest_pa) { None } else { Some(Halt::Unsupported) },
                Instruction::Sd(t) => {
                    let value = s.saved_registers.reg(rs2_of(t.0) as int);
                    if !s.guest_memory.valid_index(guest_pa) {
                        Some(Halt::Unsupported)
                    } else if value == 0 || s.guest_memory.contains(value) {
                        None
                    } else {
                        Some(Halt::Unsupported)
                    }
                },
                _ => unsupported,
            }
        } else if !s.guest_memory.valid_index(index) {
            match insn {
                Instruction::Ld(_) | Instruction::Lwu(_) | Instruction::Lhu(_) | Instruction::Lbu(_)
                | Instruction::Lw(_) | Instruction::Lh(_) | Instruction::Lb(_)
                | Instruction::Sd(_) | Instruction::Sw(_) | Instruction::Sh(_) | Instruction::Sb(_) => Some(Halt::Unsupported),
                _ => unsupported,
            }
        } else {
            match insn {
                Instruction::Ld(_) | Instruction::Lbu(_) | Instruction::Lb(_) | Instruction::Sd(_)
                | Instruction::Sb(_) => None,
                Instruction::Lwu(_) | Instruction::Lw(_) | Instruction::Sw(_) => if offset + 4 <= 8 { None } else { Some(Halt::Unsupported) },
                Instruction::Lhu(_) | Instruction::Lh(_) | Instruction::Sh(_) => if offset + 2 <= 8 { None } else { Some(Halt::Unsupported) },
                _ => unsupported,
            }
        },
    }
}

/// `new` is `old` with the guest word at `addr` set to `value` and the guest resuming after
/// the instruction of `len` bytes at the current `sepc`; nothing else changes.
pub open spec fn stored_word(old: &Context, new: &Context, addr: u64, value: u64, len: usize) -> bool {
    &&& new.guest_memory.is_update(&old.guest_memory, addr, value)
    &&& new.same_control(old)
    &&& new.virtio.same(&old.virtio)
    &&& new.saved_registers == old.saved_registers
    &&& new.shadow_page_tables == old.shadow_page_tables
    &&& new.actions == (HartActions { sepc: advanced(old.actions.sepc, len), ..old.actions })
}

/// The effect of an emulated guest access with instruction bits `instruction` to `guest_pa`,
/// in a queue page, that does not stop the hart.
pub open spec fn queue_access_done(old: &Context, new: &Context, guest_pa: u64, instruction: u32) -> bool {
    let len = spec_instruction_length(instruction as u16);
    let shift = old.guest_shift;
    let index = guest_pa & !0x7u64;
    let offset = (guest_pa % 8) as int;
    let bytes = le_bytes(old.guest_memory.at(index) as nat, 8);
    if is_entry_word(old, guest_pa) {
        match decoded(instruction) {
            Ok(Instruction::Ld(t)) => loaded(old, new, rd_of(t.0),
                vstd::wrapping::u64_specs::wrapping_sub(old.guest_memory.at(guest_pa), shift), len),
            Ok(Instruction::Sd(t)) => {
                let value = old.saved_registers.reg(rs2_of(t.0) as int);
                stored_word(old, new, guest_pa,
                    if value == 0 { 0 } else { vstd::wrapping::u64_specs::wrapping_add(value, shift) }, len)
            },
            _ => true,
        }
    } else {
        match decoded(instruction) {
            Ok(Instruction::Ld(t)) => loaded(old, new, rd_of(t.0), old.guest_memory.at(index), len),
            Ok(Instruction::Lwu(t)) => loaded(old, new, rd_of(t.0), le_value(bytes.subrange(offset, offset + 4)) as u64, len),
            Ok(Instruction::Lhu(t)) => loaded(old, new, rd_of(t.0), le_value(bytes.subrange(offset, offset + 2)) as u64, len),
            Ok(Instruction::Lbu(t)) => loaded(old, new, rd_of(t.0), bytes[offset] as u64, len),
            Ok(Instruction::Lw(t)) => loaded(old, new, rd_of(t.0),
                le_value(bytes.subrange(offset, offset + 4)) as i32 as i64 as u64, len),
            Ok(Instruction::Lh(t)) => loaded(old, new, rd_of(t.0),
                le_value(bytes.subrange(offset, offset + 2)) as i16 as i64 as u64, len),
            Ok(Instruction::Lb(t)) => loaded(old, new, rd_of(t.0), bytes[offset] as i8 as i64 as u64, len),
            Ok(Instruction::Sd(t)) => stored_word(old, new, index, old.saved_registers.reg(rs2_of(t.0) as int), len),
            Ok(Instruction::Sw(t)) => stored_word(old, new, index, le_value(overwritten(bytes, offset,
                le_bytes((old.saved_registers.reg(rs2_of(t.0) as int) as u32) as nat, 4))) as u64, len),
            Ok(Instruction::Sh(t)) => stored_word(old, new, index, le_value(overwritten(bytes, offset,
                le_bytes((old.saved_registers.reg(rs2_of(t.0) as int) as u16) as nat, 2))) as u64, len),
            Ok(Instruction::Sb(t)) => stored_word(old, new, index, le_value(bytes.update(offset,
                old.saved_registers.reg(rs2_of(t.0) as int) as u8)) as u64, len),
            _ => true,
        }
    }
}

/// The address word of a queue entry reads back as the guest wrote it: a nonzero address
/// stored there with `sd` is held shifted to host-physical, and a following `ld` of the same
/// word gives the guest its own address again.
pub proof fn lemma_entry_word_store_then_load(
    s0: &Context,
    s1: &Context,
    s2: &Context,
    guest_pa: u64,
    store: u32,
    load: u32,
    st: riscv_decode::types::SType,
    ld: riscv_decode::types::IType,
)
    requires
        s0.wf(),
        is_entry_word(s0, guest_pa),
        decoded(store) == Ok::<Instruction, riscv_decode::DecodingError>(Instruction::Sd(st)),
        decoded(load) == Ok::<Instruction, riscv_decode::DecodingError>(Instruction::Ld(ld)),
        s0.saved_registers.reg(rs2_of(st.0) as int) != 0,
        rd_of(ld.0) != 0,
        s0.guest_memory.valid_index(guest_pa),
        queue_access_done(s0, s1, guest_pa, store),
        queue_access_done(s1, s2, guest_pa, load),
    ensures
        s1.guest_memory.at(guest_pa) == vstd::wrapping::u64_specs::wrapping_add(
            s0.saved_registers.reg(rs2_of(st.0) as int),
            s0.guest_shift,
        ),
        s2.saved_registers.reg(rd_of(ld.0) as int) == s0.saved_registers.reg(rs2_of(st.0) as int),
{
    let v = s0.saved_registers.reg(rs2_of(st.0) as int);
    let d = choose|d: int| 0 <= d < s0.virtio.devices@.len() && device_holds_entry_word(#[trigger] s0.virtio.devices@[d], guest_pa);
    assert(s1.virtio.devices@[d] == s0.virtio.devices@[d]);
    assert(is_entry_word(s1, guest_pa));
    s0.guest_memory.lemma_slot(guest_pa);
    let w = vstd::wrapping::u64_specs::wrapping_add(v, s0.guest_shift);
    assert(s1.guest_memory.at(guest_pa) == w);
    assert(vstd::wrapping::u64_specs::wrapping_sub(w, s0.guest_shift) == v);
    lemma_register_fields(ld.0);
}

/// Emulates the guest instruction with bits `instruction`, which accessed `guest_pa` in a page
/// holding a virtqueue (`host_pa` is where that address really is). The address word of a queue
/// entry reads as guest-physical and is stored as host-physical; a zero address stays zero, and
/// an address outside guest memory stops the hart. Other bytes of the page are read and written
/// as they are, a byte, half-word, word or double-word at a time. Any other access stops the
/// hart. The guest resumes after the instruction.
#[verifier::rlimit(60)]
pub fn handle_queue_access(state: &mut Context, guest_pa: u64, host_pa: u64, instruction: u32) -> (handled: bool)
    requires
        old(state).wf(),
        old(state).actions.halt is None,
    ensures
        handled,
        final(state).actions.halt == queue_access_halt(&*old(state), guest_pa, instruction),
        final(state).actions.halt is None ==> {
            &&& final(state).wf()
            &&& queue_access_done(&*old(state), &*final(state), guest_pa, instruction)
        },
{
    let hit_queue = entry_word_hit(state, guest_pa);
    let unsupported = Halt::UnsupportedAccess { instruction, address: guest_pa };
    let decoded_insn = decode(instruction);
    let insn = match decoded_insn {
        Ok(i) => i,
        Err(_) => {
            state.actions.halt = Some(unsupported);
            return true;
        },
    };
    if hit_queue {
        let word = match state.guest_memory.get(guest_pa) {
            Some(w) => w,
            None => {
                state.actions.halt = Some(match insn {
                    Instruction::Ld(_) | Instruction::Sd(_) => Halt::Unsupported,
                    _ => unsupported,
                });
                return true;
            },
        };
        match insn {
            Instruction::Ld(i) => {
                proof {
                    lemma_register_fields(i.0);
                }
                state.saved_registers.set(i.rd(), word.wrapping_sub(state.guest_shift));
            },
            Instruction::Sd(i) => {
                proof {
                    lemma_register_fields(i.0);
                }
                let value = state.saved_registers.get(i.rs2());
                if value == 0 {
                    state.guest_memory.set(guest_pa, 0);
                } else if state.guest_memory.in_region(value) {
                    state.guest_memory.set(guest_pa, value.wrapping_add(state.guest_shift));
                } else {
                    state.actions.halt = Some(Halt::Unsupported);
                    return true;
                }
            },
            _ => {
                state.actions.halt = Some(unsupported);
                return true;
            },
        }
    } else {
        let index = guest_pa & !0x7u64;
        let offset = (guest_pa % 8) as usize;
        let word = match state.guest_memory.get(index) {
            Some(w) => w,
            None => {
                state.actions.halt = Some(match insn {
                    Instruction::Ld(_) | Instruction::Lwu(_) | Instruction::Lhu(_) | Instruction::Lbu(_)
                    | Instruction::Lw(_) | Instruction::Lh(_) | Instruction::Lb(_)
                    | Instruction::Sd(_) | Instruction::Sw(_) | Instruction::Sh(_) | Instruction::Sb(_) => Halt::Unsupported,
                    _ => unsupported,
                });
                return true;
            },
        };
        let mut current = word_bytes(word);
        match insn {
            Instruction::Ld(i) => {
                proof { lemma_register_fields(i.0); }
                state.saved_registers.set(i.rd(), word);
            },
            Instruction::Lwu(i) => {
                proof { lemma_register_fields(i.0); }
                if offset + 4 > 8 {
                    state.actions.halt = Some(Halt::Unsupported);
                    return true;
                }
                state.saved_registers.set(i.rd(), le_read_u32(&current, offset) as u64);
            },
            Instruction::Lhu(i) => {
                proof { lemma_register_fields(i.0); }
                if offset + 2 > 8 {
                    state.actions.halt = Some(Halt::Unsupported);
                    return true;
                }
                state.saved_registers.set(i.rd(), le_read_u16(&current, offset) as u64);
            },
            Instruction::Lbu(i) => {
                proof { lemma_register_fields(i.0); }
                state.saved_registers.set(i.rd(), current[offset] as u64);
            },
            Instruction::Lw(i) => {
                proof { lemma_register_fields(i.0); }
                if offset + 4 > 8 {
                    state.actions.halt = Some(Halt::Unsupported);
                    return true;
                }
                state.saved_registers.set(i.rd(), le_read_i32(&current, offset) as i64 as u64);
            },
            Instruction::Lh(i) => {
                proof { lemma_register_fields(i.0); }
                if offset + 2 > 8 {
                    state.actions.halt = Some(Halt::Unsupported);
                    return true;
                }
                state.saved_registers.set(i.rd(), le_read_i16(&current, offset) as i64 as u64);
            },
            Instruction::Lb(i) => {
                proof { lemma_register_fields(i.0); }
                state.saved_registers.set(i.rd(), current[offset] as i8 as i64 as u64);
            },
            Instruction::Sd(i) => {
                proof { lemma_register_fields(i.0); }
                let value = state.saved_registers.get(i.rs2());
                state.guest_memory.set(index, value);
            },
            Instruction::Sw(i) => {
                proof { lemma_register_fields(i.0); }
                if offset + 4 > 8 {
                    state.actions.halt = Some(Halt::Unsupported);
                    return true;
                }
                le_write_u32(&mut current, offset, state.saved_registers.get(i.rs2()) as u32);
                state.guest_memory.set(index, word_from_bytes(&current));
            },
            Instruction::Sh(i) => {
                proof { lemma_register_fields(i.0); }
                if offset + 2 > 8 {
                    state.actions.halt = Some(Halt::Unsupported);
                    return true;
                }
                le_write_u16(&mut current, offset, state.saved_registers.get(i.rs2()) as u16);
                state.guest_memory.set(index, word_from_bytes(&current));
            },
            Instruction::Sb(i) => {
                proof { lemma_register_fields(i.0); }
                current[offset] = state.saved_registers.get(i.rs2()) as u8;
                state.guest_memory.set(index, word_from_bytes(&current));
            },
            _ => {
                state.actions.halt = Some(unsupported);
                return true;
            },
        }
    }
    let len = instruction_length(instruction as u16);
    state.actions.sepc = state.actions.sepc.wrapping_add(len as u64);
    true
}

/// Whether the guest can reach the device registers at guest-physical address `guest_pa`.
pub fn is_device_access(state: &Context, guest_pa: u64) -> (r: bool)
    requires
        state.virtio.wf(),
    ensures
        r == spec_is_device_access(guest_pa),
{
    guest_pa >= VIRTIO_BASE && guest_pa < VIRTIO_BASE + 0x1000 * state.virtio.devices.len() as u64
}

} // verus!
