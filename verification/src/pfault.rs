//! Guest page faults: the shadow page tables are filled in from the guest's own, and loads and
//! stores that reach the emulated devices are carried out.
use vstd::prelude::*;
use riscv_decode::Instruction;
use crate::context::{Context, Halt, HartActions, Uart, ConsoleOutput, uart_read_supported, uart_write_supported,
    TRANSMIT_HOLDING_REGISTER, LINE_STATUS_REGISTER, MODEM_STATUS_REGISTER, MODEM_CONTROL_REGISTER,
    MCR_LOOPBACK_ENABLE, MCR_RESERVED_BITS};
use crate::plic::{PlicState, offset_supported, plic_offset};
use crate::outside::{decode, decoded, instruction_length, spec_instruction_length, rd_of, rs2_of, lemma_register_fields};
use crate::virtio::{advanced, loaded, spec_is_device_access, spec_is_queue_access, is_device_access, is_queue_access,
    handle_device_access, handle_queue_access, device_access_halt, device_access_done, queue_access_halt, queue_access_done};
use crate::bits::{IP_SEIP, SATP_PPN, lemma_law_bits};
use crate::pmap::{PageTableRoot, translate_guest_address, sv39_walk, lemma_walk_in_memory, root_slot, same_translation,
    spec_is_sv39, is_sv39, SV39_MASK, DIRECT_MAP_OFFSET, PTE_READ, PTE_WRITE, PTE_EXECUTE, PTE_USER, PTE_DIRTY,
    PTE_ACCESSED, PTE_AD, PTE_VALID};

verus! {

/// Whether guest-physical address `guest_pa` lies in the serial port's registers.
pub open spec fn spec_is_uart_access(guest_pa: u64) -> bool {
    0x1000_0000 <= guest_pa < 0x1000_0100
}

fn is_uart_access(guest_pa: u64) -> (r: bool)
    ensures
        r == spec_is_uart_access(guest_pa),
{
    guest_pa >= 0x1000_0000 && guest_pa < 0x1000_0100
}

/// Whether guest-physical address `guest_pa` lies in the interrupt controller's registers.
pub open spec fn spec_is_plic_access(guest_pa: u64) -> bool {
    0x0c00_0000 <= guest_pa < 0x1000_0000
}

fn is_plic_access(guest_pa: u64) -> (r: bool)
    ensures
        r == spec_is_plic_access(guest_pa),
{
    guest_pa >= 0x0c00_0000 && guest_pa < 0x1000_0000
}

fn uart_readable(addr: u64) -> (r: bool)
    ensures
        r == uart_read_supported(addr),
{
    (addr >= 0x1000_0000 && addr <= 0x1000_0003) || addr == LINE_STATUS_REGISTER || addr == MODEM_STATUS_REGISTER
}

fn uart_writable(addr: u64, value: u8) -> (r: bool)
    ensures
        r == uart_write_supported(addr, value),
{
    (addr >= 0x1000_0000 && addr <= 0x1000_0003)
        || (addr == MODEM_CONTROL_REGISTER && value & (MCR_LOOPBACK_ENABLE | MCR_RESERVED_BITS) == 0)
}

/// Whether a guest byte store of `value` to the transmit register would push the time the
/// transmitter is busy until past the largest time.
pub open spec fn transmit_overflows(u: &Uart, now: u64, addr: u64, value: u8) -> bool {
    &&& addr == TRANSMIT_HOLDING_REGISTER
    &&& !u.dlab
    &&& vstd::math::max(u.next_interrupt_time as int, now as int) + u.divisor_latch * 5 > u64::MAX
}

/// The reason, if any, for which the guest access with instruction bits `instruction` to the
/// serial port register `guest_pa` stops the hart in state `s`.
pub open spec fn uart_access_halt(s: &Context, guest_pa: u64, instruction: u32) -> Option<Halt> {
    let unsupported = Some(Halt::UnsupportedAccess { instruction, address: guest_pa });
    match decoded(instruction) {
        Ok(Instruction::Lb(_)) => if uart_read_supported(guest_pa) { None } else { unsupported },
        Ok(Instruction::Sb(t)) => {
            let value = s.saved_registers.reg(rs2_of(t.0) as int) as u8;
            if !uart_write_supported(guest_pa, value) {
                unsupported
            } else if transmit_overflows(&s.uart, s.host_clint.spec_mtime(), guest_pa, value) {
                Some(Halt::Unsupported)
            } else {
                None
            }
        },
        Ok(_) => unsupported,
        Err(_) => None,
    }
}

/// The effect of a guest access with instruction bits `instruction` to serial port register
/// `guest_pa` that does not stop the hart; `host_input` holds the bytes the host console has
/// received. Returns whether the access was handled.
pub open spec fn uart_access_done(old: &Context, new: &Context, guest_pa: u64, instruction: u32,
    host_input: Seq<u8>, handled: bool) -> bool {
    let len = spec_instruction_length(instruction as u16);
    let now = old.host_clint.spec_mtime();
    match decoded(instruction) {
        Ok(Instruction::Lb(t)) => {
            &&& handled
            &&& exists|r: u8| #[trigger] Uart::read_done(&old.uart, &new.uart, now, guest_pa, host_input, r)
                && new.saved_registers.wf()
                && forall|k: int| 0 <= k < 32 ==> #[trigger] new.saved_registers.reg(k) == (if k == rd_of(t.0) && k != 0 {
                    r as u64
                } else {
                    old.saved_registers.reg(k)
                })
            &&& new.actions == (HartActions {
                sepc: advanced(old.actions.sepc, len),
                input_consumed: new.actions.input_consumed,
                ..old.actions
            })
            &&& new.actions.input_consumed == (if guest_pa == LINE_STATUS_REGISTER {
                new.uart.input_bytes_ready - old.uart.input_bytes_ready
            } else {
                old.actions.input_consumed as int
            })
            &&& Context { uart: new.uart, saved_registers: new.saved_registers, actions: new.actions, ..*old } == *new
        },
        Ok(Instruction::Sb(t)) => {
            let value = old.saved_registers.reg(rs2_of(t.0) as int) as u8;
            &&& handled
            &&& exists|out: Option<ConsoleOutput>| #[trigger] Uart::write_done(&old.uart, &new.uart, now, guest_pa, value, out)
                && new.actions == (HartActions {
                    sepc: advanced(old.actions.sepc, len),
                    console: new.actions.console,
                    ..old.actions
                })
                && new.actions.console@ == (match out {
                    Some(o) => old.actions.console@.push(o),
                    None => old.actions.console@,
                })
            &&& Context { uart: new.uart, actions: new.actions, ..*old } == *new
        },
        _ => !handled && *new == *old,
    }
}

/// Emulates the guest's load or store with instruction bits `instruction` to serial port
/// register `guest_pa`: a byte load reads the register, a byte store writes it, and the guest
/// resumes after the instruction. Bits that do not decode leave the fault to the guest; any
/// other instruction, and a register the port does not implement, stop the hart.
fn handle_uart_access(state: &mut Context, guest_pa: u64, instruction: u32, host_input: &Vec<u8>) -> (handled: bool)
    requires
        old(state).wf(),
        old(state).actions.halt is None,
    ensures
        final(state).actions.halt == uart_access_halt(&*old(state), guest_pa, instruction),
        final(state).actions.halt is None ==> {
            &&& final(state).wf()
            &&& uart_access_done(&*old(state), &*final(state), guest_pa, instruction, host_input@, handled)
        },
{
    let ghost s0 = *state;
    let unsupported = Halt::UnsupportedAccess { instruction, address: guest_pa };
    match decode(instruction) {
        Ok(Instruction::Lb(i)) => {
            proof { lemma_register_fields(i.0); }
            if !uart_readable(guest_pa) {
                state.actions.halt = Some(unsupported);
                return true;
            }
            let before = state.uart.input_bytes_ready;
            let r = state.uart.read(&state.host_clint, guest_pa, host_input);
            state.saved_registers.set(i.rd(), r as u64);
            if guest_pa == LINE_STATUS_REGISTER {
                proof {
                    assert(state.uart.input().len() == state.uart.input_bytes_ready);
                }
                state.actions.input_consumed = state.uart.input_bytes_ready - before;
            }
        },
        Ok(Instruction::Sb(i)) => {
            proof { lemma_register_fields(i.0); }
            let value = (state.saved_registers.get(i.rs2()) & 0xff) as u8;
            proof {
                let v = s0.saved_registers.reg(rs2_of(i.0) as int);
                assert((v & 0xff) as u8 == v as u8) by (bit_vector);
            }
            if !uart_writable(guest_pa, value) {
                state.actions.halt = Some(unsupported);
                return true;
            }
            if guest_pa == TRANSMIT_HOLDING_REGISTER && !state.uart.dlab {
                let now = state.host_clint.get_mtime();
                let start = if state.uart.next_interrupt_time >= now { state.uart.next_interrupt_time } else { now };
                if state.uart.divisor_latch as u64 * 5 > u64::MAX - start {
                    state.actions.halt = Some(Halt::Unsupported);
                    return true;
                }
            }
            let out = state.uart.write(&state.host_clint, guest_pa, value);
            let ghost console0 = state.actions.console@;
            if let Some(o) = out {
                state.actions.console.push(o);
            }
            proof {
                assert(state.actions.console@ == (match out {
                    Some(o) => console0.push(o),
                    None => console0,
                }));
            }
        },
        Ok(_) => {
            state.actions.halt = Some(unsupported);
            return true;
        },
        Err(_) => {
            return false;
        },
    }
    let len = instruction_length(instruction as u16);
    state.actions.sepc = state.actions.sepc.wrapping_add(len as u64);
    true
}

/// The reason, if any, for which the guest access with instruction bits `instruction` to the
/// interrupt controller register `guest_pa` stops the hart in state `s`.
pub open spec fn plic_access_halt(s: &Context, guest_pa: u64, instruction: u32) -> Option<Halt> {
    let unsupported = Some(Halt::UnsupportedAccess { instruction, address: guest_pa });
    match decoded(instruction) {
        Ok(Instruction::Lw(_)) | Ok(Instruction::Sw(_)) =>
            if offset_supported(plic_offset(s.plic.spec_base(), guest_pa)) { None } else { unsupported },
        _ => unsupported,
    }
}

/// The effect of a guest access with instruction bits `instruction` to interrupt controller
/// register `guest_pa` that does not stop the hart.
pub open spec fn plic_access_done(old: &Context, new: &Context, guest_pa: u64, instruction: u32) -> bool {
    let len = spec_instruction_length(instruction as u16);
    match decoded(instruction) {
        Ok(Instruction::Lw(t)) => exists|r: u32| #[trigger] PlicState::read_done(&old.plic, &new.plic, guest_pa, r)
            && new.saved_registers.wf()
            && forall|k: int| 0 <= k < 32 ==> #[trigger] new.saved_registers.reg(k) == (if k == rd_of(t.0) && k != 0 {
                r as i32 as i64 as u64
            } else {
                old.saved_registers.reg(k)
            })
            && new.actions == (HartActions { sepc: advanced(old.actions.sepc, len), ..old.actions })
            && Context { plic: new.plic, saved_registers: new.saved_registers, actions: new.actions, ..*old } == *new,
        Ok(Instruction::Sw(t)) => {
            let value = old.saved_registers.reg(rs2_of(t.0) as int) as u32;
            exists|clear: bool| #[trigger] PlicState::write_done(&old.plic, &new.plic, guest_pa, value, false, clear)
                && new.csrs.sip == (if clear { old.csrs.sip & !IP_SEIP } else { old.csrs.sip })
                && !new.no_interrupt
                && new.actions == (HartActions { sepc: advanced(old.actions.sepc, len), ..old.actions })
                && Context {
                    plic: new.plic,
                    csrs: crate::context::ControlRegisters { sip: new.csrs.sip, ..old.csrs },
                    no_interrupt: false,
                    actions: new.actions,
                    ..*old
                } == *new
        },
        _ => true,
    }
}

/// Emulates the guest's load or store with instruction bits `instruction` to interrupt
/// controller register `guest_pa`: a word load reads the register (sign-extended), a word store
/// writes it, clearing SEIP where it completes a claim, and the guest resumes after the
/// instruction. Any other access stops the hart.
fn handle_plic_access(state: &mut Context, guest_pa: u64, instruction: u32) -> (handled: bool)
    requires
        old(state).wf(),
        old(state).actions.halt is None,
    ensures
        handled,
        final(state).actions.halt == plic_access_halt(&*old(state), guest_pa, instruction),
        final(state).actions.halt is None ==> {
            &&& final(state).wf()
            &&& plic_access_done(&*old(state), &*final(state), guest_pa, instruction)
        },
{
    let unsupported = Halt::UnsupportedAccess { instruction, address: guest_pa };
    match decode(instruction) {
        Ok(Instruction::Lw(i)) => {
            proof { lemma_register_fields(i.0); }
            if !state.plic.access_supported(guest_pa) {
                state.actions.halt = Some(unsupported);
                return true;
            }
            let value = state.plic.read_u32(guest_pa) as i32 as i64 as u64;
            state.saved_registers.set(i.rd(), value);
        },
        Ok(Instruction::Sw(i)) => {
            proof { lemma_register_fields(i.0); }
            let value = state.saved_registers.get(i.rs2()) as u32;
            if !state.plic.access_supported(guest_pa) {
                state.actions.halt = Some(unsupported);
                return true;
            }
            let mut clear_seip = false;
            state.plic.write_u32(guest_pa, value, &mut clear_seip);
            if clear_seip {
                state.csrs.sip = state.csrs.sip & !IP_SEIP;
            }
            state.no_interrupt = false;
        },
        _ => {
            state.actions.halt = Some(unsupported);
            return true;
        },
    }
    let len = instruction_length(instruction as u16);
    state.actions.sepc = state.actions.sepc.wrapping_add(len as u64);
    true
}

/// The guest-physical address of the root of the guest's page tables in state `s`.
pub open spec fn guest_root(s: &Context) -> u64 {
    (s.csrs.satp & SATP_PPN) << 12u64
}

/// The permission bit that a page fault with `cause` asks for: execute, read or write.
pub open spec fn fault_access(cause: u64) -> u64 {
    if cause == 12 {
        PTE_EXECUTE
    } else if cause == 13 {
        PTE_READ
    } else {
        PTE_WRITE
    }
}

/// The guest's leaf entry `pte` with the accessed bit set, and the dirty bit too for a write.
pub open spec fn ad_updated(pte: u64, access: u64) -> u64 {
    if pte & PTE_DIRTY == 0 && access == PTE_WRITE {
        pte | PTE_DIRTY | PTE_ACCESSED
    } else if pte & PTE_ACCESSED == 0 {
        pte | PTE_ACCESSED
    } else {
        pte
    }
}

/// The permissions a shadow entry copies from the guest's entry `pte` (`updated` once its
/// accessed and dirty bits are set): a page not yet dirty is mapped without write permission,
/// so that the first write faults and marks it dirty.
pub open spec fn shadow_permissions(pte: u64, updated: u64, access: u64) -> u64 {
    if updated & PTE_DIRTY == 0 && access != PTE_WRITE {
        pte & (PTE_READ | PTE_EXECUTE)
    } else {
        pte & (PTE_READ | PTE_WRITE | PTE_EXECUTE)
    }
}

/// How a guest page fault is dealt with.
pub enum FaultPath {
    /// The fault goes to the guest.
    Forward,
    /// The hart stops.
    Stop(Halt),
    /// The guest's leaf entry at `pte_addr` becomes `updated`, and the shadow entry for page `va`
    /// becomes `shadow_pte`.
    Shadowed { pte_addr: u64, updated: u64, va: u64, shadow_pte: u64 },
    /// The guest's leaf entry at `pte_addr` becomes `updated`, and the access, to a page that
    /// holds a virtqueue, is emulated at `guest_pa` (really at `host_pa`).
    Queue { pte_addr: u64, updated: u64, guest_pa: u64, host_pa: u64, instruction: u32 },
    /// A load or store to the serial port at `guest_pa`.
    Uart { guest_pa: u64, instruction: u32 },
    /// A load or store to the interrupt controller at `guest_pa`.
    Plic { guest_pa: u64, instruction: u32 },
    /// A load or store to a virtio device's registers at `guest_pa`.
    Device { guest_pa: u64, instruction: u32 },
}

/// How the guest page fault with `cause` at guest address `guest_va` is dealt with in state
/// `s`, the faulting instruction's bits being `instruction` where it was loaded.
#[verifier::opaque]
pub open spec fn page_fault_path(s: &Context, cause: u64, instruction: Option<u32>, guest_va: u64) -> FaultPath {
    let shadow = s.spec_shadow();
    let access = fault_access(cause);
    let page = guest_va & !0xfffu64;
    if shadow == PageTableRoot::MPA {
        FaultPath::Forward
    } else if guest_va & SV39_MASK >= 0x7f_c000_0000 {
        FaultPath::Stop(Halt::Unsupported)
    } else {
        match sv39_walk(s.guest_memory, guest_root(s), page) {
            None => FaultPath::Forward,
            Some((path, gpa)) => {
                let last = path[path.len() - 1];
                let pte = last.value;
                if pte & access == 0 {
                    FaultPath::Forward
                } else if shadow == PageTableRoot::UVA && pte & PTE_USER == 0 {
                    FaultPath::Forward
                } else if shadow == PageTableRoot::KVA && pte & PTE_USER != 0 {
                    FaultPath::Forward
                } else if s.guest_memory.contains(gpa) {
                    let updated = ad_updated(pte, access);
                    let perm = shadow_permissions(pte, updated, access);
                    if gpa + s.guest_shift > u64::MAX {
                        FaultPath::Stop(Halt::Unsupported)
                    } else {
                        let host_pa = (gpa + s.guest_shift) as u64;
                        if spec_is_queue_access(s, gpa) {
                            match instruction {
                                Some(i) => FaultPath::Queue {
                                    pte_addr: last.addr,
                                    updated,
                                    guest_pa: (gpa & !0xfffu64) | (guest_va & 0xfff),
                                    host_pa: (host_pa & !0xfffu64) | (guest_va & 0xfff),
                                    instruction: i,
                                },
                                None => FaultPath::Stop(Halt::Unsupported),
                            }
                        } else {
                            let spte = (host_pa >> 2u64) | perm | PTE_AD | PTE_USER | PTE_VALID;
                            let spt = s.shadow_page_tables;
                            if page >= DIRECT_MAP_OFFSET || !spec_is_sv39(page) {
                                FaultPath::Stop(Halt::Unsupported)
                            } else if !(spte & 0xf != 0x1 && !spt.table_region().spec_inside_region(spte)) {
                                FaultPath::Stop(Halt::Unsupported)
                            } else if spt.free_list().len() < spt.pages_needed(spt.roots()[root_slot(shadow)], page) {
                                FaultPath::Stop(Halt::PageTablesFull)
                            } else {
                                FaultPath::Shadowed { pte_addr: last.addr, updated, va: page, shadow_pte: spte }
                            }
                        }
                    }
                } else if access != PTE_EXECUTE && s.smode {
                    let pa = (gpa & !0xfffu64) | (guest_va & 0xfff);
                    if spec_is_uart_access(pa) || spec_is_plic_access(pa) || spec_is_device_access(pa) {
                        match instruction {
                            None => FaultPath::Stop(Halt::Unsupported),
                            Some(i) => if spec_is_uart_access(pa) {
                                FaultPath::Uart { guest_pa: pa, instruction: i }
                            } else if spec_is_plic_access(pa) {
                                FaultPath::Plic { guest_pa: pa, instruction: i }
                            } else {
                                FaultPath::Device { guest_pa: pa, instruction: i }
                            },
                        }
                    } else {
                        FaultPath::Forward
                    }
                } else {
                    FaultPath::Forward
                }
            },
        }
    }
}

/// `new` is `old` with the guest's word at `addr` set to `value`.
pub open spec fn guest_word_written(old: &Context, new: &Context, addr: u64, value: u64) -> bool {
    &&& new.guest_memory.is_update(&old.guest_memory, addr, value)
    &&& *new == (Context { guest_memory: new.guest_memory, ..*old })
}

/// `new` is `old` after the guest's leaf entry at `pte_addr` became `updated` and the access
/// with instruction bits `instruction` at `guest_pa`, in a virtqueue page, was emulated.
pub open spec fn queue_path_done(old: &Context, new: &Context, pte_addr: u64, updated: u64, guest_pa: u64, instruction: u32) -> bool {
    exists|m: Context| #[trigger] guest_word_written(old, &m, pte_addr, updated) && m.wf()
        && new.actions.halt == queue_access_halt(&m, guest_pa, instruction)
        && (new.actions.halt is None ==> new.wf() && queue_access_done(&m, new, guest_pa, instruction))
}

/// The outcome of a guest page fault that took path `path`, from `old` to `new`; `handled`
/// says whether the fault was dealt with (rather than left to the guest), and `host_input`
/// holds the bytes the host console has received.
#[verifier::opaque]
pub open spec fn page_fault_done(old: &Context, new: &Context, path: FaultPath, host_input: Seq<u8>, handled: bool) -> bool {
    match path {
        FaultPath::Forward => !handled && *new == *old,
        FaultPath::Stop(h) => new.actions.halt == Some(h),
        FaultPath::Shadowed { pte_addr, updated, va, shadow_pte } => {
            let rs = root_slot(old.spec_shadow());
            let spt = new.shadow_page_tables;
            &&& handled
            &&& new.actions.halt is None
            &&& new.wf()
            &&& new.guest_memory.is_update(&old.guest_memory, pte_addr, updated)
            &&& spt.roots() == old.shadow_page_tables.roots()
            &&& spt.lookup(spt.roots()[rs], va) == shadow_pte
            &&& forall|rt: int, va2: u64| 0 <= rt < 4 && !same_translation(rt, va2, rs, va) ==>
                #[trigger] spt.lookup(spt.roots()[rt], va2) == old.shadow_page_tables.lookup(old.shadow_page_tables.roots()[rt], va2)
            &&& *new == (Context { guest_memory: new.guest_memory, shadow_page_tables: spt, ..*old })
        },
        FaultPath::Queue { pte_addr, updated, guest_pa, host_pa, instruction } =>
            handled && queue_path_done(old, new, pte_addr, updated, guest_pa, instruction),
        FaultPath::Uart { guest_pa, instruction } => {
            &&& new.actions.halt == uart_access_halt(old, guest_pa, instruction)
            &&& new.actions.halt is None ==> new.wf() && uart_access_done(old, new, guest_pa, instruction, host_input, handled)
        },
        FaultPath::Plic { guest_pa, instruction } => {
            &&& handled
            &&& new.actions.halt == plic_access_halt(old, guest_pa, instruction)
            &&& new.actions.halt is None ==> new.wf() && plic_access_done(old, new, guest_pa, instruction)
        },
        FaultPath::Device { guest_pa, instruction } => {
            &&& handled
            &&& new.actions.halt == device_access_halt(old, guest_pa, instruction)
            &&& new.actions.halt is None ==> new.wf() && device_access_done(old, new, guest_pa, instruction)
        },
    }
}

/// Deals with a guest page fault with `cause` (12, 13 or 15: instruction, load or store) at
/// guest address `guest_va`; `instruction` holds the faulting instruction's bits where it was
/// loaded, as it is for loads and stores, and `host_input` the bytes the host console has
/// received. Where the guest's own page tables map the page to guest memory, its accessed and
/// dirty bits are set and the shadow page tables get the translation (a page holding a
/// virtqueue is not mapped: the access is emulated). Loads and stores in S-mode that reach the
/// emulated serial port, interrupt controller or virtio registers are emulated. Returns false
/// where the fault belongs to the guest.
#[verifier::rlimit(60)]
pub fn handle_page_fault(state: &mut Context, cause: u64, instruction: Option<u32>, guest_va: u64, host_input: &Vec<u8>) -> (handled: bool)
    requires
        old(state).wf(),
        old(state).actions.halt is None,
        cause == 12 || cause == 13 || cause == 15,
    ensures
        page_fault_done(&*old(state), &*final(state), page_fault_path(&*old(state), cause, instruction, guest_va), host_input@, handled),
        final(state).actions.halt is None ==> final(state).wf(),
{
    proof {
        reveal(page_fault_path);
        reveal(page_fault_done);
    }
    let ghost s0 = *state;
    let shadow = state.shadow();
    if shadow == PageTableRoot::MPA {
        return false;
    }
    if guest_va & SV39_MASK >= 0x7f_c000_0000 {
        state.actions.halt = Some(Halt::Unsupported);
        return true;
    }
    let access = if cause == 12 {
        PTE_EXECUTE
    } else if cause == 13 {
        PTE_READ
    } else {
        PTE_WRITE
    };
    let page = guest_va & !0xfffu64;
    let translation = match translate_guest_address(&state.guest_memory, (state.csrs.satp & SATP_PPN) << 12u64, page) {
        Some(t) => t,
        None => {
            return false;
        },
    };
    proof {
        lemma_walk_in_memory(s0.guest_memory, guest_root(&s0), page);
        s0.guest_memory.lemma_slot(translation.pte_addr);
    }
    let guest_pte = translation.pte_value;
    if guest_pte & access == 0 {
        return false;
    }
    match shadow {
        PageTableRoot::UVA => if guest_pte & PTE_USER == 0 {
            return false;
        },
        PageTableRoot::KVA => if guest_pte & PTE_USER != 0 {
            return false;
        },
        _ => {},
    }
    if state.guest_memory.in_region(translation.guest_pa) {
        let updated = if (guest_pte & PTE_DIRTY) == 0 && access == PTE_WRITE {
            guest_pte | PTE_DIRTY | PTE_ACCESSED
        } else if (guest_pte & PTE_ACCESSED) == 0 {
            guest_pte | PTE_ACCESSED
        } else {
            guest_pte
        };
        let perm = if (updated & PTE_DIRTY) == 0 && access != PTE_WRITE {
            guest_pte & (PTE_READ | PTE_EXECUTE)
        } else {
            guest_pte & (PTE_READ | PTE_WRITE | PTE_EXECUTE)
        };
        if translation.guest_pa > u64::MAX - state.guest_shift {
            state.actions.halt = Some(Halt::Unsupported);
            return true;
        }
        let host_pa = translation.guest_pa + state.guest_shift;
        if is_queue_access(state, translation.guest_pa) {
            let i = match instruction {
                Some(i) => i,
                None => {
                    state.actions.halt = Some(Halt::Unsupported);
                    return true;
                },
            };
            if updated != guest_pte {
                state.guest_memory.set(translation.pte_addr, updated);
            } else {
                proof {
                    assert(s0.guest_memory@.update(s0.guest_memory.slot(translation.pte_addr), updated) =~= s0.guest_memory@);
                }
            }
            let ghost m = *state;
            proof {
                assert(guest_word_written(&s0, &m, translation.pte_addr, updated));
                assert(m.wf());
            }
            let guest_pa = (translation.guest_pa & !0xfffu64) | (guest_va & 0xfff);
            let host_pa = (host_pa & !0xfffu64) | (guest_va & 0xfff);
            let handled = handle_queue_access(state, guest_pa, host_pa, i);
            proof {
                assert(queue_path_done(&s0, &*state, translation.pte_addr, updated, guest_pa, i));
            }
            return handled;
        }
        let spte = (host_pa >> 2u64) | perm | PTE_AD | PTE_USER | PTE_VALID;
        if page >= DIRECT_MAP_OFFSET || !is_sv39(page) || !state.shadow_page_tables.leaf_allowed(spte) {
            state.actions.halt = Some(Halt::Unsupported);
            return true;
        }
        if !state.shadow_page_tables.can_map(shadow, page) {
            state.actions.halt = Some(Halt::PageTablesFull);
            return true;
        }
        if updated != guest_pte {
            state.guest_memory.set(translation.pte_addr, updated);
        } else {
            proof {
                assert(s0.guest_memory@.update(s0.guest_memory.slot(translation.pte_addr), updated) =~= s0.guest_memory@);
            }
        }
        state.shadow_page_tables.rmw_mapping(shadow, page, spte);
        return true;
    } else if access != PTE_EXECUTE && state.smode {
        let pa = (translation.guest_pa & !0xfffu64) | (guest_va & 0xfff);
        if is_uart_access(pa) || is_plic_access(pa) || is_device_access(state, pa) {
            let i = match instruction {
                Some(i) => i,
                None => {
                    state.actions.halt = Some(Halt::Unsupported);
                    return true;
                },
            };
            if is_uart_access(pa) {
                return handle_uart_access(state, pa, i, host_input);
            }
            if is_plic_access(pa) {
                return handle_plic_access(state, pa, i);
            }
            return handle_device_access(state, pa, i);
        }
    }
    false
}

/// Shadow entry `spte` maps the page whose address bits are `frame` with permissions `perm`,
/// which grant read, write or execute only where the guest's entry `before` did, and write
/// only where the guest's entry `after` (once updated) is dirty; it is accessed, dirty, user
/// and valid.
pub open spec fn shadow_shape(spte: u64, frame: u64, perm: u64, before: u64, after: u64) -> bool {
    &&& spte == (frame | perm | PTE_AD | PTE_USER | PTE_VALID)
    &&& perm & !0xeu64 == 0
    &&& perm & !before == 0
    &&& perm & PTE_WRITE != 0 ==> after & PTE_DIRTY != 0
}

/// A guest page fault that ends in a shadow mapping marks the guest's leaf entry: it becomes the
/// entry it was with the accessed bit set, and for a store the dirty bit too, whatever the two
/// bits were before. The shadow entry installed for the page carries only permissions the
/// guest's entry grants, and write permission only where the guest's entry is dirty afterwards,
/// so the first store to a clean page faults again and marks it.
pub proof fn lemma_shadowed_fault_marks_entry(
    old: &Context,
    new: &Context,
    cause: u64,
    instruction: Option<u32>,
    guest_va: u64,
    host_input: Seq<u8>,
    handled: bool,
)
    requires
        old.wf(),
        cause == 12 || cause == 13 || cause == 15,
        page_fault_done(old, new, page_fault_path(old, cause, instruction, guest_va), host_input, handled),
    ensures
        page_fault_path(old, cause, instruction, guest_va) matches FaultPath::Shadowed { pte_addr, va, shadow_pte, .. } ==> {
            let before = old.guest_memory.at(pte_addr);
            let after = new.guest_memory.at(pte_addr);
            let gpa = (sv39_walk(old.guest_memory, guest_root(old), va)->0).1;
            &&& after == (if cause == 15 { before | PTE_ACCESSED | PTE_DIRTY } else { before | PTE_ACCESSED })
            &&& after & PTE_ACCESSED != 0
            &&& cause == 15 ==> after & PTE_DIRTY != 0
            &&& new.shadow_page_tables.lookup(new.shadow_page_tables.roots()[root_slot(old.spec_shadow())], va) == shadow_pte
            &&& exists|perm: u64| #[trigger] shadow_shape(shadow_pte, (((gpa + old.guest_shift) as u64) >> 2u64), perm, before, after)
        },
{
    reveal(page_fault_path);
    reveal(page_fault_done);
    let path = page_fault_path(old, cause, instruction, guest_va);
    if let FaultPath::Shadowed { pte_addr, updated, va, shadow_pte } = path {
        let page = guest_va & !0xfffu64;
        assert(va == page);
        lemma_walk_in_memory(old.guest_memory, guest_root(old), page);
        let (wp, gpa) = sv39_walk(old.guest_memory, guest_root(old), page)->0;
        let last = wp[wp.len() - 1];
        assert(pte_addr == last.addr);
        let pte = last.value;
        assert(pte == old.guest_memory.at(pte_addr));
        old.guest_memory.lemma_slot(pte_addr);
        let access = fault_access(cause);
        assert(updated == ad_updated(pte, access));
        assert(new.guest_memory.at(pte_addr) == updated);
        lemma_law_bits(pte, 0, 0, 0);
        lemma_law_bits(updated, 0, 0, 0);
        let perm = shadow_permissions(pte, updated, access);
        assert(shadow_pte == ((((gpa + old.guest_shift) as u64) >> 2u64) | perm | PTE_AD | PTE_USER | PTE_VALID));
        assert(PTE_READ | PTE_EXECUTE == 0xau64);
        assert(PTE_READ | PTE_WRITE | PTE_EXECUTE == 0xeu64);
        assert(perm & !0xeu64 == 0 && perm & !pte == 0 && (perm & PTE_WRITE != 0 ==> updated & PTE_DIRTY != 0));
        assert(updated == (if cause == 15 { pte | PTE_ACCESSED | PTE_DIRTY } else { pte | PTE_ACCESSED }));
        assert(updated & PTE_ACCESSED != 0);
        assert(cause == 15 ==> updated & PTE_DIRTY != 0);
        assert(new.shadow_page_tables.lookup(new.shadow_page_tables.roots()[root_slot(old.spec_shadow())], va) == shadow_pte);
        let before = old.guest_memory.at(pte_addr);
        let after = new.guest_memory.at(pte_addr);
        assert(gpa == (sv39_walk(old.guest_memory, guest_root(old), va)->0).1);
        assert(shadow_shape(shadow_pte, (((gpa + old.guest_shift) as u64) >> 2u64), perm, before, after));
    }
}

} // verus!
