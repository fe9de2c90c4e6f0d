//! What the hypervisor does when the guest traps: interrupts are taken and passed on to the
//! guest, exceptions are forwarded, and privileged instructions and SBI calls are emulated.
//! The hart's registers at the trap come in as values; what must be done to the hart comes
//! out in the context's pending actions.
use vstd::prelude::*;
use crate::bits::{U64Bits, bit_is_set, with_bit, STATUS_SPP, STATUS_SIE, TVEC_MODE, TVEC_BASE,
    IP_SEIP, IP_STIP, IP_SSIP, IE_SEIE, IE_STIE, IE_SSIE};
use crate::context::{Context, ControlRegisters, HartActions, Halt, IrqMapping, Uart, ConsoleOutput,
    pushed_sie, popped_sie, csr_read_value, csr_read_state, csr_written};
use crate::bits::{lemma_law_bits, STATUS_SPIE, STATUS_MXR, SSTATUS_WRITABLE_MASK, CSR_SSTATUS, CSR_TIME};
use crate::virtio::{Device, advanced};
use crate::outside::{decode, decoded, rd_of, rs1_of, csr_of, lemma_register_fields, instruction_length, spec_instruction_length};
use crate::pmap::{handle_sfence_vma, sfence_done, flush_shadow_page_table, flushed, spec_is_sv39, DIRECT_MAP_OFFSET};
use crate::pfault::{handle_page_fault, page_fault_done, page_fault_path};
use riscv_decode::Instruction;

verus! {

/// `new` is `old` after the guest takes trap `cause` at `sepc` with trap value `stval`: the
/// interrupt-enable bit is pushed, the previous mode is recorded, the guest enters S-mode, and
/// the hart resumes at `resume`.
pub open spec fn trap_taken(old: &Context, new: &Context, cause: u64, sepc: u64, stval: u64, resume: u64) -> bool {
    &&& new.csrs == (ControlRegisters {
        sstatus: with_bit(pushed_sie(old.csrs.sstatus), STATUS_SPP, old.smode),
        sepc,
        scause: cause,
        stval,
        ..old.csrs
    })
    &&& new.smode
    &&& new.no_interrupt == old.no_interrupt
    &&& new.plic == old.plic
    &&& new.same_memory_and_devices(old)
    &&& new.actions == (HartActions { sepc: resume, ..old.actions })
}

/// Forwards exception `cause`, taken at guest address `sepc` with trap value `stval`, to the
/// guest: it enters its trap vector in S-mode as the hardware would have entered it.
pub fn forward_exception(state: &mut Context, cause: u64, sepc: u64, stval: u64)
    requires
        old(state).wf(),
    ensures
        final(state).wf(),
        trap_taken(&*old(state), &*final(state), cause, sepc, stval, old(state).csrs.stvec & TVEC_BASE),
{
    state.csrs.push_sie();
    state.csrs.sepc = sepc;
    state.csrs.scause = cause;
    let smode = state.smode;
    state.csrs.sstatus.set(STATUS_SPP, smode);
    state.csrs.stval = stval;
    state.smode = true;
    state.actions.sepc = state.csrs.stvec & TVEC_BASE;
}

/// The guest's `sip` once a pending interrupt of its interrupt controller is reflected in SEIP.
pub open spec fn sip_with_external(s: &Context) -> u64 {
    if !bit_is_set(s.csrs.sip, IP_SEIP) && s.plic.has_candidate(s.plic.thresholds()[1]) {
        s.csrs.sip | IP_SEIP
    } else {
        s.csrs.sip
    }
}

/// The interrupt that the guest takes when `sip` is pending: external, else timer, else
/// software.
pub open spec fn interrupt_cause(sip: u64) -> u64 {
    if bit_is_set(sip, IP_SEIP) {
        9
    } else if bit_is_set(sip, IP_STIP) {
        5
    } else {
        1
    }
}

/// Where the guest enters its trap vector `stvec` for interrupt `cause`: the base, or in
/// vectored mode the base plus four bytes per cause.
pub open spec fn interrupt_vector(stvec: u64, cause: u64) -> u64 {
    if stvec & TVEC_MODE == 0 {
        stvec & TVEC_BASE
    } else {
        vstd::wrapping::u64_specs::wrapping_add(stvec & TVEC_BASE, (4 * cause) as u64)
    }
}

/// `new` is `old` after the check for an interrupt to pass to the guest, which resumes at
/// `sepc` unless it takes one.
pub open spec fn interrupt_checked(old: &Context, new: &Context, sepc: u64) -> bool {
    if old.no_interrupt {
        &&& new.csrs == old.csrs
        &&& new.smode == old.smode
        &&& new.no_interrupt
        &&& new.plic == old.plic
        &&& new.same_memory_and_devices(old)
        &&& new.actions == old.actions
    } else {
        let sip = sip_with_external(old);
        let enabled = !old.smode || bit_is_set(old.csrs.sstatus, STATUS_SIE);
        if enabled && old.csrs.sie & sip != 0 {
            let cause = interrupt_cause(sip);
            let with_sip = Context { csrs: ControlRegisters { sip, ..old.csrs }, ..*old };
            &&& trap_taken(&with_sip, new, 0x8000_0000_0000_0000u64 | cause, sepc, 0,
                interrupt_vector(old.csrs.stvec, cause))
        } else {
            &&& new.csrs == (ControlRegisters { sip, ..old.csrs })
            &&& new.smode == old.smode
            &&& new.no_interrupt
            &&& new.plic == old.plic
            &&& new.same_memory_and_devices(old)
            &&& new.actions == old.actions
        }
    }
}

/// Passes a pending interrupt on to the guest, where it has interrupts enabled for it: the
/// guest enters its trap vector as the hardware would have made it, and `sepc` is where it
/// was. Where no interrupt is taken, later exits skip the check until something changes.
pub fn maybe_forward_interrupt(state: &mut Context, sepc: u64)
    requires
        old(state).wf(),
    ensures
        final(state).wf(),
        interrupt_checked(&*old(state), &*final(state), sepc),
{
    if state.no_interrupt {
        return;
    }
    let ghost s0 = *state;
    if !state.csrs.sip.get(IP_SEIP) && state.plic.interrupt_pending() {
        state.csrs.sip.set(IP_SEIP, true);
    }
    let ghost s1 = *state;
    if (!state.smode || state.csrs.sstatus.get(STATUS_SIE)) && (state.csrs.sie & state.csrs.sip != 0) {
        let cause: u64 = if state.csrs.sip.get(IP_SEIP) {
            9
        } else if state.csrs.sip.get(IP_STIP) {
            5
        } else {
            proof {
                let sie = state.csrs.sie;
                let sip = state.csrs.sip;
                assert(sip & IP_SSIP != 0) by (bit_vector)
                    requires
                        sie & !(0x200u64 | 0x20u64 | 0x2u64) == 0,
                        sie & sip != 0,
                        sip & 0x200u64 == 0,
                        sip & 0x20u64 == 0;
            }
            1
        };
        state.csrs.push_sie();
        state.csrs.sepc = sepc;
        state.csrs.scause = 0x8000_0000_0000_0000u64 | cause;
        let smode = state.smode;
        state.csrs.sstatus.set(STATUS_SPP, smode);
        state.csrs.stval = 0;
        state.smode = true;
        let stvec = state.csrs.stvec;
        proof {
            assert(stvec & TVEC_MODE == 0 || stvec & TVEC_MODE == 1) by (bit_vector)
                requires stvec & 0x2 == 0;
        }
        if stvec & TVEC_MODE == 0 {
            state.actions.sepc = stvec & TVEC_BASE;
        } else {
            state.actions.sepc = (stvec & TVEC_BASE).wrapping_add(4 * cause);
        }
        proof {
            assert(s1.csrs == (ControlRegisters { sip: sip_with_external(&s0), ..s0.csrs }));
        }
    } else {
        state.no_interrupt = true;
    }
}

/// When the host timer fires next after a tick at `time`: after 1 000 000 time units at the
/// latest, earlier where the guest's timer or the serial port's next transmit interrupt is due
/// before that.
pub open spec fn next_timer(time: u64, guest_timer: u64, uart_next: u64) -> u64 {
    let a = (time + 1_000_000) as u64;
    let b = if guest_timer > time && guest_timer < a { guest_timer } else { a };
    if uart_next > time && uart_next < b { uart_next } else { b }
}

/// How many of `available` input bytes a receive FIFO holding `ready` bytes takes.
pub open spec fn fifo_intake(ready: usize, available: nat) -> int {
    vstd::math::min(16 - ready, available as int)
}

/// `new` is `old` after a host timer tick, with `host_input` the bytes the host console has
/// received.
pub open spec fn timer_ticked(old: &Context, new: &Context, host_input: Seq<u8>) -> bool {
    let time = old.host_clint.spec_mtime();
    let consumed = fifo_intake(old.uart.input_bytes_ready, host_input.len());
    let guest_timer_due = old.csrs.mtimecmp <= time;
    let uart_due = new.uart.spec_tx_interrupt(time) || new.uart.spec_rx_interrupt();
    &&& new.actions == (HartActions {
        timer: Some(next_timer(time, old.csrs.mtimecmp, old.uart.next_interrupt_time)),
        input_consumed: new.actions.input_consumed,
        ..old.actions
    })
    &&& new.actions.input_consumed == consumed
    &&& new.csrs == (ControlRegisters {
        sip: if guest_timer_due { old.csrs.sip | IP_STIP } else { old.csrs.sip },
        ..old.csrs
    })
    &&& new.uart.input() == old.uart.input() + host_input.subrange(0, consumed)
    &&& new.uart.dlab == old.uart.dlab
    &&& new.uart.divisor_latch == old.uart.divisor_latch
    &&& new.uart.interrupt_enable == old.uart.interrupt_enable
    &&& new.uart.next_interrupt_time == old.uart.next_interrupt_time
    &&& new.uart.line_buffer == old.uart.line_buffer
    &&& new.uart.guestid == old.uart.guestid
    &&& if uart_due {
        &&& new.plic.pending_updated(&old.plic, 10, true)
        &&& new.plic.same_except_pending(&old.plic)
    } else {
        new.plic == old.plic
    }
    &&& new.no_interrupt == (if guest_timer_due || uart_due { false } else { old.no_interrupt })
    &&& new.smode == old.smode
    &&& new.virtio.same(&old.virtio)
    &&& new.saved_registers == old.saved_registers
    &&& new.guest_memory == old.guest_memory
    &&& new.shadow_page_tables == old.shadow_page_tables
    &&& new.guest_shift == old.guest_shift
    &&& new.tlb_caches_invalid_ptes == old.tlb_caches_invalid_ptes
    &&& new.consecutive_page_fault_count == old.consecutive_page_fault_count
    &&& new.host_clint == old.host_clint
    &&& new.host_plic == old.host_plic
    &&& new.irq_map == old.irq_map
}

/// Whether the host interrupt that state `s` claims from its interrupt controller goes to a
/// passthrough device of the guest.
pub open spec fn claimed_for_guest(s: &Context) -> bool {
    let host_irq = s.host_plic.claim_clear.at(0);
    match s.irq_map@[host_irq as int] {
        IrqMapping::Virtio { device_index, guest_irq } => s.virtio.devices@[device_index as int] is Passthrough,
        IrqMapping::Ignored => false,
    }
}

/// Whether the host interrupt that state `s` claims can be taken: its number is one of the 512
/// sources, and where it goes to a passthrough device, the guest source it is mapped to is one
/// of the guest controller's 512 sources (a larger one has no pending bit to set).
pub open spec fn claim_deliverable(s: &Context) -> bool {
    let host_irq = s.host_plic.claim_clear.at(0);
    &&& host_irq < 512
    &&& claimed_for_guest(s) ==> s.irq_map@[host_irq as int]->guest_irq < 512
}

/// `new` is `old` after a host external interrupt: it is claimed and completed at the host's
/// interrupt controller, and where it belongs to a passthrough device the guest source it is
/// mapped to becomes pending, with SEIP set where the guest's controller lets it through.
pub open spec fn external_taken(old: &Context, new: &Context) -> bool {
    let host_irq = old.host_plic.claim_clear.at(0);
    &&& new.host_plic.wf()
    &&& new.host_plic.claim_clear.stores() == old.host_plic.claim_clear.stores().push((0u64, host_irq))
    &&& new.host_plic.claim_clear@ == old.host_plic.claim_clear@
    &&& new.host_plic.claim_clear.spec_base() == old.host_plic.claim_clear.spec_base()
    &&& new.host_plic.claim_clear.spec_len() == old.host_plic.claim_clear.spec_len()
    &&& new.uart == old.uart
    &&& new.smode == old.smode
    &&& new.virtio.same(&old.virtio)
    &&& new.saved_registers == old.saved_registers
    &&& new.guest_memory == old.guest_memory
    &&& new.shadow_page_tables == old.shadow_page_tables
    &&& new.guest_shift == old.guest_shift
    &&& new.tlb_caches_invalid_ptes == old.tlb_caches_invalid_ptes
    &&& new.consecutive_page_fault_count == old.consecutive_page_fault_count
    &&& new.host_clint == old.host_clint
    &&& new.irq_map == old.irq_map
    &&& if claimed_for_guest(old) {
        let guest_irq = old.irq_map@[host_irq as int]->guest_irq;
        let pending = new.plic.has_candidate(new.plic.thresholds()[1]);
        &&& new.plic.pending_updated(&old.plic, guest_irq as int, true)
        &&& new.plic.same_except_pending(&old.plic)
        &&& if pending {
            &&& new.csrs == (ControlRegisters { sip: old.csrs.sip | IP_SEIP, ..old.csrs })
            &&& !new.no_interrupt
            &&& new.actions == old.actions
        } else {
            &&& new.csrs == old.csrs
            &&& new.no_interrupt == old.no_interrupt
            &&& new.actions == (HartActions {
                halt: if bit_is_set(old.csrs.sip, IP_SEIP) { Some(Halt::MaskedInterrupt) } else { old.actions.halt },
                ..old.actions
            })
        }
    } else {
        &&& new.plic == old.plic
        &&& new.csrs == old.csrs
        &&& new.no_interrupt == old.no_interrupt
        &&& new.actions == old.actions
    }
}

/// Takes the host interrupt `cause`: a timer tick (interrupt 5) or an external interrupt
/// (interrupt 9). `host_input` holds the bytes the host console has received.
pub fn handle_interrupt(state: &mut Context, cause: u64, host_input: &Vec<u8>)
    requires
        old(state).wf(),
        cause & 0xff == 5 || cause & 0xff == 9,
        cause & 0xff == 5 ==> old(state).host_clint.spec_mtime() + 1_000_000 <= u64::MAX,
        cause & 0xff == 9 ==> claim_deliverable(&*old(state)),
    ensures
        final(state).wf(),
        cause & 0xff == 5 ==> timer_ticked(&*old(state), &*final(state), host_input@),
        cause & 0xff == 9 ==> external_taken(&*old(state), &*final(state)),
{
    let interrupt = cause & 0xff;
    if interrupt == 5 {
        take_timer_interrupt(state, host_input);
    } else {
        take_external_interrupt(state);
    }
}

fn take_timer_interrupt(state: &mut Context, host_input: &Vec<u8>)
    requires
        old(state).wf(),
        old(state).host_clint.spec_mtime() + 1_000_000 <= u64::MAX,
    ensures
        final(state).wf(),
        timer_ticked(&*old(state), &*final(state), host_input@),
{
        let time = state.host_clint.get_mtime();
        let mut next = time + 1_000_000;
        let consumed = Uart::timer(state, time, host_input);
        state.actions.input_consumed = consumed;
        if state.csrs.mtimecmp <= time {
            state.csrs.sip = state.csrs.sip | IP_STIP;
            state.no_interrupt = false;
        } else if state.csrs.mtimecmp < next {
            next = state.csrs.mtimecmp;
        }
        if state.uart.next_interrupt_time > time && state.uart.next_interrupt_time < next {
            next = state.uart.next_interrupt_time;
        }
        state.actions.timer = Some(next);
}

fn take_external_interrupt(state: &mut Context)
    requires
        old(state).wf(),
        claim_deliverable(&*old(state)),
    ensures
        final(state).wf(),
        external_taken(&*old(state), &*final(state)),
{
        let ghost s0 = *state;
        let host_irq = state.host_plic.claim_and_clear();
        let mapping = state.irq_map[host_irq as usize];
        proof {
            assert(s0.irq_map@[host_irq as int].wf());
        }
        match mapping {
            IrqMapping::Virtio { device_index, guest_irq } => {
                let forward = match &state.virtio.devices[device_index as usize] {
                    Device::Passthrough { .. } => true,
                    Device::Unmapped => false,
                };
                if forward {
                    state.plic.set_pending(guest_irq as u32, true);
                    if state.plic.interrupt_pending() {
                        state.no_interrupt = false;
                        state.csrs.sip = state.csrs.sip | IP_SEIP;
                    } else if state.csrs.sip & IP_SEIP != 0 {
                        state.actions.halt = Some(Halt::MaskedInterrupt);
                    }
                }
            },
            IrqMapping::Ignored => {},
        }
}

/// How a CSR instruction combines the CSR's value with its operand.
#[derive(Copy, Clone, PartialEq, Eq, Structural)]
pub enum CsrOp {
    /// `csrrw`, `csrrwi`: the operand replaces the value.
    ReadWrite,
    /// `csrrs`, `csrrsi`: the operand's bits are set.
    ReadSet,
    /// `csrrc`, `csrrci`: the operand's bits are cleared.
    ReadClear,
}

/// The value a CSR instruction writes back over `prev`, if it writes: setting and clearing
/// with a zero operand write nothing.
pub open spec fn csr_new_value(op: CsrOp, prev: u64, operand: u64) -> Option<u64> {
    match op {
        CsrOp::ReadWrite => Some(operand),
        CsrOp::ReadSet => if operand != 0 { Some(prev | operand) } else { None },
        CsrOp::ReadClear => if operand != 0 { Some(prev & !operand) } else { None },
    }
}

/// `new` is `a` with register `x{rd}` set to `value`.
pub open spec fn register_written(a: &Context, new: &Context, rd: u32, value: u64) -> bool {
    &&& new.saved_registers.wf()
    &&& forall|r: int| 0 <= r < 32 ==> #[trigger] new.saved_registers.reg(r) == (if r == rd && r != 0 {
        value
    } else {
        a.saved_registers.reg(r)
    })
    &&& *new == (Context { saved_registers: new.saved_registers, ..*a })
}

/// Whether the guest's CSR instruction on `csr` with operand `operand` asks for a change of
/// `sstatus.MXR`, which is not emulated.
pub open spec fn csr_instruction_unsupported(old: &Context, csr: u32, operand: u64, op: CsrOp, hw_sstatus: u64) -> bool {
    match csr_read_value(old, csr, hw_sstatus) {
        Some(prev) => match csr_new_value(op, prev, operand) {
            Some(v) => csr == CSR_SSTATUS
                && (csr_read_state(old, csr, hw_sstatus).csrs.sstatus ^ (v & SSTATUS_WRITABLE_MASK)) & STATUS_MXR != 0,
            None => false,
        },
        None => false,
    }
}

/// `new` is `old` after the guest's CSR instruction on `csr` with destination `rd` and operand
/// `operand`: the CSR is read into `rd` and written back as `op` says, where it is emulated;
/// nothing happens where it is not.
pub open spec fn csr_instruction_done(old: &Context, new: &Context, csr: u32, rd: u32, operand: u64, op: CsrOp, hw_sstatus: u64) -> bool {
    match csr_read_value(old, csr, hw_sstatus) {
        None => *new == *old,
        Some(prev) => {
            let mid = csr_read_state(old, csr, hw_sstatus);
            match csr_new_value(op, prev, operand) {
                Some(v) => exists|w: Context| #[trigger] csr_written(&mid, &w, csr, v) && register_written(&w, new, rd, prev),
                None => register_written(&mid, new, rd, prev),
            }
        },
    }
}

/// Emulates a guest CSR instruction on `csr`, with destination `rd` and operand `operand`;
/// `hw_sstatus` is the hart's own `sstatus`.
fn emulate_csr(state: &mut Context, csr: u32, rd: u32, operand: u64, op: CsrOp, hw_sstatus: u64)
    requires
        old(state).wf(),
        old(state).smode,
        old(state).actions.halt is None,
        rd < 32,
    ensures
        csr_instruction_unsupported(&*old(state), csr, operand, op, hw_sstatus) ==> final(state).actions.halt == Some(Halt::Unsupported),
        !csr_instruction_unsupported(&*old(state), csr, operand, op, hw_sstatus) ==> {
            &&& final(state).wf()
            &&& csr_instruction_done(&*old(state), &*final(state), csr, rd, operand, op, hw_sstatus)
        },
{
    let ghost s0 = *state;
    if let Some(prev) = state.get_csr(csr, hw_sstatus) {
        let ghost mid = *state;
        let write = match op {
            CsrOp::ReadWrite => Some(operand),
            CsrOp::ReadSet => if operand != 0 { Some(prev | operand) } else { None },
            CsrOp::ReadClear => if operand != 0 { Some(prev & !operand) } else { None },
        };
        if let Some(v) = write {
            if csr == CSR_SSTATUS && (state.csrs.sstatus ^ (v & SSTATUS_WRITABLE_MASK)) & STATUS_MXR != 0 {
                state.actions.halt = Some(Halt::Unsupported);
                return;
            }
            state.set_csr(csr, v);
            let ghost w = *state;
            state.saved_registers.set(rd, prev);
            proof {
                assert(csr_written(&mid, &w, csr, v));
                assert(*state == (Context { saved_registers: state.saved_registers, ..w }));
                assert(register_written(&w, &*state, rd, prev));
            }
        } else {
            state.saved_registers.set(rd, prev);
            proof {
                assert(*state == (Context { saved_registers: state.saved_registers, ..mid }));
            }
        }
    }
}

/// `new` is `old` after the guest's `sret`: interrupts are re-enabled as SPIE says, the guest
/// returns to the mode SPP names (SPP is cleared), and resumes at its `sepc`. Returning to
/// U-mode, or re-enabling interrupts, makes pending interrupts worth a check.
pub open spec fn sret_done(old: &Context, new: &Context) -> bool {
    let sst = old.csrs.sstatus;
    let smode = bit_is_set(sst, STATUS_SPP);
    &&& new.csrs == (ControlRegisters { sstatus: with_bit(popped_sie(sst), STATUS_SPP, false), ..old.csrs })
    &&& new.smode == smode
    &&& new.no_interrupt == (if (!bit_is_set(sst, STATUS_SIE) && bit_is_set(sst, STATUS_SPIE)) || !smode {
        false
    } else {
        old.no_interrupt
    })
    &&& new.plic == old.plic
    &&& new.same_memory_and_devices(old)
    &&& new.actions == (HartActions { sepc: old.csrs.sepc, ..old.actions })
}

fn emulate_sret(state: &mut Context)
    requires
        old(state).wf(),
    ensures
        final(state).wf(),
        sret_done(&*old(state), &*final(state)),
{
    let ghost s0 = *state;
    if !state.csrs.sstatus.get(STATUS_SIE) && state.csrs.sstatus.get(STATUS_SPIE) {
        state.no_interrupt = false;
    }
    state.csrs.pop_sie();
    proof {
        let sst = s0.csrs.sstatus;
        assert(bit_is_set(popped_sie(sst), STATUS_SPP) == bit_is_set(sst, STATUS_SPP)) by (bit_vector)
            requires
                popped_sie(sst) == with_bit(with_bit(sst, STATUS_SIE, bit_is_set(sst, STATUS_SPIE)), STATUS_SPIE, true);
    }
    state.smode = state.csrs.sstatus.get(STATUS_SPP);
    state.csrs.sstatus.set(STATUS_SPP, false);
    state.actions.sepc = state.csrs.sepc;
    if !state.smode {
        state.no_interrupt = false;
    }
}

/// `new` is `m` with the guest resuming at `pc`.
pub open spec fn resumed_at(m: &Context, new: &Context, pc: u64) -> bool {
    *new == (Context { actions: HartActions { sepc: pc, ..m.actions }, ..*m })
}

/// The register operand of a CSR instruction with bits `bits` in state `s`: the source
/// register's value, or for the immediate forms the 5-bit immediate.
pub open spec fn csr_operand(s: &Context, bits: u32, immediate: bool) -> u64 {
    if immediate { rs1_of(bits) as u64 } else { s.saved_registers.reg(rs1_of(bits) as int) }
}

/// The CSR operation and operand form of a decoded instruction, if it is a CSR instruction.
pub open spec fn csr_instruction(i: Instruction) -> Option<(u32, CsrOp, bool)> {
    match i {
        Instruction::Csrrw(t) => Some((t.0, CsrOp::ReadWrite, false)),
        Instruction::Csrrs(t) => Some((t.0, CsrOp::ReadSet, false)),
        Instruction::Csrrc(t) => Some((t.0, CsrOp::ReadClear, false)),
        Instruction::Csrrwi(t) => Some((t.0, CsrOp::ReadWrite, true)),
        Instruction::Csrrsi(t) => Some((t.0, CsrOp::ReadSet, true)),
        Instruction::Csrrci(t) => Some((t.0, CsrOp::ReadClear, true)),
        _ => None,
    }
}

/// Whether emulating the illegal instruction with bits `instruction` in state `old` stops the
/// hart whatever the shadow page tables hold: a CSR instruction that changes `sstatus.MXR`, or
/// an `sfence.vma` of an address that is not a valid Sv39 address below the direct map.
pub open spec fn illegal_instruction_unsupported(old: &Context, instruction: u32, hw_sstatus: u64) -> bool {
    match decoded(instruction) {
        Ok(Instruction::SfenceVma(t)) => {
            let rs1 = rs1_of(t.0);
            let va = old.saved_registers.reg(rs1 as int);
            rs1 != 0 && va < DIRECT_MAP_OFFSET && !spec_is_sv39(va)
        },
        Ok(i) => match csr_instruction(i) {
            Some((bits, op, imm)) => csr_instruction_unsupported(old, csr_of(bits), csr_operand(old, bits, imm), op, hw_sstatus),
            None => false,
        },
        Err(_) => false,
    }
}

/// `new` is `old` after emulating the guest instruction with bits `instruction`, `len` bytes
/// long, that trapped as illegal in S-mode with trap value `stval`: `sret`, `sfence.vma`, the
/// CSR instructions and `wfi` are emulated and the guest resumes after them (after `sret`, at
/// its `sepc`); any other instruction's exception goes to the guest.
pub open spec fn illegal_instruction_done(old: &Context, new: &Context, instruction: u32, len: u64, stval: u64, hw_sstatus: u64) -> bool {
    let pc = old.actions.sepc;
    let next = vstd::wrapping::u64_specs::wrapping_add(pc, len);
    match decoded(instruction) {
        Ok(Instruction::Sret) => sret_done(old, new),
        Ok(Instruction::SfenceVma(t)) => exists|m: Context| #[trigger] sfence_done(old, &m, rs1_of(t.0)) && resumed_at(&m, new, next),
        Ok(Instruction::Wfi) => resumed_at(old, new, next),
        Ok(i) => match csr_instruction(i) {
            Some((bits, op, imm)) => exists|m: Context| #[trigger] csr_instruction_done(old, &m, csr_of(bits), rd_of(bits),
                csr_operand(old, bits, imm), op, hw_sstatus) && resumed_at(&m, new, next),
            None => trap_taken(old, new, 2, pc, stval, old.csrs.stvec & TVEC_BASE),
        },
        Err(_) => trap_taken(old, new, 2, pc, stval, old.csrs.stvec & TVEC_BASE),
    }
}

/// Emulates the guest instruction with bits `instruction`, `len` bytes long, that trapped as
/// illegal while the guest was in S-mode, with trap value `stval`; `hw_sstatus` is the hart's
/// own `sstatus`. The instruction is at the guest's resume address.
pub fn emulate_illegal_instruction(state: &mut Context, instruction: u32, len: u64, stval: u64, hw_sstatus: u64)
    requires
        old(state).wf(),
        old(state).smode,
        old(state).actions.halt is None,
    ensures
        illegal_instruction_unsupported(&*old(state), instruction, hw_sstatus) ==> final(state).actions.halt == Some(Halt::Unsupported),
        !illegal_instruction_unsupported(&*old(state), instruction, hw_sstatus) ==> {
            &&& final(state).actions.halt is None || final(state).actions.halt == Some(Halt::PageTablesFull)
            &&& old(state).shadow_page_tables.free_list().len() >= 6 ==> final(state).actions.halt is None
            &&& final(state).actions.halt is None ==> final(state).wf()
                && illegal_instruction_done(&*old(state), &*final(state), instruction, len, stval, hw_sstatus)
        },
{
    let ghost s0 = *state;
    let pc = state.actions.sepc;
    let insn = decode(instruction);
    let mut advance_pc = true;
    match insn {
        Ok(Instruction::Sret) => {
            emulate_sret(state);
            advance_pc = false;
        },
        Ok(Instruction::SfenceVma(t)) => {
            handle_sfence_vma(state, t);
        },
        Ok(Instruction::Csrrw(t)) => {
            proof { lemma_register_fields(t.0); }
            let operand = state.saved_registers.get(t.rs1());
            emulate_csr(state, t.csr(), t.rd(), operand, CsrOp::ReadWrite, hw_sstatus);
        },
        Ok(Instruction::Csrrs(t)) => {
            proof { lemma_register_fields(t.0); }
            let operand = state.saved_registers.get(t.rs1());
            emulate_csr(state, t.csr(), t.rd(), operand, CsrOp::ReadSet, hw_sstatus);
        },
        Ok(Instruction::Csrrc(t)) => {
            proof { lemma_register_fields(t.0); }
            let operand = state.saved_registers.get(t.rs1());
            emulate_csr(state, t.csr(), t.rd(), operand, CsrOp::ReadClear, hw_sstatus);
        },
        Ok(Instruction::Csrrwi(t)) => {
            proof { lemma_register_fields(t.0); }
            emulate_csr(state, t.csr(), t.rd(), t.zimm() as u64, CsrOp::ReadWrite, hw_sstatus);
        },
        Ok(Instruction::Csrrsi(t)) => {
            proof { lemma_register_fields(t.0); }
            emulate_csr(state, t.csr(), t.rd(), t.zimm() as u64, CsrOp::ReadSet, hw_sstatus);
        },
        Ok(Instruction::Csrrci(t)) => {
            proof { lemma_register_fields(t.0); }
            emulate_csr(state, t.csr(), t.rd(), t.zimm() as u64, CsrOp::ReadClear, hw_sstatus);
        },
        Ok(Instruction::Wfi) => {},
        _ => {
            forward_exception(state, 2, pc, stval);
            advance_pc = false;
        },
    }
    if state.actions.halt.is_some() {
        return;
    }
    if advance_pc {
        let ghost m = *state;
        state.actions.sepc = pc.wrapping_add(len);
        proof {
            assert(resumed_at(&m, &*state, state.actions.sepc));
        }
    }
}

/// `new` is `old` after the guest's SBI call to set its timer: the guest timer compares against
/// the value in `a0`, its pending timer interrupt is cleared, and the host timer is set to it.
pub open spec fn sbi_timer_done(old: &Context, new: &Context) -> bool {
    let value = old.saved_registers.reg(10);
    *new == (Context {
        csrs: ControlRegisters { sip: old.csrs.sip & !IP_STIP, mtimecmp: value, ..old.csrs },
        actions: HartActions { timer: Some(value), ..old.actions },
        ..*old
    })
}

fn sbi_set_timer(state: &mut Context)
    requires
        old(state).wf(),
    ensures
        final(state).wf(),
        sbi_timer_done(&*old(state), &*final(state)),
{
    state.csrs.sip.set(IP_STIP, false);
    state.csrs.mtimecmp = state.saved_registers.get(10);
    state.actions.timer = Some(state.csrs.mtimecmp);
}

/// `new` is `old` after the guest's SBI call to print the byte in `a0` on the console.
pub open spec fn sbi_putchar_done(old: &Context, new: &Context) -> bool {
    let value = old.saved_registers.reg(10) as u8;
    exists|out: ConsoleOutput| #[trigger] Uart::printed(&old.uart, &new.uart, value, out)
        && new.actions == (HartActions { console: new.actions.console, ..old.actions })
        && new.actions.console@ == old.actions.console@.push(out)
        && *new == (Context { uart: new.uart, actions: new.actions, ..*old })
}

fn sbi_console_putchar(state: &mut Context)
    requires
        old(state).wf(),
    ensures
        final(state).wf(),
        sbi_putchar_done(&*old(state), &*final(state)),
{
    let value = state.saved_registers.get(10) as u8;
    let out = state.uart.output_byte(value);
    let ghost o = out;
    state.actions.console.push(out);
    proof {
        assert(Uart::printed(&old(state).uart, &state.uart, value, o));
    }
}

/// `new` is `old` after the guest's SBI call (in S-mode), whose function number is in `a7`:
/// set the timer (0), print a byte (1), synchronize instruction fetches (5), or fence remote
/// harts' translations (6, 7), which drops every guest translation of the shadowed address
/// spaces and has the hart drop all its cached translations. The guest resumes after the
/// `ecall`.
pub open spec fn ecall_done(old: &Context, new: &Context) -> bool {
    let function = old.saved_registers.reg(17);
    let next = vstd::wrapping::u64_specs::wrapping_add(old.actions.sepc, 4);
    if function == 0 {
        exists|m: Context| #[trigger] sbi_timer_done(old, &m) && resumed_at(&m, new, next)
    } else if function == 1 {
        exists|m: Context| #[trigger] sbi_putchar_done(old, &m) && resumed_at(&m, new, next)
    } else if function == 5 {
        *new == (Context { actions: HartActions { fence_i: true, sepc: next, ..old.actions }, ..*old })
    } else if function == 6 || function == 7 {
        &&& flushed(&old.shadow_page_tables, &new.shadow_page_tables)
        &&& *new == (Context {
            shadow_page_tables: new.shadow_page_tables,
            actions: HartActions { sepc: next, sfence: true, ..old.actions },
            ..*old
        })
    } else {
        new.actions.halt == Some(Halt::UnknownEcall(function))
    }
}

/// Emulates the guest's SBI call (an `ecall` from S-mode); an unknown function stops the hart.
pub fn handle_ecall(state: &mut Context)
    requires
        old(state).wf(),
        old(state).actions.halt is None,
    ensures
        ecall_done(&*old(state), &*final(state)),
        final(state).actions.halt is None ==> final(state).wf(),
{
    let function = state.saved_registers.get(17);
    if function == 0 {
        sbi_set_timer(state);
    } else if function == 1 {
        sbi_console_putchar(state);
    } else if function == 5 {
        state.actions.fence_i = true;
    } else if function == 6 || function == 7 {
        flush_shadow_page_table(&mut state.shadow_page_tables, &mut state.actions);
    } else {
        state.actions.halt = Some(Halt::UnknownEcall(function));
        return;
    }
    let ghost m = *state;
    state.actions.sepc = state.actions.sepc.wrapping_add(4);
    proof {
        assert(resumed_at(&m, &*state, state.actions.sepc));
    }
}

/// The hart's registers that describe a trap from the guest.
pub struct TrapFrame {
    /// `scause`: what trapped.
    pub cause: u64,
    /// `sstatus`.
    pub sstatus: u64,
    /// `sepc`: where the guest was.
    pub sepc: u64,
    /// `stval`: the trap's value.
    pub stval: u64,
    /// `satp`: the page table the hart translates through.
    pub satp: u64,
}

/// No action pending, and the guest resuming at `sepc`.
pub open spec fn fresh_actions(a: HartActions, sepc: u64) -> bool {
    &&& a.sepc == sepc
    &&& a.sstatus_fs is None
    &&& !a.sfence
    &&& a.sfence_va is None
    &&& a.timer is None
    &&& !a.fence_i
    &&& a.console@.len() == 0
    &&& a.halt is None
    &&& a.satp is None
    &&& a.input_consumed == 0
}

/// `r0` is `old` as a trap at `trap` finds it: no action pending yet.
pub open spec fn entered(old: &Context, r0: &Context, trap: TrapFrame) -> bool {
    &&& fresh_actions(r0.actions, trap.sepc)
    &&& *r0 == (Context { actions: r0.actions, ..*old })
}

/// `new` is `m` once the hart is set to translate through the shadow tables that serve the
/// guest's current mode; `current_satp` is the hart's `satp`.
pub open spec fn root_installed(m: &Context, new: &Context, current_satp: u64) -> bool {
    let wanted = m.shadow_page_tables.satp_for(m.spec_shadow());
    *new == (Context {
        actions: HartActions { satp: if current_satp != wanted { Some(wanted) } else { None }, ..m.actions },
        ..*m
    })
}

/// `new` is `m` after the check for an interrupt to pass on (the guest being at `pc`) and the
/// choice of shadow tables; or `m` itself where the hart stops.
pub open spec fn finished(m: &Context, new: &Context, pc: u64, current_satp: u64) -> bool {
    if m.actions.halt is Some {
        *new == *m
    } else {
        exists|m2: Context| #[trigger] interrupt_checked(m, &m2, pc) && root_installed(&m2, new, current_satp)
    }
}

/// `new` is `m` after the choice of shadow tables; or `m` itself where the hart stops.
pub open spec fn installed_or_stopped(m: &Context, new: &Context, current_satp: u64) -> bool {
    if m.actions.halt is Some {
        *new == *m
    } else {
        root_installed(m, new, current_satp)
    }
}

/// `new` is `old` after the host interrupt `cause`.
pub open spec fn interrupt_taken(old: &Context, new: &Context, cause: u64, host_input: Seq<u8>) -> bool {
    &&& cause & 0xff == 5 ==> timer_ticked(old, new, host_input)
    &&& cause & 0xff == 9 ==> external_taken(old, new)
}

/// The bits of a loaded instruction.
pub open spec fn instruction_bits(instruction: Option<(u32, u64)>) -> Option<u32> {
    match instruction {
        Some((bits, _)) => Some(bits),
        None => None,
    }
}

/// `new` is `r0` after the trap `trap` has been dealt with, as its cause says: an interrupt is
/// taken and then possibly passed on; a page fault is handled or forwarded; an illegal
/// instruction in S-mode is emulated; an SBI call is carried out; any other exception is
/// forwarded to the guest. A trap from the hypervisor itself stops the hart.
pub open spec fn trap_steps(r0: &Context, new: &Context, trap: TrapFrame, instruction: Option<(u32, u64)>, host_input: Seq<u8>) -> bool {
    let cause = trap.cause;
    if trap.sstatus & STATUS_SPP != 0 {
        new.actions.halt == Some(Halt::HypervisorTrap)
    } else if cause >= 0x8000_0000_0000_0000 {
        exists|m1: Context| #[trigger] interrupt_taken(r0, &m1, cause, host_input)
            && finished(&m1, new, m1.actions.sepc, trap.satp)
    } else if cause == 12 || cause == 13 || cause == 15 {
        let path = page_fault_path(r0, cause, instruction_bits(instruction), trap.stval);
        exists|m1: Context, handled: bool| #[trigger] page_fault_done(r0, &m1, path, host_input, handled)
            && if m1.actions.halt is Some {
                *new == m1
            } else if handled {
                finished(&m1, new, trap.sepc, trap.satp)
            } else {
                exists|m2: Context| #[trigger] trap_taken(&m1, &m2, cause, trap.sepc, trap.stval, m1.csrs.stvec & TVEC_BASE)
                    && root_installed(&m2, new, trap.satp)
            }
    } else if cause == 2 && r0.smode {
        let bits = instruction.unwrap().0;
        let len = instruction.unwrap().1;
        exists|m1: Context| #[trigger] illegal_instruction_result(r0, &m1, bits, len, trap.stval, trap.sstatus)
            && finished(&m1, new, m1.actions.sepc, trap.satp)
    } else if cause == 8 && r0.smode {
        exists|m1: Context| #[trigger] ecall_done(r0, &m1) && installed_or_stopped(&m1, new, trap.satp)
    } else {
        exists|m1: Context| #[trigger] trap_taken(r0, &m1, cause, trap.sepc, trap.stval, r0.csrs.stvec & TVEC_BASE)
            && root_installed(&m1, new, trap.satp)
    }
}

/// `new` is `old` after the emulation of the illegal instruction with bits `bits`, as
/// `emulate_illegal_instruction` promises.
pub open spec fn illegal_instruction_result(old: &Context, new: &Context, bits: u32, len: u64, stval: u64, hw_sstatus: u64) -> bool {
    if illegal_instruction_unsupported(old, bits, hw_sstatus) {
        new.actions.halt == Some(Halt::Unsupported)
    } else {
        &&& new.actions.halt is None || new.actions.halt == Some(Halt::PageTablesFull)
        &&& old.shadow_page_tables.free_list().len() >= 6 ==> new.actions.halt is None
        &&& new.actions.halt is None ==> illegal_instruction_done(old, new, bits, len, stval, hw_sstatus)
    }
}

fn trap_interrupt(state: &mut Context, trap: &TrapFrame, host_input: &Vec<u8>)
    requires
        old(state).wf(),
        trap.sstatus & STATUS_SPP == 0,
        trap.cause >= 0x8000_0000_0000_0000,
        trap.cause & 0xff == 5 || trap.cause & 0xff == 9,
        trap.cause & 0xff == 5 ==> old(state).host_clint.spec_mtime() + 1_000_000 <= u64::MAX,
        trap.cause & 0xff == 9 ==> claim_deliverable(&*old(state)),
    ensures
        trap_steps(&*old(state), &*final(state), *trap, None, host_input@),
        final(state).actions.halt is None ==> final(state).wf(),
{
    let cause = trap.cause;
    handle_interrupt(state, cause, host_input);
    let ghost m1 = *state;
    if state.actions.halt.is_some() {
        proof {
            assert(interrupt_taken(&*old(state), &m1, cause, host_input@) && finished(&m1, &*state, m1.actions.sepc, trap.satp));
        }
        return;
    }
    let pc = state.actions.sepc;
    maybe_forward_interrupt(state, pc);
    let ghost m2 = *state;
    let root = state.shadow();
    state.actions.satp = state.shadow_page_tables.install_root(root, trap.satp);
    proof {
        assert(interrupt_checked(&m1, &m2, pc) && root_installed(&m2, &*state, trap.satp));
        assert(interrupt_taken(&*old(state), &m1, cause, host_input@) && finished(&m1, &*state, m1.actions.sepc, trap.satp));
    }
}

fn trap_page_fault(state: &mut Context, trap: &TrapFrame, instruction: Option<(u32, u64)>, host_input: &Vec<u8>)
    requires
        old(state).wf(),
        old(state).actions.halt is None,
        trap.sstatus & STATUS_SPP == 0,
        trap.cause == 12 || trap.cause == 13 || trap.cause == 15,
    ensures
        trap_steps(&*old(state), &*final(state), *trap, instruction, host_input@),
        final(state).actions.halt is None ==> final(state).wf(),
{
    let cause = trap.cause;
    let pc = trap.sepc;
    let bits = match instruction {
        Some((b, _)) => Some(b),
        None => None,
    };
    let handled = handle_page_fault(state, cause, bits, trap.stval, host_input);
    let ghost m1 = *state;
    if state.actions.halt.is_some() {
        return;
    }
    proof {
        assert(page_fault_done(&*old(state), &m1, page_fault_path(&*old(state), cause, instruction_bits(instruction), trap.stval), host_input@, handled));
    }
    if handled {
        maybe_forward_interrupt(state, pc);
        let ghost m2 = *state;
        let root = state.shadow();
        state.actions.satp = state.shadow_page_tables.install_root(root, trap.satp);
        proof {
            assert(interrupt_checked(&m1, &m2, pc) && root_installed(&m2, &*state, trap.satp));
            assert(finished(&m1, &*state, trap.sepc, trap.satp));
        }
    } else {
        forward_exception(state, cause, pc, trap.stval);
        let ghost m2 = *state;
        let root = state.shadow();
        state.actions.satp = state.shadow_page_tables.install_root(root, trap.satp);
        proof {
            assert(trap_taken(&m1, &m2, cause, trap.sepc, trap.stval, m1.csrs.stvec & TVEC_BASE) && root_installed(&m2, &*state, trap.satp));
        }
    }
}

fn trap_illegal_instruction(state: &mut Context, trap: &TrapFrame, instruction: Option<(u32, u64)>)
    requires
        old(state).wf(),
        old(state).actions.halt is None,
        old(state).smode,
        trap.sstatus & STATUS_SPP == 0,
        trap.cause == 2,
        instruction is Some,
    ensures
        trap_steps(&*old(state), &*final(state), *trap, instruction, Seq::empty()),
        final(state).actions.halt is None ==> final(state).wf(),
{
    let (bits, len) = match instruction {
        Some(i) => i,
        None => (0, 0),
    };
    emulate_illegal_instruction(state, bits, len, trap.stval, trap.sstatus);
    let ghost m1 = *state;
    proof {
        assert(illegal_instruction_result(&*old(state), &m1, bits, len, trap.stval, trap.sstatus));
    }
    if state.actions.halt.is_some() {
        return;
    }
    let pc = state.actions.sepc;
    maybe_forward_interrupt(state, pc);
    let ghost m2 = *state;
    let root = state.shadow();
    state.actions.satp = state.shadow_page_tables.install_root(root, trap.satp);
    proof {
        assert(interrupt_checked(&m1, &m2, pc) && root_installed(&m2, &*state, trap.satp));
        assert(finished(&m1, &*state, m1.actions.sepc, trap.satp));
    }
}

fn trap_ecall(state: &mut Context, trap: &TrapFrame)
    requires
        old(state).wf(),
        old(state).actions.halt is None,
        old(state).smode,
        trap.sstatus & STATUS_SPP == 0,
        trap.cause == 8,
    ensures
        trap_steps(&*old(state), &*final(state), *trap, None, Seq::empty()),
        final(state).actions.halt is None ==> final(state).wf(),
{
    handle_ecall(state);
    let ghost m1 = *state;
    if state.actions.halt.is_some() {
        proof {
            assert(ecall_done(&*old(state), &m1) && installed_or_stopped(&m1, &*state, trap.satp));
        }
        return;
    }
    let root = state.shadow();
    state.actions.satp = state.shadow_page_tables.install_root(root, trap.satp);
    proof {
        assert(ecall_done(&*old(state), &m1) && installed_or_stopped(&m1, &*state, trap.satp));
    }
}

fn trap_forward(state: &mut Context, trap: &TrapFrame)
    requires
        old(state).wf(),
        trap.sstatus & STATUS_SPP == 0,
        trap.cause < 0x8000_0000_0000_0000,
        trap.cause != 12 && trap.cause != 13 && trap.cause != 15,
        !(trap.cause == 2 && old(state).smode),
        !(trap.cause == 8 && old(state).smode),
    ensures
        trap_steps(&*old(state), &*final(state), *trap, None, Seq::empty()),
        final(state).wf(),
{
    forward_exception(state, trap.cause, trap.sepc, trap.stval);
    let ghost m1 = *state;
    let root = state.shadow();
    state.actions.satp = state.shadow_page_tables.install_root(root, trap.satp);
    proof {
        assert(trap_taken(&*old(state), &m1, trap.cause, trap.sepc, trap.stval, old(state).csrs.stvec & TVEC_BASE)
            && root_installed(&m1, &*state, trap.satp));
    }
}

/// Deals with a trap from the guest: `trap` holds the hart's registers, `instruction` the
/// faulting instruction and its length where it was loaded (for load, store and illegal
/// instruction faults), and `host_input` the bytes the host console has received. The context
/// ends up with the actions the hart must carry out before it returns to the guest.
pub fn strap(state: &mut Context, trap: &TrapFrame, instruction: Option<(u32, u64)>, host_input: &Vec<u8>)
    requires
        old(state).wf(),
        trap.cause >= 0x8000_0000_0000_0000 ==> {
            &&& trap.cause & 0xff == 5 || trap.cause & 0xff == 9
            &&& trap.cause & 0xff == 5 ==> old(state).host_clint.spec_mtime() + 1_000_000 <= u64::MAX
            &&& trap.cause & 0xff == 9 ==> claim_deliverable(&*old(state))
        },
        trap.cause == 2 && old(state).smode ==> instruction is Some,
    ensures
        exists|r0: Context| #[trigger] entered(&*old(state), &r0, *trap)
            && trap_steps(&r0, &*final(state), *trap, instruction, host_input@),
        final(state).actions.halt is None ==> final(state).wf(),
{
    state.actions = HartActions::new(trap.sepc);
    let ghost r0 = *state;
    proof {
        assert(entered(&*old(state), &r0, *trap));
    }
    if trap.sstatus & STATUS_SPP != 0 {
        state.actions.halt = Some(Halt::HypervisorTrap);
        return;
    }
    let cause = trap.cause;
    if cause >= 0x8000_0000_0000_0000 {
        trap_interrupt(state, trap, host_input);
    } else if cause == 12 || cause == 13 || cause == 15 {
        trap_page_fault(state, trap, instruction, host_input);
    } else if cause == 2 && state.smode {
        trap_illegal_instruction(state, trap, instruction);
    } else if cause == 8 && state.smode {
        trap_ecall(state, trap);
    } else {
        trap_forward(state, trap);
    }
}

/// The length in bytes of the instruction whose first 16-bit parcel is `first`: 2 for a
/// compressed instruction, 4 for a standard one, more for the longer encodings.
pub fn instruction_length_at(first: u16) -> (r: u64)
    ensures
        r == spec_instruction_length(first),
{
    instruction_length(first) as u64
}

/// The instruction whose first 16-bit parcel is `first` and whose next parcel is `second`, with
/// its length: a compressed instruction is its first parcel alone. `None` for the longer
/// encodings, which no hart here executes.
pub fn load_instruction_at_address(first: u16, second: u16) -> (r: Option<(u32, u64)>)
    ensures
        r == (if spec_instruction_length(first) == 2 {
            Some((first as u32, 2u64))
        } else if spec_instruction_length(first) == 4 {
            Some(((first as u32) | ((second as u32) << 16u32), 4u64))
        } else {
            None
        }),
{
    match instruction_length(first) {
        2 => Some((first as u32, 2)),
        4 => Some(((first as u32) | ((second as u32) << 16u32), 4)),
        _ => None,
    }
}

/// A guest running in U-mode is always open to the interrupts it enables in `sie`: where one of
/// them is pending (counting an external interrupt its interrupt controller has ready), the
/// check takes it, whatever `sstatus.SIE` says. The guest enters S-mode with an interrupt
/// cause (the top bit of `scause` set; external, timer or software), remembers `sepc` as where
/// it was, and resumes at its trap vector (the vector's base in direct mode).
pub proof fn lemma_user_mode_takes_interrupts(old: &Context, new: &Context, sepc: u64)
    requires
        interrupt_checked(old, new, sepc),
        !old.no_interrupt,
        !old.smode,
        old.csrs.sie & sip_with_external(old) != 0,
    ensures
        new.smode,
        new.csrs.scause >> 63u64 == 1,
        new.csrs.scause & 0xfu64 == 1 || new.csrs.scause & 0xfu64 == 5 || new.csrs.scause & 0xfu64 == 9,
        new.csrs.sepc == sepc,
        old.csrs.stvec & TVEC_MODE == 0 ==> new.actions.sepc == old.csrs.stvec & TVEC_BASE,
{
    let cause = interrupt_cause(sip_with_external(old));
    lemma_law_bits(0, 0, 0, cause);
}

/// Whether the check takes an interrupt is decided by the guest's own state: one is taken
/// exactly where the guest is in U-mode or has `sstatus.SIE` set, and an interrupt it enables
/// in `sie` is pending. Where none is taken the guest stays in its mode with its trap registers
/// and resume address as they were, and later exits skip the check until something changes.
pub proof fn lemma_interrupt_taken_iff_enabled(old: &Context, new: &Context, sepc: u64)
    requires
        interrupt_checked(old, new, sepc),
        !old.no_interrupt,
    ensures
        ((!old.smode || bit_is_set(old.csrs.sstatus, STATUS_SIE)) && old.csrs.sie & sip_with_external(old) != 0) ==> {
            &&& new.smode
            &&& new.csrs.scause >> 63u64 == 1
            &&& new.csrs.sepc == sepc
            &&& new.csrs.stval == 0
        },
        !((!old.smode || bit_is_set(old.csrs.sstatus, STATUS_SIE)) && old.csrs.sie & sip_with_external(old) != 0) ==> {
            &&& new.smode == old.smode
            &&& new.no_interrupt
            &&& new.csrs.scause == old.csrs.scause
            &&& new.csrs.sepc == old.csrs.sepc
            &&& new.csrs.sstatus == old.csrs.sstatus
            &&& new.actions == old.actions
        },
{
    let cause = interrupt_cause(sip_with_external(old));
    lemma_law_bits(0, 0, 0, cause);
}

} // verus!
