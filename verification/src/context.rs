//! The guest hart's emulated supervisor state, and the host devices it is multiplexed on.
use vstd::prelude::*;
use crate::bits::{
    lemma_law_bits, U64Bits, bit_is_set, with_bit, STATUS_SIE, STATUS_SPIE, STATUS_MXR, STATUS_FS, STATUS_SUM,
    SSTATUS_WRITABLE_MASK, SSTATUS_DYNAMIC_MASK, SATP_MODE, SATP_ASID, IE_SEIE, IE_STIE, IE_SSIE,
    IP_SSIP, CSR_SSTATUS, CSR_SEDELEG, CSR_SIDELEG, CSR_SIE, CSR_STVEC, CSR_SCOUNTEREN,
    CSR_SSCRATCH, CSR_SEPC, CSR_SCAUSE, CSR_STVAL, CSR_SIP, CSR_SATP, CSR_TIME, SSTACK_BASE,
};
use crate::plic::PlicState;
use crate::pmap::{PageTables, PageTableRoot, flush_shadow_page_table, flushed};
use crate::virtio::{Device, Queue, MAX_DEVICES, MAX_QUEUES};
use crate::memory_region::MemoryRegion;
use crate::fdt::MachineMeta;
use crate::outside::{device_items, devices_len, devices_get, hart_items, harts_len, harts_get};
use crate::pmap::{pa2va, DIRECT_MAP_OFFSET};
use crate::outside::{LineBuffer, line_buffer_items, line_buffer_new, line_buffer_len, line_buffer_is_full, line_buffer_get, line_buffer_push, line_buffer_clear};

verus! {

/// The guest's supervisor control registers, as the hypervisor emulates them.
pub struct ControlRegisters {
    pub sstatus: u64,
    pub sie: u64,
    pub sip: u64,
    pub stvec: u64,
    pub sscratch: u64,
    pub sepc: u64,
    pub scause: u64,
    pub stval: u64,
    pub satp: u64,
    pub mtimecmp: u64,
}

/// `sstatus` after taking a trap: the interrupt-enable bit is saved in SPIE, then cleared.
pub open spec fn pushed_sie(sstatus: u64) -> u64 {
    with_bit(with_bit(sstatus, STATUS_SPIE, bit_is_set(sstatus, STATUS_SIE)), STATUS_SIE, false)
}

/// `sstatus` after returning from a trap: SIE is restored from SPIE, and SPIE is set.
pub open spec fn popped_sie(sstatus: u64) -> u64 {
    with_bit(with_bit(sstatus, STATUS_SIE, bit_is_set(sstatus, STATUS_SPIE)), STATUS_SPIE, true)
}

impl ControlRegisters {
    /// Saves the interrupt-enable bit in SPIE and disables interrupts, as taking a trap does.
    pub fn push_sie(&mut self)
        ensures
            final(self).sstatus == pushed_sie(old(self).sstatus),
            final(self).sie == old(self).sie,
            final(self).sip == old(self).sip,
            final(self).stvec == old(self).stvec,
            final(self).sscratch == old(self).sscratch,
            final(self).sepc == old(self).sepc,
            final(self).scause == old(self).scause,
            final(self).stval == old(self).stval,
            final(self).satp == old(self).satp,
            final(self).mtimecmp == old(self).mtimecmp,
    {
        let sie = self.sstatus.get(STATUS_SIE);
        self.sstatus.set(STATUS_SPIE, sie);
        self.sstatus.set(STATUS_SIE, false);
    }

    /// Restores the interrupt-enable bit from SPIE and sets SPIE, as returning from a trap does.
    pub fn pop_sie(&mut self)
        ensures
            final(self).sstatus == popped_sie(old(self).sstatus),
            final(self).sie == old(self).sie,
            final(self).sip == old(self).sip,
            final(self).stvec == old(self).stvec,
            final(self).sscratch == old(self).sscratch,
            final(self).sepc == old(self).sepc,
            final(self).scause == old(self).scause,
            final(self).stval == old(self).stval,
            final(self).satp == old(self).satp,
            final(self).mtimecmp == old(self).mtimecmp,
    {
        let spie = self.sstatus.get(STATUS_SPIE);
        self.sstatus.set(STATUS_SIE, spie);
        self.sstatus.set(STATUS_SPIE, true);
    }
}

/// Returning from a trap undoes taking it: the interrupt-enable bit is back to what it was,
/// SPIE is set, and no other bit of `sstatus` changed.
pub proof fn lemma_pop_after_push(sstatus: u64)
    ensures
        bit_is_set(popped_sie(pushed_sie(sstatus)), STATUS_SIE) == bit_is_set(sstatus, STATUS_SIE),
        bit_is_set(popped_sie(pushed_sie(sstatus)), STATUS_SPIE),
        popped_sie(pushed_sie(sstatus)) & !(STATUS_SIE | STATUS_SPIE) == sstatus & !(STATUS_SIE | STATUS_SPIE),
{
    let a = bit_is_set(sstatus, STATUS_SIE);
    let s1 = with_bit(sstatus, STATUS_SPIE, a);
    let s2 = with_bit(s1, STATUS_SIE, false);
    assert(bit_is_set(s2, STATUS_SPIE) == a) by (bit_vector)
        requires
            s1 == (if a { sstatus | 0x20u64 } else { sstatus & !0x20u64 }),
            s2 == s1 & !0x2u64,
    ;
    let b = bit_is_set(s2, STATUS_SPIE);
    let s3 = with_bit(s2, STATUS_SIE, b);
    let s4 = with_bit(s3, STATUS_SPIE, true);
    assert((s4 & 0x2u64 != 0) == (sstatus & 0x2u64 != 0) && s4 & 0x20u64 != 0
        && s4 & !(0x2u64 | 0x20u64) == sstatus & !(0x2u64 | 0x20u64)) by (bit_vector)
        requires
            a == (sstatus & 0x2u64 != 0),
            s1 == (if a { sstatus | 0x20u64 } else { sstatus & !0x20u64 }),
            s2 == s1 & !0x2u64,
            b == a,
            s3 == (if b { s2 | 0x2u64 } else { s2 & !0x2u64 }),
            s4 == s3 | 0x20u64,
    ;
}

/// The host's core-local interruptor: its time register and this hart's timer compare register.
pub struct HostClint {
    pub mtime: MemoryRegion,
    pub mtimecmp: MemoryRegion,
}

impl HostClint {
    pub open spec fn wf(&self) -> bool {
        &&& self.mtime.wf()
        &&& self.mtime.valid_index(0)
    }

    /// The value of the host's time register.
    pub open spec fn spec_mtime(&self) -> u64 {
        self.mtime.at(0)
    }

    pub fn get_mtime(&self) -> (r: u64)
        requires
            self.wf(),
        ensures
            r == self.spec_mtime(),
    {
        self.mtime.index(0)
    }
}

/// The host interrupt controller's claim/complete register for this hart.
pub struct HostPlic {
    pub claim_clear: MemoryRegion<u32>,
}

impl HostPlic {
    pub open spec fn wf(&self) -> bool {
        &&& self.claim_clear.wf()
        &&& self.claim_clear.valid_index(0)
    }

    /// Claims the highest-priority pending host interrupt and completes it right away by
    /// storing its number back in the claim/complete register, returning the number.
    pub fn claim_and_clear(&mut self) -> (r: u32)
        requires
            old(self).wf(),
        ensures
            final(self).wf(),
            r == old(self).claim_clear.at(0),
            final(self).claim_clear.stores() == old(self).claim_clear.stores().push((0u64, r)),
            final(self).claim_clear@ == old(self).claim_clear@,
            final(self).claim_clear.spec_base() == old(self).claim_clear.spec_base(),
            final(self).claim_clear.spec_len() == old(self).claim_clear.spec_len(),
    {
        let claim = self.claim_clear.index(0);
        proof {
            old(self).claim_clear.lemma_slot(0);
        }
        self.claim_clear.set(0, claim);
        proof {
            assert(self.claim_clear@ =~= old(self).claim_clear@);
        }
        claim
    }
}

/// The guest's general-purpose registers as saved on trap entry: x1 and x3..x31 in a save
/// area, x2 (the stack pointer) in `sscratch`.
pub struct SavedRegisters {
    registers: MemoryRegion,
    sscratch: u64,
}

impl SavedRegisters {
    pub open spec fn wf(&self) -> bool {
        &&& self.save_area().wf()
        &&& self.save_area().spec_base() == 0
        &&& self.save_area().spec_len() == 256
    }

    pub closed spec fn save_area(&self) -> MemoryRegion {
        self.registers
    }

    /// The value of `sscratch`, where the stack pointer is kept.
    pub closed spec fn spec_sscratch(&self) -> u64 {
        self.sscratch
    }

    /// The value of register `x{reg}`.
    pub open spec fn reg(&self, reg: int) -> u64 {
        if reg == 0 {
            0
        } else if reg == 2 {
            self.spec_sscratch()
        } else {
            self.save_area().at((8 * reg) as u64)
        }
    }

    /// The registers held in `registers` (a 256-byte save area at address 0) and `sscratch`.
    pub fn new(registers: MemoryRegion, sscratch: u64) -> (r: Self)
        requires
            registers.wf(),
            registers.spec_base() == 0,
            registers.spec_len() == 256,
        ensures
            r.wf(),
            r.save_area() == registers,
            r.spec_sscratch() == sscratch,
    {
        SavedRegisters { registers, sscratch }
    }

    /// The value of `sscratch`, which the host must hold when the guest resumes.
    pub fn sscratch(&self) -> (r: u64)
        ensures
            r == self.spec_sscratch(),
    {
        self.sscratch
    }

    proof fn lemma_reg_index(&self, reg: u32)
        requires
            self.wf(),
            reg < 32,
        ensures
            self.save_area().valid_index(((reg as u64) * 8) as u64),
    {
        assert((((reg as u64) * 8) as u64) % 8 == 0);
    }

    pub fn get(&self, reg: u32) -> (r: u64)
        requires
            self.wf(),
            reg < 32,
        ensures
            r == self.reg(reg as int),
    {
        if reg == 0 {
            0
        } else if reg == 2 {
            self.sscratch
        } else {
            proof {
                self.lemma_reg_index(reg);
                assert(((reg as u64) * 8) as u64 == (8 * reg) as u64);
            }
            self.registers.index(reg as u64 * 8)
        }
    }

    pub fn set(&mut self, reg: u32, value: u64)
        requires
            old(self).wf(),
            reg < 32,
        ensures
            final(self).wf(),
            forall|r: int| 0 <= r < 32 ==> #[trigger] final(self).reg(r) == (if r == reg as int && r != 0 {
                value
            } else {
                old(self).reg(r)
            }),
    {
        let ghost old_self = *self;
        if reg == 0 {
        } else if reg == 2 {
            self.sscratch = value;
        } else {
            proof {
                self.lemma_reg_index(reg);
            }
            self.registers.set(reg as u64 * 8, value);
            proof {
                assert forall|r: int| 0 <= r < 32 implies #[trigger] self.reg(r) == (if r == reg as int && r != 0 {
                    value
                } else {
                    old_self.reg(r)
                }) by {
                    if r != 0 && r != 2 {
                        old_self.save_area().lemma_slot((8 * r) as u64);
                        old_self.save_area().lemma_slot((8 * reg) as u64);
                    }
                }
            }
        }
    }
}

/// Where an external interrupt of the host is delivered.
#[derive(Copy, Clone, PartialEq, Eq, Structural, Debug)]
pub enum IrqMapping {
    Virtio { device_index: u8, guest_irq: u16 },
    Ignored,
}

impl IrqMapping {
    /// A delivery names one of the guest's device slots.
    pub open spec fn wf(&self) -> bool {
        match self {
            IrqMapping::Virtio { device_index, .. } => *device_index < 4,
            IrqMapping::Ignored => true,
        }
    }
}


pub const UART_IRQ: u32 = 10;

pub const TRANSMIT_HOLDING_REGISTER: u64 = 0x1000_0000;
pub const RECEIVE_BUFFER_REGISTER: u64 = 0x1000_0000;
pub const DIVISOR_LATCH_LSB: u64 = 0x1000_0000;
pub const INTERRUPT_ENABLE_REGISTER: u64 = 0x1000_0001;
pub const DIVISOR_LATCH_MSB: u64 = 0x1000_0001;
pub const FIFO_CONTROL_REGISTER: u64 = 0x1000_0002;
pub const INTERRUPT_IDENTIFICATION_REGISTER: u64 = 0x1000_0002;
pub const LINE_CONTROL_REGISTER: u64 = 0x1000_0003;
pub const MODEM_CONTROL_REGISTER: u64 = 0x1000_0004;
pub const LINE_STATUS_REGISTER: u64 = 0x1000_0005;
pub const MODEM_STATUS_REGISTER: u64 = 0x1000_0006;
pub const SCRATCH_REGISTER: u64 = 0x1000_0007;

pub const IIR_FIFOS_ENABLED: u8 = 0xc0;
pub const IIR_INTERRUPT_NOT_PENDING: u8 = 0x01;
pub const IIR_TX_INTERRUPT: u8 = 0x02;
pub const IIR_RX_INTERRUPT: u8 = 0x04;
pub const LCR_EIGHT_BIT_WORDS: u8 = 0x03;
pub const LCR_DIVISOR_LATCH_ACCESS: u8 = 0x80;
pub const LSR_DATA_READY: u8 = 0x01;
pub const LSR_BREAK_INTERRUPT: u8 = 0x10;
pub const LSR_TRANSMITTER_HAS_ROOM: u8 = 0x20;
pub const LSR_TRANSMITTER_EMPTY: u8 = 0x40;
pub const MSR_CLEAR_TO_SEND: u8 = 0x10;
pub const MCR_LOOPBACK_ENABLE: u8 = 0x10;
pub const MCR_RESERVED_BITS: u8 = 0xe0;

/// What a byte written to the guest's serial port prints on the host console: the byte
/// itself, or (for a guest with an id) the lines of the guest it completes, each printed with
/// the guest's tag.
pub enum ConsoleOutput {
    HostByte(u8),
    GuestLines { guestid: u64, lines: Vec<Vec<u8>> },
}

/// The lines a guest's byte completes, and the line buffer afterwards: a carriage return not
/// followed by a newline ends its line, and a newline or a full buffer ends the current line
/// (the byte that meets a full buffer is dropped).
pub open spec fn line_discipline(buf: Seq<u8>, value: u8) -> (Seq<Seq<u8>>, Seq<u8>) {
    let (lines1, buf1) = if buf.len() > 0 && buf.last() == 13 && value != 10 {
        (seq![buf], Seq::<u8>::empty())
    } else {
        (Seq::<Seq<u8>>::empty(), buf)
    };
    if value == 10 || buf1.len() == 256 {
        (lines1.push(buf1), Seq::<u8>::empty())
    } else {
        (lines1, buf1.push(value))
    }
}

/// The guest's emulated 16550 serial port.
pub struct Uart {
    pub dlab: bool,
    pub divisor_latch: u16,
    pub interrupt_enable: u8,
    pub next_interrupt_time: u64,
    pub input_fifo: [u8; 16],
    pub input_bytes_ready: usize,
    pub line_buffer: LineBuffer,
    pub guestid: Option<u64>,
}

/// Whether the emulated serial port implements a read of register `addr`.
pub open spec fn uart_read_supported(addr: u64) -> bool {
    0x1000_0000 <= addr <= 0x1000_0003 || addr == LINE_STATUS_REGISTER || addr == MODEM_STATUS_REGISTER
}

/// Whether the emulated serial port implements a write of `value` to register `addr`.
pub open spec fn uart_write_supported(addr: u64, value: u8) -> bool {
    ||| 0x1000_0000 <= addr <= 0x1000_0003
    ||| addr == MODEM_CONTROL_REGISTER && value & (MCR_LOOPBACK_ENABLE | MCR_RESERVED_BITS) == 0
}

impl Uart {
    pub open spec fn wf(&self) -> bool {
        self.input_bytes_ready <= 16
    }

    /// The bytes waiting in the receive FIFO, oldest first.
    pub open spec fn input(&self) -> Seq<u8> {
        self.input_fifo@.subrange(0, self.input_bytes_ready as int)
    }

    pub open spec fn spec_tx_interrupt(&self, current_time: u64) -> bool {
        self.next_interrupt_time <= current_time && self.interrupt_enable & 0x2 != 0
    }

    pub open spec fn spec_rx_interrupt(&self) -> bool {
        self.input_bytes_ready >= 1 && self.interrupt_enable & 0x1 != 0
    }

    /// A port in its reset state, for the guest `guestid` (or for the only guest).
    pub fn new(guestid: Option<u64>) -> (r: Self)
        ensures
            r.wf(),
            !r.dlab,
            r.interrupt_enable == 0,
            r.divisor_latch == 1,
            r.next_interrupt_time == 0,
            r.input_bytes_ready == 0,
            line_buffer_items(r.line_buffer) == Seq::<u8>::empty(),
            r.guestid == guestid,
    {
        Uart {
            dlab: false,
            interrupt_enable: 0,
            divisor_latch: 1,
            next_interrupt_time: 0,
            input_fifo: [0u8; 16],
            input_bytes_ready: 0,
            line_buffer: line_buffer_new(),
            guestid,
        }
    }

    /// Whether the transmitter interrupt is due at `current_time`.
    pub fn tx_interrupt(&self, current_time: u64) -> (r: bool)
        ensures
            r == self.spec_tx_interrupt(current_time),
    {
        self.next_interrupt_time <= current_time && self.interrupt_enable & 0x2 != 0
    }

    /// Whether the receiver interrupt is due.
    pub fn rx_interrupt(&self) -> (r: bool)
        ensures
            r == self.spec_rx_interrupt(),
    {
        self.input_bytes_ready >= 1 && self.interrupt_enable & 0x1 != 0
    }

    /// Moves bytes that the host console has received into the receive FIFO, as many as fit;
    /// returns how many of `host_input` were taken.
    pub fn fill_fifo(&mut self, host_input: &Vec<u8>) -> (consumed: usize)
        requires
            old(self).wf(),
        ensures
            final(self).wf(),
            consumed == vstd::math::min(16 - old(self).input_bytes_ready, host_input@.len() as int),
            final(self).input() == old(self).input() + host_input@.subrange(0, consumed as int),
            final(self).dlab == old(self).dlab,
            final(self).divisor_latch == old(self).divisor_latch,
            final(self).interrupt_enable == old(self).interrupt_enable,
            final(self).next_interrupt_time == old(self).next_interrupt_time,
            final(self).line_buffer == old(self).line_buffer,
            final(self).guestid == old(self).guestid,
    {
        let mut consumed: usize = 0;
        while self.input_bytes_ready < 16 && consumed < host_input.len()
            invariant
                self.wf(),
                consumed <= host_input@.len(),
                self.input_bytes_ready == old(self).input_bytes_ready + consumed,
                self.input() == old(self).input() + host_input@.subrange(0, consumed as int),
                self.dlab == old(self).dlab,
                self.divisor_latch == old(self).divisor_latch,
                self.interrupt_enable == old(self).interrupt_enable,
                self.next_interrupt_time == old(self).next_interrupt_time,
                self.line_buffer == old(self).line_buffer,
                self.guestid == old(self).guestid,
            decreases host_input@.len() - consumed,
        {
            let ghost before = self.input();
            self.input_fifo[self.input_bytes_ready] = host_input[consumed];
            self.input_bytes_ready = self.input_bytes_ready + 1;
            consumed = consumed + 1;
            assert(self.input() =~= before.push(host_input@[consumed - 1]));
            assert(host_input@.subrange(0, consumed as int) =~= host_input@.subrange(0, consumed - 1).push(host_input@[consumed - 1]));
            assert(self.input() =~= old(self).input() + host_input@.subrange(0, consumed as int));
        }
        consumed
    }

    /// The value of the line status register, with `ready` bytes in the receive FIFO at time
    /// `now`: data ready, and the transmitter idle once its last byte's time has passed.
    pub open spec fn line_status(&self, ready: usize, now: u64) -> u8 {
        (if ready > 0 { LSR_DATA_READY } else { 0u8 }) | (if now >= self.next_interrupt_time {
            LSR_TRANSMITTER_HAS_ROOM | LSR_TRANSMITTER_EMPTY
        } else {
            0u8
        })
    }

    /// The value of the interrupt identification register at time `now`: receive first, then
    /// transmit.
    pub open spec fn interrupt_id(&self, now: u64) -> u8 {
        if self.spec_rx_interrupt() {
            IIR_FIFOS_ENABLED | IIR_RX_INTERRUPT
        } else if self.spec_tx_interrupt(now) {
            IIR_FIFOS_ENABLED | IIR_TX_INTERRUPT
        } else {
            IIR_FIFOS_ENABLED | IIR_INTERRUPT_NOT_PENDING
        }
    }

    /// `new` is the port `old` after a guest read of register `addr` at time `now` that returned
    /// `r`, with `host_input` the bytes the host console has received.
    pub open spec fn read_done(old: &Uart, new: &Uart, now: u64, addr: u64, host_input: Seq<u8>, r: u8) -> bool {
        &&& new.dlab == old.dlab
        &&& new.divisor_latch == old.divisor_latch
        &&& new.interrupt_enable == old.interrupt_enable
        &&& new.next_interrupt_time == old.next_interrupt_time
        &&& new.line_buffer == old.line_buffer
        &&& new.guestid == old.guestid
        &&& {
            let dlab = old.dlab;
            let input = old.input();
            if addr == RECEIVE_BUFFER_REGISTER && !dlab {
                if input.len() > 0 {
                    r == input[0] && new.input() == input.drop_first()
                } else {
                    r == 0 && new.input() == input
                }
            } else if addr == LINE_STATUS_REGISTER {
                let n = vstd::math::min(16 - old.input_bytes_ready, host_input.len() as int);
                &&& new.input() == input + host_input.subrange(0, n)
                &&& r == old.line_status(new.input_bytes_ready, now)
            } else {
                &&& new.input() == input
                &&& addr == DIVISOR_LATCH_LSB ==> r == (old.divisor_latch & 0xff) as u8
                &&& addr == DIVISOR_LATCH_MSB && dlab ==> r == (old.divisor_latch >> 8u16) as u8
                &&& addr == INTERRUPT_ENABLE_REGISTER && !dlab ==> r == old.interrupt_enable
                &&& addr == INTERRUPT_IDENTIFICATION_REGISTER ==> r == old.interrupt_id(now)
                &&& addr == LINE_CONTROL_REGISTER ==> r == (if dlab {
                    LCR_EIGHT_BIT_WORDS
                } else {
                    LCR_EIGHT_BIT_WORDS | LCR_DIVISOR_LATCH_ACCESS
                })
                &&& addr == MODEM_STATUS_REGISTER ==> r == MSR_CLEAR_TO_SEND
            }
        }
    }

    /// `new` is the port `old` after a guest write of `value` to register `addr` at time `now`,
    /// which printed `out`.
    pub open spec fn write_done(old: &Uart, new: &Uart, now: u64, addr: u64, value: u8, out: Option<ConsoleOutput>) -> bool {
        &&& new.input() == old.input()
        &&& new.guestid == old.guestid
        &&& {
            let dlab = old.dlab;
            if addr == TRANSMIT_HOLDING_REGISTER && !dlab {
                &&& out is Some
                &&& match old.guestid {
                    None => out == Some(ConsoleOutput::HostByte(value)) && new.line_buffer == old.line_buffer,
                    Some(id) => out matches Some(ConsoleOutput::GuestLines { guestid, lines }) && guestid == id && {
                        let (ls, buf) = line_discipline(line_buffer_items(old.line_buffer), value);
                        &&& lines@.map_values(|l: Vec<u8>| l@) == ls
                        &&& line_buffer_items(new.line_buffer) == buf
                    },
                }
                &&& new.next_interrupt_time == vstd::math::max(
                    old.next_interrupt_time as int,
                    now as int,
                ) + old.divisor_latch * 5
                &&& new.dlab == dlab
                &&& new.divisor_latch == old.divisor_latch
                &&& new.interrupt_enable == old.interrupt_enable
            } else {
                &&& out is None
                &&& new.line_buffer == old.line_buffer
                &&& new.next_interrupt_time == old.next_interrupt_time
                &&& new.interrupt_enable == (if addr == INTERRUPT_ENABLE_REGISTER && !dlab {
                    value
                } else {
                    old.interrupt_enable
                })
                &&& new.divisor_latch == (if addr == DIVISOR_LATCH_LSB && dlab {
                    (old.divisor_latch & 0xff00) | (value as u16)
                } else if addr == DIVISOR_LATCH_MSB && dlab {
                    (old.divisor_latch & 0x00ff) | ((value as u16) << 8u16)
                } else {
                    old.divisor_latch
                })
                &&& new.dlab == (if addr == LINE_CONTROL_REGISTER {
                    value & LCR_DIVISOR_LATCH_ACCESS != 0
                } else {
                    dlab
                })
            }
        }
    }

    /// Emulates a guest read of register `addr`. `host_input` holds the bytes the host console
    /// has received, which a read of the line status register first moves into the FIFO.
    pub fn read(&mut self, host_clint: &HostClint, addr: u64, host_input: &Vec<u8>) -> (r: u8)
        requires
            old(self).wf(),
            host_clint.wf(),
            uart_read_supported(addr),
        ensures
            final(self).wf(),
            Self::read_done(&*old(self), &*final(self), host_clint.spec_mtime(), addr, host_input@, r),
    {
        if addr == RECEIVE_BUFFER_REGISTER && !self.dlab {
            if self.input_bytes_ready > 0 {
                let ret = self.input_fifo[0];
                let ghost old_fifo = self.input_fifo@;
                self.input_bytes_ready = self.input_bytes_ready - 1;
                let mut i: usize = 0;
                while i < self.input_bytes_ready
                    invariant
                        self.input_bytes_ready < 16,
                        i <= self.input_bytes_ready,
                        self.input_bytes_ready + 1 == old(self).input_bytes_ready,
                        old_fifo == old(self).input_fifo@,
                        forall|j: int| 0 <= j < i ==> self.input_fifo@[j] == old_fifo[j + 1],
                        forall|j: int| i <= j < 16 ==> self.input_fifo@[j] == old_fifo[j],
                        self.dlab == old(self).dlab,
                        self.divisor_latch == old(self).divisor_latch,
                        self.interrupt_enable == old(self).interrupt_enable,
                        self.next_interrupt_time == old(self).next_interrupt_time,
                        self.line_buffer == old(self).line_buffer,
                        self.guestid == old(self).guestid,
                    decreases self.input_bytes_ready - i,
                {
                    self.input_fifo[i] = self.input_fifo[i + 1];
                    i = i + 1;
                }
                assert(self.input() =~= old(self).input().drop_first());
                ret
            } else {
                0
            }
        } else if addr == DIVISOR_LATCH_LSB {
            (self.divisor_latch & 0xff) as u8
        } else if addr == DIVISOR_LATCH_MSB && self.dlab {
            (self.divisor_latch >> 8u16) as u8
        } else if addr == INTERRUPT_ENABLE_REGISTER {
            self.interrupt_enable
        } else if addr == INTERRUPT_IDENTIFICATION_REGISTER {
            if self.rx_interrupt() {
                IIR_FIFOS_ENABLED | IIR_RX_INTERRUPT
            } else if self.tx_interrupt(host_clint.get_mtime()) {
                IIR_FIFOS_ENABLED | IIR_TX_INTERRUPT
            } else {
                IIR_FIFOS_ENABLED | IIR_INTERRUPT_NOT_PENDING
            }
        } else if addr == LINE_CONTROL_REGISTER {
            if self.dlab {
                LCR_EIGHT_BIT_WORDS
            } else {
                LCR_EIGHT_BIT_WORDS | LCR_DIVISOR_LATCH_ACCESS
            }
        } else if addr == LINE_STATUS_REGISTER {
            self.fill_fifo(host_input);
            let data_ready: u8 = if self.input_bytes_ready > 0 {
                LSR_DATA_READY
            } else {
                0
            };
            let idle: u8 = if host_clint.get_mtime() >= self.next_interrupt_time {
                LSR_TRANSMITTER_HAS_ROOM | LSR_TRANSMITTER_EMPTY
            } else {
                0
            };
            let lsr = data_ready | idle;
            lsr
        } else {
            MSR_CLEAR_TO_SEND
        }
    }

    /// Emulates a guest write of `value` to register `addr`. A byte written to the transmit
    /// register is sent to the host console (the output is returned), and the transmitter stays
    /// busy for five ticks per unit of the divisor.
    pub fn write(&mut self, host_clint: &HostClint, addr: u64, value: u8) -> (out: Option<ConsoleOutput>)
        requires
            old(self).wf(),
            host_clint.wf(),
            uart_write_supported(addr, value),
            addr == TRANSMIT_HOLDING_REGISTER && !old(self).dlab ==> vstd::math::max(
                old(self).next_interrupt_time as int,
                host_clint.spec_mtime() as int,
            ) + old(self).divisor_latch * 5 <= u64::MAX,
        ensures
            final(self).wf(),
            Self::write_done(&*old(self), &*final(self), host_clint.spec_mtime(), addr, value, out),
    {
        if addr == TRANSMIT_HOLDING_REGISTER && !self.dlab {
            let out = self.output_byte(value);
            let current_time = host_clint.get_mtime();
            let transmit_time = self.divisor_latch as u64 * 5;
            let start = if self.next_interrupt_time >= current_time {
                self.next_interrupt_time
            } else {
                current_time
            };
            self.next_interrupt_time = start + transmit_time;
            Some(out)
        } else if addr == INTERRUPT_ENABLE_REGISTER && !self.dlab {
            self.interrupt_enable = value;
            None
        } else if addr == DIVISOR_LATCH_LSB && self.dlab {
            self.divisor_latch = (self.divisor_latch & 0xff00) | (value as u16);
            None
        } else if addr == DIVISOR_LATCH_MSB && self.dlab {
            self.divisor_latch = (self.divisor_latch & 0x00ff) | ((value as u16) << 8u16);
            None
        } else if addr == FIFO_CONTROL_REGISTER {
            None
        } else if addr == LINE_CONTROL_REGISTER {
            self.dlab = (value & LCR_DIVISOR_LATCH_ACCESS) != 0;
            None
        } else {
            None
        }
    }

    fn line_contents(&self) -> (r: Vec<u8>)
        ensures
            r@ == line_buffer_items(self.line_buffer),
    {
        let n = line_buffer_len(&self.line_buffer);
        let mut v: Vec<u8> = Vec::new();
        let mut i: usize = 0;
        while i < n
            invariant
                i <= n,
                n == line_buffer_items(self.line_buffer).len(),
                v@ == line_buffer_items(self.line_buffer).subrange(0, i as int),
            decreases n - i,
        {
            v.push(line_buffer_get(&self.line_buffer, i));
            i = i + 1;
            assert(v@ =~= line_buffer_items(self.line_buffer).subrange(0, i as int));
        }
        assert(v@ =~= line_buffer_items(self.line_buffer));
        v
    }

    /// `new` is the port `old` after the guest wrote `value` to it, which printed `out`.
    pub open spec fn printed(old: &Uart, new: &Uart, value: u8, out: ConsoleOutput) -> bool {
        &&& new.input() == old.input()
        &&& new.dlab == old.dlab
        &&& new.divisor_latch == old.divisor_latch
        &&& new.interrupt_enable == old.interrupt_enable
        &&& new.next_interrupt_time == old.next_interrupt_time
        &&& new.guestid == old.guestid
        &&& match old.guestid {
            None => out == ConsoleOutput::HostByte(value) && new.line_buffer == old.line_buffer,
            Some(id) => out matches ConsoleOutput::GuestLines { guestid, lines } && guestid == id && {
                let (ls, buf) = line_discipline(line_buffer_items(old.line_buffer), value);
                &&& lines@.map_values(|l: Vec<u8>| l@) == ls
                &&& line_buffer_items(new.line_buffer) == buf
            },
        }
    }

    /// Sends a byte the guest wrote to the host console: with a guest id, through the line
    /// discipline; without one, straight to the host's port.
    pub fn output_byte(&mut self, value: u8) -> (out: ConsoleOutput)
        requires
            old(self).wf(),
        ensures
            final(self).wf(),
            Uart::printed(&*old(self), &*final(self), value, out),
    {
        match self.guestid {
            None => ConsoleOutput::HostByte(value),
            Some(guestid) => {
                let ghost buf0 = line_buffer_items(self.line_buffer);
                let ghost mut lines1: Seq<Seq<u8>> = Seq::empty();
                let mut lines: Vec<Vec<u8>> = Vec::new();
                let len = line_buffer_len(&self.line_buffer);
                if len > 0 && line_buffer_get(&self.line_buffer, len - 1) == 13 && value != 10 {
                    lines.push(self.line_contents());
                    line_buffer_clear(&mut self.line_buffer);
                    proof {
                        lines1 = seq![buf0];
                    }
                }
                assert(lines@.map_values(|l: Vec<u8>| l@) =~= lines1);
                let ghost buf1 = line_buffer_items(self.line_buffer);
                assert(line_discipline(buf0, value) == (if value == 10 || buf1.len() == 256 {
                    (lines1.push(buf1), Seq::<u8>::empty())
                } else {
                    (lines1, buf1.push(value))
                }));
                if value == 10 || line_buffer_is_full(&self.line_buffer) {
                    lines.push(self.line_contents());
                    line_buffer_clear(&mut self.line_buffer);
                    assert(lines@.map_values(|l: Vec<u8>| l@) =~= lines1.push(buf1));
                } else {
                    line_buffer_push(&mut self.line_buffer, value);
                }
                ConsoleOutput::GuestLines { guestid, lines }
            },
        }
    }
}


impl Uart {
    /// The serial port's part of a timer tick at `current_time`: bytes from `host_input` are
    /// moved into the receive FIFO, and where the transmitter or receiver interrupt is then due
    /// the port's interrupt source is raised at the guest's interrupt controller. Returns how
    /// many input bytes were taken.
    pub fn timer(state: &mut Context, current_time: u64, host_input: &Vec<u8>) -> (consumed: usize)
        requires
            old(state).wf(),
        ensures
            final(state).wf(),
            consumed == vstd::math::min(16 - old(state).uart.input_bytes_ready, host_input@.len() as int),
            final(state).uart.input() == old(state).uart.input() + host_input@.subrange(0, consumed as int),
            final(state).uart.dlab == old(state).uart.dlab,
            final(state).uart.divisor_latch == old(state).uart.divisor_latch,
            final(state).uart.interrupt_enable == old(state).uart.interrupt_enable,
            final(state).uart.next_interrupt_time == old(state).uart.next_interrupt_time,
            final(state).uart.line_buffer == old(state).uart.line_buffer,
            final(state).uart.guestid == old(state).uart.guestid,
            final(state).csrs == old(state).csrs,
            final(state).smode == old(state).smode,
            final(state).actions == old(state).actions,
            final(state).virtio.same(&old(state).virtio),
            final(state).saved_registers == old(state).saved_registers,
            final(state).guest_memory == old(state).guest_memory,
            final(state).shadow_page_tables == old(state).shadow_page_tables,
            final(state).guest_shift == old(state).guest_shift,
            final(state).tlb_caches_invalid_ptes == old(state).tlb_caches_invalid_ptes,
            final(state).consecutive_page_fault_count == old(state).consecutive_page_fault_count,
            final(state).host_clint == old(state).host_clint,
            final(state).host_plic == old(state).host_plic,
            final(state).irq_map == old(state).irq_map,
            ({
                let due = final(state).uart.spec_tx_interrupt(current_time) || final(state).uart.spec_rx_interrupt();
                if due {
                    &&& final(state).plic.pending_updated(&old(state).plic, UART_IRQ as int, true)
                    &&& final(state).plic.same_except_pending(&old(state).plic)
                    &&& !final(state).no_interrupt
                } else {
                    &&& final(state).plic == old(state).plic
                    &&& final(state).no_interrupt == old(state).no_interrupt
                }
            }),
    {
        let consumed = state.uart.fill_fifo(host_input);
        if state.uart.tx_interrupt(current_time) || state.uart.rx_interrupt() {
            state.plic.set_pending(UART_IRQ, true);
            state.no_interrupt = false;
        }
        consumed
    }
}

/// The guest's virtio devices and the guest pages that hold their queues.
pub struct VirtIO {
    pub devices: Vec<Device>,
    pub queue_guest_pages: [u64; 16],
    pub num_queue_guest_pages: usize,
}

impl VirtIO {
    pub open spec fn wf(&self) -> bool {
        &&& self.devices@.len() == MAX_DEVICES
        &&& forall|i: int| 0 <= i < MAX_DEVICES ==> (#[trigger] self.devices@[i]).wf()
        &&& self.num_queue_guest_pages <= MAX_DEVICES * MAX_QUEUES
    }
}

/// Why emulation stops the hart: the guest asked for something the hypervisor does not
/// emulate. The host reports the reason and halts the hart.
#[derive(Copy, Clone, PartialEq, Eq, Structural, Debug)]
pub enum Halt {
    /// An SBI call with this function number.
    UnknownEcall(u64),
    /// An instruction that touches an emulated device in a way that is not emulated.
    UnsupportedAccess { instruction: u32, address: u64 },
    /// A request the hypervisor does not implement: a queue reconfiguration, an out-of-range
    /// queue selection, a misaligned device register, a change of `sstatus.MXR`, a queue
    /// pointer outside guest memory, a guest address outside the range it may use.
    Unsupported,
    /// The trap came from the hypervisor itself.
    HypervisorTrap,
    /// The shadow page tables ran out of pages.
    PageTablesFull,
    /// A device interrupt for the guest arrived while the guest's interrupt controller masked
    /// it although `sip.SEIP` was set.
    MaskedInterrupt,
}

impl VirtIO {
    /// `self` and `other` hold the same devices and queue pages.
    pub open spec fn same(&self, other: &VirtIO) -> bool {
        &&& self.devices@ == other.devices@
        &&& self.queue_guest_pages == other.queue_guest_pages
        &&& self.num_queue_guest_pages == other.num_queue_guest_pages
    }
}

/// Effects on the real hart that emulation asks for, carried out by the trap handler before it
/// returns to the guest.
pub struct HartActions {
    /// The hart's `sepc`: where the guest resumes.
    pub sepc: u64,
    /// New `sstatus` value whose FS field the hart's `sstatus` must take.
    pub sstatus_fs: Option<u64>,
    /// Whether all of the hart's cached translations must be dropped.
    pub sfence: bool,
    /// A virtual address whose cached translations must be dropped.
    pub sfence_va: Option<u64>,
    /// Time at which the host timer must fire next.
    pub timer: Option<u64>,
    /// Whether the hart's instruction fetches must be synchronized with memory.
    pub fence_i: bool,
    /// Output for the host console, in order.
    pub console: Vec<ConsoleOutput>,
    /// Set when the hart must stop.
    pub halt: Option<Halt>,
    /// New value for the hart's `satp`, where the shadow page table to use has changed.
    pub satp: Option<u64>,
    /// How many bytes of the host console input the guest's serial port took.
    pub input_consumed: usize,
}

impl HartActions {
    /// No action pending; the guest resumes at `sepc`.
    pub fn new(sepc: u64) -> (r: Self)
        ensures
            r.sepc == sepc,
            r.sstatus_fs is None,
            !r.sfence,
            r.sfence_va is None,
            r.timer is None,
            !r.fence_i,
            r.console@.len() == 0,
            r.halt is None,
            r.satp is None,
            r.input_consumed == 0,
    {
        HartActions {
            sepc,
            sstatus_fs: None,
            sfence: false,
            sfence_va: None,
            timer: None,
            fence_i: false,
            console: Vec::new(),
            halt: None,
            satp: None,
            input_consumed: 0,
        }
    }
}

/// Everything the hypervisor keeps for the guest running on a hart.
pub struct Context {
    pub csrs: ControlRegisters,
    pub plic: PlicState,
    pub uart: Uart,
    pub virtio: VirtIO,
    pub saved_registers: SavedRegisters,
    pub guest_memory: MemoryRegion,
    pub shadow_page_tables: PageTables,
    pub guest_shift: u64,
    /// Whether the guest is in S-mode.
    pub smode: bool,
    /// If set, hypervisor exits do not need to check for pending interrupts.
    pub no_interrupt: bool,
    pub tlb_caches_invalid_ptes: bool,
    pub consecutive_page_fault_count: u64,
    pub host_clint: HostClint,
    pub host_plic: HostPlic,
    /// Map from host external interrupt number to guest external interrupt number.
    pub irq_map: [IrqMapping; 512],
    pub actions: HartActions,
}

/// The values of the CSRs a guest read returns, where the CSR is emulated.
pub open spec fn csr_read_value(c: &Context, csr: u32, hw_sstatus: u64) -> Option<u64> {
    if csr == CSR_SSTATUS {
        Some((c.csrs.sstatus & !SSTATUS_DYNAMIC_MASK) | (hw_sstatus & SSTATUS_DYNAMIC_MASK))
    } else if csr == CSR_SATP {
        Some(c.csrs.satp)
    } else if csr == CSR_SIE {
        Some(c.csrs.sie)
    } else if csr == CSR_STVEC {
        Some(c.csrs.stvec)
    } else if csr == CSR_SSCRATCH {
        Some(c.csrs.sscratch)
    } else if csr == CSR_SEPC {
        Some(c.csrs.sepc)
    } else if csr == CSR_SCAUSE {
        Some(c.csrs.scause)
    } else if csr == CSR_STVAL {
        Some(c.csrs.stval)
    } else if csr == CSR_SIP {
        Some(c.csrs.sip)
    } else if csr == CSR_SEDELEG || csr == CSR_SIDELEG || csr == CSR_SCOUNTEREN {
        Some(0)
    } else if csr == CSR_TIME {
        Some(c.host_clint.spec_mtime())
    } else {
        None
    }
}

/// The state after a guest read of `csr`: a read of `sstatus` refreshes its floating-point
/// state bits from the hart's own `sstatus`, `hw_sstatus`.
pub open spec fn csr_read_state(c: &Context, csr: u32, hw_sstatus: u64) -> Context {
    if csr == CSR_SSTATUS {
        Context {
            csrs: ControlRegisters {
                sstatus: (c.csrs.sstatus & !SSTATUS_DYNAMIC_MASK) | (hw_sstatus & SSTATUS_DYNAMIC_MASK),
                ..c.csrs
            },
            ..*c
        }
    } else {
        *c
    }
}

/// `new` is `old` after a guest write of `value` to `csr`.
pub open spec fn csr_written(old: &Context, new: &Context, csr: u32, value: u64) -> bool {
    &&& new.plic == old.plic
    &&& new.uart == old.uart
    &&& new.virtio.same(&old.virtio)
    &&& new.saved_registers == old.saved_registers
    &&& new.guest_memory == old.guest_memory
    &&& new.guest_shift == old.guest_shift
    &&& new.smode == old.smode
    &&& new.host_clint == old.host_clint
    &&& new.host_plic == old.host_plic
    &&& new.irq_map == old.irq_map
    &&& new.csrs.mtimecmp == old.csrs.mtimecmp
    &&& new.actions.sepc == old.actions.sepc
    &&& new.actions.sfence_va == old.actions.sfence_va
    &&& new.actions.timer == old.actions.timer
    &&& new.actions.fence_i == old.actions.fence_i
    &&& new.actions.console == old.actions.console
    &&& new.actions.halt == old.actions.halt
    &&& new.actions.satp == old.actions.satp
    &&& new.actions.input_consumed == old.actions.input_consumed
    &&& csr == CSR_SATP ==> flushed(&old.shadow_page_tables, &new.shadow_page_tables)
        && new.actions.sfence
    &&& csr != CSR_SATP ==> new.shadow_page_tables == old.shadow_page_tables
        && new.actions.sfence == old.actions.sfence
    &&& {
        let c = old.csrs;
        let n = new.csrs;
        let w = value & SSTATUS_WRITABLE_MASK;
        let changed = c.sstatus ^ w;
        let ie = value & (IE_SEIE | IE_STIE | IE_SSIE);
        let mode = (value & SATP_MODE) >> 60u64;
        &&& n.sstatus == (if csr == CSR_SSTATUS { w } else { c.sstatus })
        &&& new.actions.sstatus_fs == (if csr == CSR_SSTATUS && changed & STATUS_FS != 0 {
            Some(w)
        } else {
            old.actions.sstatus_fs
        })
        &&& n.satp == (if csr == CSR_SATP && (mode == 0 || mode == 8) {
            value & !SATP_ASID
        } else {
            c.satp
        })
        &&& n.sie == (if csr == CSR_SIE { ie } else { c.sie })
        &&& n.stvec == (if csr == CSR_STVEC { value & !0x2u64 } else { c.stvec })
        &&& n.sscratch == (if csr == CSR_SSCRATCH { value } else { c.sscratch })
        &&& n.sepc == (if csr == CSR_SEPC { value } else { c.sepc })
        &&& n.scause == (if csr == CSR_SCAUSE { value } else { c.scause })
        &&& n.stval == (if csr == CSR_STVAL { value } else { c.stval })
        &&& n.sip == (if csr == CSR_SIP { (c.sip & !IP_SSIP) | (value & IP_SSIP) } else { c.sip })
        &&& new.no_interrupt == (if csr == CSR_SSTATUS && bit_is_set(changed, STATUS_SIE) && bit_is_set(w, STATUS_SIE) {
            false
        } else if csr == CSR_SIE && !c.sie & ie != 0 {
            false
        } else if csr == CSR_SIP && value & IP_SSIP != 0 {
            false
        } else {
            old.no_interrupt
        })
    }
    &&& new.tlb_caches_invalid_ptes == old.tlb_caches_invalid_ptes
    &&& new.consecutive_page_fault_count == old.consecutive_page_fault_count
}

/// A guest's write to a control register reads back as written, as far as the register holds
/// it: `sscratch`, `sepc`, `scause` and `stval` whole; `stvec` without bit 1; `sie` with the
/// supervisor interrupt enables alone; `satp` in bare or Sv39 mode without its address-space id;
/// `sstatus` with its writable bits, and its floating-point state from the hart.
pub proof fn lemma_csr_write_read(old: &Context, new: &Context, csr: u32, value: u64, hw_sstatus: u64)
    requires
        csr_written(old, new, csr, value),
    ensures
        csr == CSR_SSCRATCH || csr == CSR_SEPC || csr == CSR_SCAUSE || csr == CSR_STVAL
            ==> csr_read_value(new, csr, hw_sstatus) == Some(value),
        csr == CSR_STVEC ==> csr_read_value(new, csr, hw_sstatus) == Some(value & !0x2u64),
        csr == CSR_SIE ==> csr_read_value(new, csr, hw_sstatus) == Some(value & (IE_SEIE | IE_STIE | IE_SSIE)),
        csr == CSR_SATP && ((value & SATP_MODE) >> 60u64 == 0 || (value & SATP_MODE) >> 60u64 == 8)
            ==> csr_read_value(new, csr, hw_sstatus) == Some(value & !SATP_ASID),
        csr == CSR_SSTATUS ==> csr_read_value(new, csr, hw_sstatus)
            == Some(((value & SSTATUS_WRITABLE_MASK) & !SSTATUS_DYNAMIC_MASK) | (hw_sstatus & SSTATUS_DYNAMIC_MASK)),
{
}

/// Whether a guest write to `csr` is emulated.
pub open spec fn csr_writable(csr: u32) -> bool {
    ||| csr == CSR_SSTATUS
    ||| csr == CSR_SATP
    ||| csr == CSR_SIE
    ||| csr == CSR_STVEC
    ||| csr == CSR_SSCRATCH
    ||| csr == CSR_SEPC
    ||| csr == CSR_SCAUSE
    ||| csr == CSR_STVAL
    ||| csr == CSR_SIP
    ||| csr == CSR_SEDELEG
    ||| csr == CSR_SIDELEG
    ||| csr == CSR_SCOUNTEREN
}

impl Context {
    pub open spec fn wf(&self) -> bool {
        &&& self.csrs.sie & !(IE_SEIE | IE_STIE | IE_SSIE) == 0
        &&& self.csrs.stvec & 0x2 == 0
        &&& forall|i: int| 0 <= i < 512 ==> (#[trigger] self.irq_map@[i]).wf()
        &&& self.plic.wf()
        &&& self.uart.wf()
        &&& self.virtio.wf()
        &&& self.saved_registers.wf()
        &&& self.guest_memory.wf()
        &&& self.shadow_page_tables.wf()
        &&& self.host_clint.wf()
        &&& self.host_plic.wf()
    }

    /// `self` and `other` agree on the control registers, the interrupt controller and serial
    /// port models, the guest's mode flags and the host devices.
    pub open spec fn same_control(&self, other: &Context) -> bool {
        &&& self.csrs == other.csrs
        &&& self.plic == other.plic
        &&& self.uart == other.uart
        &&& self.guest_shift == other.guest_shift
        &&& self.smode == other.smode
        &&& self.no_interrupt == other.no_interrupt
        &&& self.tlb_caches_invalid_ptes == other.tlb_caches_invalid_ptes
        &&& self.consecutive_page_fault_count == other.consecutive_page_fault_count
        &&& self.host_clint == other.host_clint
        &&& self.host_plic == other.host_plic
        &&& self.irq_map == other.irq_map
    }

    /// `self` and `other` agree on the serial port, the devices, the guest's registers and
    /// memory, the shadow page tables and the host devices.
    pub open spec fn same_memory_and_devices(&self, other: &Context) -> bool {
        &&& self.uart == other.uart
        &&& self.virtio.same(&other.virtio)
        &&& self.saved_registers == other.saved_registers
        &&& self.guest_memory == other.guest_memory
        &&& self.shadow_page_tables == other.shadow_page_tables
        &&& self.guest_shift == other.guest_shift
        &&& self.tlb_caches_invalid_ptes == other.tlb_caches_invalid_ptes
        &&& self.consecutive_page_fault_count == other.consecutive_page_fault_count
        &&& self.host_clint == other.host_clint
        &&& self.host_plic == other.host_plic
        &&& self.irq_map == other.irq_map
    }

    /// The shadow address space serving the guest in its current mode.
    pub open spec fn spec_shadow(&self) -> PageTableRoot {
        if self.csrs.satp & SATP_MODE == 0 {
            PageTableRoot::MPA
        } else if !self.smode {
            PageTableRoot::UVA
        } else if self.csrs.sstatus & STATUS_SUM == 0 {
            PageTableRoot::KVA
        } else {
            PageTableRoot::MVA
        }
    }

    /// The shadow address space serving the guest in its current mode: guest-physical with
    /// paging off, else user, supervisor, or supervisor with access to user memory.
    pub fn shadow(&self) -> (r: PageTableRoot)
        ensures
            r == self.spec_shadow(),
    {
        if (self.csrs.satp & SATP_MODE) == 0 {
            PageTableRoot::MPA
        } else if !self.smode {
            PageTableRoot::UVA
        } else if self.csrs.sstatus & STATUS_SUM == 0 {
            PageTableRoot::KVA
        } else {
            PageTableRoot::MVA
        }
    }

    /// Emulates a guest read of `csr`; `hw_sstatus` is the hart's own `sstatus`, from which the
    /// floating-point state bits are taken. `None` where the CSR is not emulated.
    pub fn get_csr(&mut self, csr: u32, hw_sstatus: u64) -> (r: Option<u64>)
        requires
            old(self).wf(),
            csr == CSR_TIME ==> old(self).smode,
        ensures
            r == csr_read_value(&*old(self), csr, hw_sstatus),
            *final(self) == csr_read_state(&*old(self), csr, hw_sstatus),
    {
        if csr == CSR_SSTATUS {
            self.csrs.sstatus = (self.csrs.sstatus & !SSTATUS_DYNAMIC_MASK) | (hw_sstatus & SSTATUS_DYNAMIC_MASK);
            Some(self.csrs.sstatus)
        } else if csr == CSR_SATP {
            Some(self.csrs.satp)
        } else if csr == CSR_SIE {
            Some(self.csrs.sie)
        } else if csr == CSR_STVEC {
            Some(self.csrs.stvec)
        } else if csr == CSR_SSCRATCH {
            Some(self.csrs.sscratch)
        } else if csr == CSR_SEPC {
            Some(self.csrs.sepc)
        } else if csr == CSR_SCAUSE {
            Some(self.csrs.scause)
        } else if csr == CSR_STVAL {
            Some(self.csrs.stval)
        } else if csr == CSR_SIP {
            Some(self.csrs.sip)
        } else if csr == CSR_SEDELEG || csr == CSR_SIDELEG || csr == CSR_SCOUNTEREN {
            Some(0)
        } else if csr == CSR_TIME {
            Some(self.host_clint.get_mtime())
        } else {
            None
        }
    }

    /// Emulates a guest write of `value` to `csr`. Returns whether the CSR is emulated.
    pub fn set_csr(&mut self, csr: u32, value: u64) -> (r: bool)
        requires
            old(self).wf(),
            csr == CSR_SSTATUS ==> (old(self).csrs.sstatus ^ (value & SSTATUS_WRITABLE_MASK)) & STATUS_MXR == 0,
        ensures
            final(self).wf(),
            r == csr_writable(csr),
            csr_written(&*old(self), &*final(self), csr, value),
    {
        if csr == CSR_SSTATUS {
            let value = value & SSTATUS_WRITABLE_MASK;
            let changed = self.csrs.sstatus ^ value;
            self.csrs.sstatus = value;
            if changed & STATUS_FS != 0 {
                self.actions.sstatus_fs = Some(value);
            }
            if changed.get(STATUS_SIE) && value.get(STATUS_SIE) {
                self.no_interrupt = false;
            }
        } else if csr == CSR_SATP {
            let mode = (value & SATP_MODE) >> 60u64;
            if mode == 0 || mode == 8 {
                self.csrs.satp = value & !SATP_ASID;
            }
            flush_shadow_page_table(&mut self.shadow_page_tables, &mut self.actions);
        } else if csr == CSR_SIE {
            assert((value & (0x200u64 | 0x20u64 | 0x2u64)) & !(0x200u64 | 0x20u64 | 0x2u64) == 0) by (bit_vector);
            let value = value & (IE_SEIE | IE_STIE | IE_SSIE);
            if !self.csrs.sie & value != 0 {
                self.no_interrupt = false;
            }
            self.csrs.sie = value;
        } else if csr == CSR_STVEC {
            assert((value & !0x2u64) & 0x2 == 0) by (bit_vector);
            self.csrs.stvec = value & !0x2u64;
        } else if csr == CSR_SSCRATCH {
            self.csrs.sscratch = value;
        } else if csr == CSR_SEPC {
            self.csrs.sepc = value;
        } else if csr == CSR_SCAUSE {
            self.csrs.scause = value;
        } else if csr == CSR_STVAL {
            self.csrs.stval = value;
        } else if csr == CSR_SIP {
            if value & IP_SSIP != 0 {
                self.no_interrupt = false;
            }
            self.csrs.sip = (self.csrs.sip & !IP_SSIP) | (value & IP_SSIP);
        } else if csr == CSR_SEDELEG || csr == CSR_SIDELEG || csr == CSR_SCOUNTEREN {
        } else {
            return false;
        }
        true
    }
}


/// The number of guest `guestid`: 1 for the only guest.
pub open spec fn guest_number(guestid: Option<u64>) -> int {
    match guestid {
        Some(x) => x as int,
        None => 1,
    }
}

/// The guest address of the registers of guest virtio slot `i`.
pub open spec fn guest_slot_address(i: int) -> int {
    0x1000_1000 + 0x1000 * i
}

/// The interrupt of the guest device at guest address `addr`, the first among the guest
/// machine's devices `guest` from `j` on, looking at its first four. `None` where none of them
/// is there, or there are fewer than four before one is found.
pub open spec fn guest_irq_from(guest: Seq<crate::fdt::Device>, addr: int, j: int) -> Option<u64>
    decreases 4 - j,
{
    if j < 0 || j >= 4 || j >= guest.len() {
        None
    } else if guest[j].base_address == addr {
        Some(guest[j].irq)
    } else {
        guest_irq_from(guest, addr, j + 1)
    }
}

/// The host device behind guest virtio slot `i` of the guest numbered `g`: the host's device
/// `4 * (g - 1) + i`, where there is one.
pub open spec fn host_device_index(g: int, i: int) -> int {
    4 * (g - 1) + i
}

/// The interrupt routing after the first `n` guest virtio slots of the guest numbered `g` are
/// set up: each host interrupt of a slot's host device goes to the interrupt of the guest
/// device at the slot's guest address (kept to its low 16 bits). `None` where a guest device is
/// missing, or a host interrupt is out of range or used twice.
pub open spec fn irq_map_upto(host: Seq<crate::fdt::Device>, guest: Seq<crate::fdt::Device>, g: int, n: int) -> Option<Seq<IrqMapping>>
    decreases n,
{
    if n <= 0 {
        Some(Seq::new(512, |k: int| IrqMapping::Ignored))
    } else {
        match irq_map_upto(host, guest, g, n - 1) {
            None => None,
            Some(m) => {
                let index = host_device_index(g, n - 1);
                if index < host.len() {
                    let host_irq = host[index].irq;
                    match guest_irq_from(guest, guest_slot_address(n - 1), 0) {
                        None => None,
                        Some(gi) => if host_irq >= 512 || m[host_irq as int] != IrqMapping::Ignored {
                            None
                        } else {
                            Some(m.update(host_irq as int, IrqMapping::Virtio { device_index: (n - 1) as u8, guest_irq: gi as u16 }))
                        },
                    }
                } else {
                    Some(m)
                }
            },
        }
    }
}

/// The interrupt controller context of hart `hartid`, the first among `harts` with that id.
pub open spec fn plic_context_of(harts: Seq<crate::fdt::Hart>, hartid: u64, from: int) -> Option<u64>
    decreases harts.len() - from,
{
    if from < 0 || from >= harts.len() {
        None
    } else if harts[from].hartid == hartid {
        Some(harts[from].plic_context)
    } else {
        plic_context_of(harts, hartid, from + 1)
    }
}

/// Whether `c` is the context the hypervisor starts guest `guestid` with on hart `hartid`: all
/// control registers clear (no timer set), the interrupt controller and serial port in their
/// reset state, the guest in S-mode, the virtio slots mapped onto the host devices of the
/// guest's group of four and the interrupts routed as `irq_map_upto` says, and the host's timer
/// and interrupt-claim registers of the hart at their direct-map addresses.
pub open spec fn initial_context(
    c: &Context,
    machine: &MachineMeta,
    guest_machine: &MachineMeta,
    shadow_page_tables: PageTables,
    guest_memory: MemoryRegion,
    guest_shift: u64,
    hartid: u64,
    guestid: Option<u64>,
) -> bool {
    let g = guest_number(guestid);
    let host = device_items(machine.virtio);
    let ctx = plic_context_of(hart_items(machine.harts), hartid, 0)->0;
    &&& c.wf()
    &&& c.csrs == (ControlRegisters {
        sstatus: 0, sie: 0, sip: 0, stvec: 0, sscratch: 0, sepc: 0, scause: 0, stval: 0, satp: 0,
        mtimecmp: u64::MAX,
    })
    &&& c.irq_map@ == irq_map_upto(host, device_items(guest_machine.virtio), g, 4)->0
    &&& forall|i: int| 0 <= i < 4 ==> (if host_device_index(g, i) < host.len() {
        #[trigger] c.virtio.devices@[i] matches Device::Passthrough { queue_sel, queues, device_registers }
            && queue_sel == 0
            && device_registers.spec_ptr() == host[host_device_index(g, i)].base_address + DIRECT_MAP_OFFSET
            && forall|j: int| 0 <= j < 4 ==> #[trigger] queues@[j] == (Queue { guest_pa: 0, host_pa: 0, size: 0 })
    } else {
        c.virtio.devices@[i] is Unmapped
    })
    &&& c.virtio.num_queue_guest_pages == 0
    &&& c.plic.priorities() == Seq::new(512, |i: int| 0u32)
    &&& c.plic.pending_words() == Seq::new(16, |i: int| 0u32)
    &&& c.plic.enables() == Seq::new(16, |i: int| Seq::new(32, |j: int| 0u32))
    &&& c.plic.thresholds() == Seq::new(16, |i: int| 0u32)
    &&& c.plic.claims() == Seq::new(16, |i: int| 0u32)
    &&& !c.uart.dlab
    &&& c.uart.interrupt_enable == 0
    &&& c.uart.divisor_latch == 1
    &&& c.uart.next_interrupt_time == 0
    &&& c.uart.input_bytes_ready == 0
    &&& line_buffer_items(c.uart.line_buffer) == Seq::<u8>::empty()
    &&& c.uart.guestid == guestid
    &&& c.saved_registers.spec_sscratch() == 0
    &&& c.saved_registers.save_area().spec_ptr() == SSTACK_BASE
    &&& c.guest_memory == guest_memory
    &&& c.shadow_page_tables == shadow_page_tables
    &&& c.guest_shift == guest_shift
    &&& c.smode
    &&& c.no_interrupt
    &&& !c.tlb_caches_invalid_ptes
    &&& c.consecutive_page_fault_count == 0
    &&& c.host_clint.mtime.spec_ptr() == machine.clint_address + 0xbff8 + DIRECT_MAP_OFFSET
    &&& c.host_clint.mtimecmp.spec_ptr() == machine.clint_address + 0x4000 + 8 * hartid + DIRECT_MAP_OFFSET
    &&& c.host_plic.claim_clear.spec_ptr() == machine.plic_address + 0x20_0004 + 0x1000 * ctx + DIRECT_MAP_OFFSET
    &&& c.actions.halt is None
}

/// Whether the hypervisor can start guest `guestid` on hart `hartid` of `machine`: the guest
/// number is at least 1, the interrupt routing can be set up, the hart is listed, and the host
/// registers' direct-map addresses exist.
pub open spec fn can_initialize(machine: &MachineMeta, guest_machine: &MachineMeta, hartid: u64, guestid: Option<u64>) -> bool {
    let g = guest_number(guestid);
    let host = device_items(machine.virtio);
    let ctx = plic_context_of(hart_items(machine.harts), hartid, 0);
    &&& g >= 1
    &&& 4 * (g - 1) + 4 <= u64::MAX
    &&& irq_map_upto(host, device_items(guest_machine.virtio), g, 4) is Some
    &&& ctx is Some
    &&& forall|i: int| 0 <= i < 4 && host_device_index(g, i) < host.len() ==>
        host[host_device_index(g, i)].base_address + DIRECT_MAP_OFFSET <= u64::MAX
    &&& machine.clint_address + 0xbff8 + DIRECT_MAP_OFFSET <= u64::MAX
    &&& machine.clint_address + 0x4000 + 8 * hartid + DIRECT_MAP_OFFSET <= u64::MAX
    &&& machine.plic_address + 0x20_0004 + 0x1000 * ctx->0 + DIRECT_MAP_OFFSET <= u64::MAX
}

/// The interrupt of the guest device at guest address `addr`, as `guest_irq_from` says.
fn find_guest_irq(guest_machine: &MachineMeta, addr: u64) -> (r: Option<u64>)
    ensures
        r == guest_irq_from(device_items(guest_machine.virtio), addr as int, 0),
{
    let n = devices_len(&guest_machine.virtio);
    let mut j: usize = 0;
    while j < 4
        invariant
            j <= 4,
            n == device_items(guest_machine.virtio).len(),
            guest_irq_from(device_items(guest_machine.virtio), addr as int, 0)
                == guest_irq_from(device_items(guest_machine.virtio), addr as int, j as int),
        decreases 4 - j,
    {
        if j >= n {
            return None;
        }
        let d = devices_get(&guest_machine.virtio, j);
        if d.base_address == addr {
            return Some(d.irq);
        }
        j = j + 1;
    }
    None
}

/// The interrupt controller context of hart `hartid`, as `plic_context_of` says.
fn find_plic_context(machine: &MachineMeta, hartid: u64) -> (r: Option<u64>)
    ensures
        r == plic_context_of(hart_items(machine.harts), hartid, 0),
{
    let n = harts_len(&machine.harts);
    let mut j: usize = 0;
    while j < n
        invariant
            j <= n,
            n == hart_items(machine.harts).len(),
            plic_context_of(hart_items(machine.harts), hartid, 0) == plic_context_of(hart_items(machine.harts), hartid, j as int),
        decreases n - j,
    {
        let h = harts_get(&machine.harts, j);
        if h.hartid == hartid {
            return Some(h.plic_context);
        }
        j = j + 1;
    }
    None
}

proof fn lemma_irq_map_none(host: Seq<crate::fdt::Device>, guest: Seq<crate::fdt::Device>, g: int, n: int, m: int)
    requires
        0 <= n <= m,
        irq_map_upto(host, guest, g, n) is None,
    ensures
        irq_map_upto(host, guest, g, m) is None,
    decreases m - n,
{
    if n < m {
        lemma_irq_map_none(host, guest, g, n, m - 1);
    }
}

/// The guest's virtio slots and the interrupt routing for the guest numbered `g`, as
/// `initial_context` describes them; `None` where `irq_map_upto` fails or a host device's
/// registers have no direct-map address.
fn virtio_setup(machine: &MachineMeta, guest_machine: &MachineMeta, g: u64) -> (r: Option<(Vec<Device>, [IrqMapping; 512])>)
    requires
        g >= 1,
        4 * (g - 1) + 4 <= u64::MAX,
    ensures
        ({
            let host = device_items(machine.virtio);
            r is Some <==> (irq_map_upto(host, device_items(guest_machine.virtio), g as int, 4) is Some
                && forall|i: int| 0 <= i < 4 && host_device_index(g as int, i) < host.len() ==>
                    host[host_device_index(g as int, i)].base_address + DIRECT_MAP_OFFSET <= u64::MAX)
        }),
        r matches Some((devices, irq_map)) ==> {
            let host = device_items(machine.virtio);
            &&& irq_map@ == irq_map_upto(host, device_items(guest_machine.virtio), g as int, 4)->0
            &&& forall|k: int| 0 <= k < 512 ==> (#[trigger] irq_map@[k]).wf()
            &&& devices@.len() == 4
            &&& forall|k: int| 0 <= k < 4 ==> (#[trigger] devices@[k]).wf()
            &&& forall|k: int| 0 <= k < 4 ==> (if host_device_index(g as int, k) < host.len() {
                #[trigger] devices@[k] matches Device::Passthrough { queue_sel, queues, device_registers }
                    && queue_sel == 0
                    && device_registers.spec_ptr() == host[host_device_index(g as int, k)].base_address + DIRECT_MAP_OFFSET
                    && forall|j: int| 0 <= j < 4 ==> #[trigger] queues@[j] == (Queue { guest_pa: 0, host_pa: 0, size: 0 })
            } else {
                devices@[k] is Unmapped
            })
        },
{
    let ghost host = device_items(machine.virtio);
    let ghost guest = device_items(guest_machine.virtio);
    let first = 4 * (g - 1);
    let nhost = devices_len(&machine.virtio);
    let mut irq_map: [IrqMapping; 512] = [IrqMapping::Ignored; 512];
    let mut devices: Vec<Device> = Vec::new();
    assert(irq_map@ =~= Seq::new(512, |k: int| IrqMapping::Ignored));
    let mut i: usize = 0;
    while i < 4
        invariant
            i <= 4,
            g >= 1,
            first == 4 * (g - 1),
            first + 4 <= u64::MAX,
            nhost == host.len(),
            host == device_items(machine.virtio),
            guest == device_items(guest_machine.virtio),
            irq_map_upto(host, guest, g as int, i as int) == Some(irq_map@),
            forall|k: int| 0 <= k < 512 ==> (#[trigger] irq_map@[k]).wf(),
            devices@.len() == i,
            forall|k: int| 0 <= k < i ==> (#[trigger] devices@[k]).wf(),
            forall|k: int| 0 <= k < i ==> (if host_device_index(g as int, k) < host.len() {
                #[trigger] devices@[k] matches Device::Passthrough { queue_sel, queues, device_registers }
                    && queue_sel == 0
                    && device_registers.spec_ptr() == host[host_device_index(g as int, k)].base_address + DIRECT_MAP_OFFSET
                    && forall|j: int| 0 <= j < 4 ==> #[trigger] queues@[j] == (Queue { guest_pa: 0, host_pa: 0, size: 0 })
            } else {
                devices@[k] is Unmapped
            }),
            forall|k: int| 0 <= k < i && host_device_index(g as int, k) < host.len() ==>
                host[host_device_index(g as int, k)].base_address + DIRECT_MAP_OFFSET <= u64::MAX,
        decreases 4 - i,
    {
        let index = first + i as u64;
        if index < nhost as u64 {
            let d = devices_get(&machine.virtio, index as usize);
            if d.base_address > u64::MAX - DIRECT_MAP_OFFSET {
                assert(host_device_index(g as int, i as int) < host.len()
                    && host[host_device_index(g as int, i as int)].base_address + DIRECT_MAP_OFFSET > u64::MAX);
                return None;
            }
            let regs = MemoryRegion::<u32>::with_base_address(pa2va(d.base_address), 0, 0x1000);
            devices.push(Device::new(regs));
            let host_irq = d.irq;
            let guest_irq = find_guest_irq(guest_machine, 0x1000_1000 + 0x1000 * i as u64);
            assert(host_device_index(g as int, i as int) == index);
            match guest_irq {
                None => {
                    proof {
                        lemma_irq_map_none(host, guest, g as int, i + 1, 4);
                    }
                    return None;
                },
                Some(gi) => {
                    if host_irq >= 512 {
                        proof {
                            lemma_irq_map_none(host, guest, g as int, i + 1, 4);
                        }
                        return None;
                    }
                    if irq_map[host_irq as usize] != IrqMapping::Ignored {
                        proof {
                            lemma_irq_map_none(host, guest, g as int, i + 1, 4);
                        }
                        return None;
                    }
                    let gi16 = #[verifier::truncate] (gi as u16);
                    irq_map[host_irq as usize] = IrqMapping::Virtio { device_index: i as u8, guest_irq: gi16 };
                },
            }
        } else {
            devices.push(Device::Unmapped);
        }
        i = i + 1;
    }
    Some((devices, irq_map))
}

/// The host's time and timer-compare registers for hart `hartid`, at their direct-map
/// addresses; `None` where those do not exist.
fn host_timer_registers(clint_address: u64, hartid: u64) -> (r: Option<HostClint>)
    ensures
        r is Some <==> (clint_address + 0xbff8 + DIRECT_MAP_OFFSET <= u64::MAX
            && clint_address + 0x4000 + 8 * hartid + DIRECT_MAP_OFFSET <= u64::MAX),
        r matches Some(h) ==> h.wf() && h.mtime.spec_ptr() == clint_address + 0xbff8 + DIRECT_MAP_OFFSET
            && h.mtimecmp.spec_ptr() == clint_address + 0x4000 + 8 * hartid + DIRECT_MAP_OFFSET,
{
    if clint_address > u64::MAX - DIRECT_MAP_OFFSET - 0xbff8 {
        return None;
    }
    if hartid > (u64::MAX - DIRECT_MAP_OFFSET - 0x4000) / 8
        || clint_address > u64::MAX - DIRECT_MAP_OFFSET - 0x4000 - 8 * hartid {
        return None;
    }
    let mtime = MemoryRegion::with_base_address(pa2va(clint_address + 0xbff8), 0, 8);
    let compare = MemoryRegion::with_base_address(pa2va(clint_address + 0x4000 + 8 * hartid), 0, 8);
    Some(HostClint { mtime, mtimecmp: compare })
}

/// The context the hypervisor starts guest `guestid` (or its only guest) with on hart
/// `hartid`, from the host's machine description `machine`, the guest's `guest_machine`, the
/// shadow page tables, the guest's memory and its offset `guest_shift`; `None` where
/// `can_initialize` fails.
pub fn initialize(
    machine: &MachineMeta,
    guest_machine: &MachineMeta,
    shadow_page_tables: PageTables,
    guest_memory: MemoryRegion,
    guest_shift: u64,
    hartid: u64,
    guestid: Option<u64>,
) -> (r: Option<Context>)
    requires
        shadow_page_tables.wf(),
        guest_memory.wf(),
    ensures
        r is Some <==> can_initialize(machine, guest_machine, hartid, guestid),
        r matches Some(c) ==> initial_context(&c, machine, guest_machine, shadow_page_tables, guest_memory, guest_shift, hartid, guestid),
{
    let g: u64 = match guestid {
        Some(x) => x,
        None => 1,
    };
    if g == 0 {
        return None;
    }
    if g - 1 > (u64::MAX - 4) / 4 {
        return None;
    }
    let (devices, irq_map) = match virtio_setup(machine, guest_machine, g) {
        Some(x) => x,
        None => {
            return None;
        },
    };
    let plic_context = match find_plic_context(machine, hartid) {
        Some(c) => c,
        None => {
            return None;
        },
    };
    let host_clint = match host_timer_registers(machine.clint_address, hartid) {
        Some(h) => h,
        None => {
            return None;
        },
    };
    if plic_context > (u64::MAX - DIRECT_MAP_OFFSET - 0x20_0004) / 0x1000
        || machine.plic_address > u64::MAX - DIRECT_MAP_OFFSET - 0x20_0004 - 0x1000 * plic_context {
        return None;
    }
    assert((0u64 & !(IE_SEIE | IE_STIE | IE_SSIE)) == 0 && 0u64 & 0x2 == 0) by (bit_vector);
    let claim_clear = MemoryRegion::<u32>::with_base_address(pa2va(machine.plic_address + 0x20_0004 + 0x1000 * plic_context), 0, 8);
    let registers = MemoryRegion::with_base_address(SSTACK_BASE, 0, 32 * 8);
    let c = Context {
        csrs: ControlRegisters {
            sstatus: 0,
            sie: 0,
            sip: 0,
            stvec: 0,
            sscratch: 0,
            sepc: 0,
            scause: 0,
            stval: 0,
            satp: 0,
            mtimecmp: u64::MAX,
        },
        plic: PlicState::new(),
        uart: Uart::new(guestid),
        virtio: VirtIO { devices, queue_guest_pages: [0u64; 16], num_queue_guest_pages: 0 },
        saved_registers: SavedRegisters::new(registers, 0),
        guest_memory,
        shadow_page_tables,
        guest_shift,
        smode: true,
        no_interrupt: true,
        tlb_caches_invalid_ptes: false,
        consecutive_page_fault_count: 0,
        host_clint,
        host_plic: HostPlic { claim_clear },
        irq_map,
        actions: HartActions::new(0),
    };
    Some(c)
}

/// A guest write of `value` to `sip` sets its software-interrupt bit to that of `value`, so
/// writing 0 there acknowledges a software interrupt, and leaves every other bit of `sip` as it
/// was; a later read of `sip` gives the written bit back.
pub proof fn lemma_sip_write_then_read(old: &Context, new: &Context, value: u64, hw_sstatus: u64)
    requires
        csr_written(old, new, CSR_SIP, value),
    ensures
        new.csrs.sip & IP_SSIP == value & IP_SSIP,
        new.csrs.sip & !IP_SSIP == old.csrs.sip & !IP_SSIP,
        csr_read_value(new, CSR_SIP, hw_sstatus) matches Some(r) && r & IP_SSIP == value & IP_SSIP,
{
    lemma_law_bits(0, old.csrs.sip, value, 0);
}

/// A newline that a guest with an id sends to its serial port prints exactly one line, the
/// bytes buffered so far, tagged with the guest's id, and leaves the line buffer empty.
pub proof fn lemma_newline_prints_line(old: &Uart, new: &Uart, out: ConsoleOutput)
    requires
        Uart::printed(old, new, 10, out),
        old.guestid is Some,
    ensures
        out matches ConsoleOutput::GuestLines { guestid, lines } && guestid == old.guestid->0
            && lines@.len() == 1 && lines@[0]@ == line_buffer_items(old.line_buffer),
        line_buffer_items(new.line_buffer).len() == 0,
{
    if let ConsoleOutput::GuestLines { guestid, lines } = out {
        assert(lines@.map_values(|l: Vec<u8>| l@).len() == 1);
        assert(lines@.map_values(|l: Vec<u8>| l@)[0] == lines@[0]@);
    }
}

/// Any other byte that a guest with an id sends, while its line buffer has room and does not
/// end in a carriage return, joins the end of the buffer and prints nothing.
pub proof fn lemma_byte_joins_line(old: &Uart, new: &Uart, value: u8, out: ConsoleOutput)
    requires
        Uart::printed(old, new, value, out),
        old.guestid is Some,
        value != 10,
        line_buffer_items(old.line_buffer).len() < 256,
        line_buffer_items(old.line_buffer).len() > 0 ==> line_buffer_items(old.line_buffer).last() != 13,
    ensures
        out matches ConsoleOutput::GuestLines { lines, .. } && lines@.len() == 0,
        line_buffer_items(new.line_buffer) == line_buffer_items(old.line_buffer).push(value),
{
    if let ConsoleOutput::GuestLines { guestid, lines } = out {
        assert(lines@.map_values(|l: Vec<u8>| l@).len() == lines@.len());
    }
}

/// A byte other than a newline, after a carriage return ended the buffered line, first prints
/// that line (carriage return and all) and then starts the next line with the byte.
pub proof fn lemma_carriage_return_ends_line(old: &Uart, new: &Uart, value: u8, out: ConsoleOutput)
    requires
        Uart::printed(old, new, value, out),
        old.guestid is Some,
        value != 10,
        line_buffer_items(old.line_buffer).len() > 0,
        line_buffer_items(old.line_buffer).last() == 13,
    ensures
        out matches ConsoleOutput::GuestLines { lines, .. } && lines@.len() == 1
            && lines@[0]@ == line_buffer_items(old.line_buffer),
        line_buffer_items(new.line_buffer) == seq![value],
{
    if let ConsoleOutput::GuestLines { guestid, lines } = out {
        assert(lines@.map_values(|l: Vec<u8>| l@).len() == 1);
        assert(lines@.map_values(|l: Vec<u8>| l@)[0] == lines@[0]@);
    }
    assert(Seq::<u8>::empty().push(value) =~= seq![value]);
}

/// A byte that meets a full line buffer (256 bytes) prints the buffered line and is dropped.
pub proof fn lemma_full_buffer_prints_line(old: &Uart, new: &Uart, value: u8, out: ConsoleOutput)
    requires
        Uart::printed(old, new, value, out),
        old.guestid is Some,
        line_buffer_items(old.line_buffer).len() == 256,
        line_buffer_items(old.line_buffer).last() != 13 || value == 10,
    ensures
        out matches ConsoleOutput::GuestLines { lines, .. } && lines@.len() == 1
            && lines@[0]@ == line_buffer_items(old.line_buffer),
        line_buffer_items(new.line_buffer).len() == 0,
{
    if let ConsoleOutput::GuestLines { guestid, lines } = out {
        assert(lines@.map_values(|l: Vec<u8>| l@).len() == 1);
        assert(lines@.map_values(|l: Vec<u8>| l@)[0] == lines@[0]@);
    }
}

} // verus!
