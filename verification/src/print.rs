//! What the host console shows of a guest's output line: the guest's tag, in the guest's color,
//! then the line.
use vstd::prelude::*;
use vstd::string::StringSliceAdditionalSpecFns;
use crate::fdt::UartType;
use crate::pmap::{pa2va, DIRECT_MAP_OFFSET};

verus! {

/// The decimal digits of `n`, most significant first.
pub open spec fn spec_decimal(n: nat) -> Seq<u8>
    decreases n,
{
    if n < 10 {
        seq![(48 + n) as u8]
    } else {
        spec_decimal(n / 10).push((48 + n % 10) as u8)
    }
}

/// The decimal digits of `n`, most significant first.
pub fn decimal(n: u64) -> (r: Vec<u8>)
    ensures
        r@ == spec_decimal(n as nat),
    decreases n,
{
    if n < 10 {
        let mut v: Vec<u8> = Vec::new();
        v.push((48 + n) as u8);
        assert(v@ =~= seq![(48 + n) as u8]);
        v
    } else {
        let mut v = decimal(n / 10);
        v.push((48 + n % 10) as u8);
        v
    }
}

/// The escape sequence that selects the color of guest `guestid`: green for the first, blue
/// for the second, yellow for the others.
pub open spec fn guest_color(guestid: u64) -> Seq<u8> {
    if guestid == 1 {
        seq![0x1bu8, 0x5b, 0x33, 0x32, 0x6d]
    } else if guestid == 2 {
        seq![0x1bu8, 0x5b, 0x33, 0x34, 0x6d]
    } else {
        seq![0x1bu8, 0x5b, 0x33, 0x33, 0x6d]
    }
}

/// The bytes the host console shows for line `line` of guest `guestid`: the guest's color,
/// bold, `[guestid] `, the normal style, the line, and a newline.
pub open spec fn spec_guest_line(guestid: u64, line: Seq<u8>) -> Seq<u8> {
    guest_color(guestid) + seq![0x1bu8, 0x5b, 0x31, 0x6d] + seq![0x5bu8] + spec_decimal(guestid as nat)
        + seq![0x5du8, 0x20] + seq![0x1bu8, 0x5b, 0x30, 0x6d] + line + seq![0x0au8]
}

fn append(v: &mut Vec<u8>, s: &[u8])
    ensures
        final(v)@ == old(v)@ + s@,
{
    let mut k: usize = 0;
    while k < s.len()
        invariant
            k <= s@.len(),
            v@ == old(v)@ + s@.subrange(0, k as int),
        decreases s@.len() - k,
    {
        v.push(s[k]);
        k = k + 1;
        assert(v@ =~= old(v)@ + s@.subrange(0, k as int));
    }
    assert(s@.subrange(0, k as int) =~= s@);
}

/// Printing line `line` of guest `guestid`: the bytes to write to the host console.
pub fn guest_println(guestid: u64, line: &Vec<u8>) -> (r: Vec<u8>)
    ensures
        r@ == spec_guest_line(guestid, line@),
{
    let mut v: Vec<u8> = Vec::new();
    let color: [u8; 5] = if guestid == 1 {
        [0x1b, 0x5b, 0x33, 0x32, 0x6d]
    } else if guestid == 2 {
        [0x1b, 0x5b, 0x33, 0x34, 0x6d]
    } else {
        [0x1b, 0x5b, 0x33, 0x33, 0x6d]
    };
    assert(color@ =~= guest_color(guestid));
    append(&mut v, &color);
    let bold: [u8; 4] = [0x1b, 0x5b, 0x31, 0x6d];
    append(&mut v, &bold);
    let open: [u8; 1] = [0x5b];
    append(&mut v, &open);
    let digits = decimal(guestid);
    append(&mut v, digits.as_slice());
    let close: [u8; 2] = [0x5d, 0x20];
    append(&mut v, &close);
    let normal: [u8; 4] = [0x1b, 0x5b, 0x30, 0x6d];
    append(&mut v, &normal);
    append(&mut v, line.as_slice());
    let newline: [u8; 1] = [0x0a];
    append(&mut v, &newline);
    assert(bold@ =~= seq![0x1bu8, 0x5b, 0x31, 0x6d]);
    assert(open@ =~= seq![0x5bu8]);
    assert(close@ =~= seq![0x5du8, 0x20]);
    assert(normal@ =~= seq![0x1bu8, 0x5b, 0x30, 0x6d]);
    assert(newline@ =~= seq![0x0au8]);
    v
}


/// The kind of serial port the host console is written to, with the 16550's initialization
/// state.
#[derive(Copy, Clone, Debug, PartialEq, Eq, Structural)]
pub enum UartWriterInner {
    Ns16550a { initialized: bool },
    SiFive,
}

/// The register writes, as (byte offset, value), that set up a 16550: interrupts off, the
/// divisor latch opened, divisor 3, the latch closed with 8 data bits, and the FIFOs enabled and
/// cleared.
pub fn initialize_ns16550a() -> (r: [(u64, u8); 6])
    ensures
        r@ == seq![(1u64, 0u8), (3u64, 0x80u8), (0u64, 3u8), (1u64, 0u8), (3u64, 3u8), (2u64, 0xc7u8)],
{
    let r: [(u64, u8); 6] = [(1, 0x00), (3, 0x80), (0, 0x03), (1, 0x00), (3, 0x03), (2, 0xc7)];
    assert(r@ =~= seq![(1u64, 0u8), (3u64, 0x80u8), (0u64, 3u8), (1u64, 0u8), (3u64, 3u8), (2u64, 0xc7u8)]);
    r
}

/// How a byte goes out through a serial port.
#[derive(Copy, Clone, Debug, PartialEq, Eq, Structural)]
pub enum Transmit {
    /// A 16550 at `base`: first the writes of `initialize_ns16550a` where `initialize`, then a
    /// wait until the line status register (byte 5) has bit 0x20 (room to send), then `ch`
    /// written to byte 0.
    Ns16550a { base: u64, initialize: bool, ch: u8 },
    /// A SiFive port at `base`: a wait until the transmit word (offset 0) has its top bit clear
    /// (room to send), then `ch` written there as a 32-bit word.
    SiFive { base: u64, ch: u8 },
}

/// How a byte is fetched from a serial port, if one has arrived.
#[derive(Copy, Clone, Debug, PartialEq, Eq, Structural)]
pub enum Receive {
    /// A 16550 at `base`: first the writes of `initialize_ns16550a` where `initialize`, then the
    /// line status register (byte 5) read; where `ns16550a_has_byte` holds of it, the byte is
    /// read from byte 0.
    Ns16550a { base: u64, initialize: bool },
    /// A SiFive port at `base`: the 32-bit word at offset 0 read, and `sifive_received` applied.
    SiFive { base: u64 },
}

impl UartWriterInner {
    /// The port's state once it has been used: a 16550 is initialized from then on.
    pub open spec fn after_use(self) -> UartWriterInner {
        match self {
            UartWriterInner::Ns16550a { .. } => UartWriterInner::Ns16550a { initialized: true },
            UartWriterInner::SiFive => UartWriterInner::SiFive,
        }
    }
}

/// Sending `ch` through the port in state `inner` at `base`.
pub open spec fn spec_transmit(inner: UartWriterInner, base: u64, ch: u8) -> Transmit {
    match inner {
        UartWriterInner::Ns16550a { initialized } => Transmit::Ns16550a { base, initialize: !initialized, ch },
        UartWriterInner::SiFive => Transmit::SiFive { base, ch },
    }
}

/// Fetching a byte from the port in state `inner` at `base`.
pub open spec fn spec_receive(inner: UartWriterInner, base: u64) -> Receive {
    match inner {
        UartWriterInner::Ns16550a { initialized } => Receive::Ns16550a { base, initialize: !initialized },
        UartWriterInner::SiFive => Receive::SiFive { base },
    }
}

impl UartWriterInner {
    fn putchar(&mut self, base_address: u64, ch: u8) -> (r: Transmit)
        ensures
            r == spec_transmit(*old(self), base_address, ch),
            *final(self) == old(self).after_use(),
    {
        match *self {
            UartWriterInner::Ns16550a { initialized } => {
                *self = UartWriterInner::Ns16550a { initialized: true };
                Transmit::Ns16550a { base: base_address, initialize: !initialized, ch }
            },
            UartWriterInner::SiFive => Transmit::SiFive { base: base_address, ch },
        }
    }

    fn getchar(&mut self, base_address: u64) -> (r: Receive)
        ensures
            r == spec_receive(*old(self), base_address),
            *final(self) == old(self).after_use(),
    {
        match *self {
            UartWriterInner::Ns16550a { initialized } => {
                *self = UartWriterInner::Ns16550a { initialized: true };
                Receive::Ns16550a { base: base_address, initialize: !initialized }
            },
            UartWriterInner::SiFive => Receive::SiFive { base: base_address },
        }
    }
}

/// Whether a 16550 whose line status register reads `lsr` has room to send (bit 0x20).
pub fn ns16550a_ready_to_send(lsr: u8) -> (r: bool)
    ensures
        r == (lsr & 0x20 != 0),
{
    lsr & 0x20 != 0
}

/// Whether a 16550 whose line status register reads `lsr` holds a received byte (bit 0x01).
pub fn ns16550a_has_byte(lsr: u8) -> (r: bool)
    ensures
        r == (lsr & 0x01 != 0),
{
    lsr & 0x01 != 0
}

/// Whether a SiFive port whose transmit word reads `txdata` has room to send: its top bit
/// (queue full) is clear.
pub fn sifive_ready_to_send(txdata: u32) -> (r: bool)
    ensures
        r == (txdata & 0x8000_0000 == 0),
{
    txdata & 0x8000_0000 == 0
}

/// The byte the word `rxdata` read from a SiFive port gives: its low byte where its top bit is
/// set, else none.
pub fn sifive_received(rxdata: u32) -> (r: Option<u8>)
    ensures
        r == (if rxdata & 0x8000_0000 != 0 { Some(rxdata as u8) } else { None::<u8> }),
{
    if rxdata & 0x8000_0000 != 0 {
        Some(#[verifier::truncate] (rxdata as u8))
    } else {
        None
    }
}

/// The host console: its serial port's physical address, the virtual address it is reached at
/// once paging is on, and its kind.
pub struct UartWriter {
    pub pa: u64,
    pub va: Option<u64>,
    pub inner: UartWriterInner,
}

impl UartWriter {
    /// The address the port's registers are reached at: the virtual one where there is one.
    pub open spec fn address_spec(&self) -> u64 {
        match self.va {
            Some(v) => v,
            None => self.pa,
        }
    }

    /// The address the port's registers are reached at: the virtual one where there is one.
    pub fn address(&self) -> (r: u64)
        ensures
            r == self.address_spec(),
    {
        match self.va {
            Some(v) => v,
            None => self.pa,
        }
    }

    /// Sending `ch` to the console, through the port's virtual address where it has one; the
    /// port is initialized from then on.
    pub fn putchar(&mut self, ch: u8) -> (r: Transmit)
        ensures
            r == spec_transmit(old(self).inner, old(self).address_spec(), ch),
            *final(self) == (UartWriter { inner: old(self).inner.after_use(), ..*old(self) }),
    {
        let base = self.address();
        self.inner.putchar(base, ch)
    }

    /// Sending `ch` to the console through the port's physical address, as machine mode does.
    pub fn mputchar(&mut self, ch: u8) -> (r: Transmit)
        ensures
            r == spec_transmit(old(self).inner, old(self).pa, ch),
            *final(self) == (UartWriter { inner: old(self).inner.after_use(), ..*old(self) }),
    {
        let base = self.pa;
        self.inner.putchar(base, ch)
    }

    /// Fetching a byte from the console, through the port's virtual address where it has one.
    pub fn getchar(&mut self) -> (r: Receive)
        ensures
            r == spec_receive(old(self).inner, old(self).address_spec()),
            *final(self) == (UartWriter { inner: old(self).inner.after_use(), ..*old(self) }),
    {
        let base = self.address();
        self.inner.getchar(base)
    }

    /// Sending the bytes of `s` to the console, one `putchar` each, in order.
    pub fn write_str(&mut self, s: &str) -> (r: Vec<Transmit>)
        ensures
            r@.len() == s.spec_bytes().len(),
            forall|i: int| 0 <= i < r@.len() ==> #[trigger] r@[i] == spec_transmit(
                if i == 0 { old(self).inner } else { old(self).inner.after_use() },
                old(self).address_spec(),
                s.spec_bytes()[i],
            ),
            *final(self) == if s.spec_bytes().len() == 0 {
                *old(self)
            } else {
                UartWriter { inner: old(self).inner.after_use(), ..*old(self) }
            },
    {
        let bytes = s.as_bytes();
        let mut out: Vec<Transmit> = Vec::new();
        let mut k: usize = 0;
        while k < bytes.len()
            invariant
                bytes@ == s.spec_bytes(),
                k <= bytes@.len(),
                out@.len() == k,
                self.pa == old(self).pa,
                self.va == old(self).va,
                self.inner == if k == 0 { old(self).inner } else { old(self).inner.after_use() },
                forall|i: int| 0 <= i < k ==> #[trigger] out@[i] == spec_transmit(
                    if i == 0 { old(self).inner } else { old(self).inner.after_use() },
                    old(self).address_spec(),
                    bytes@[i],
                ),
            decreases bytes@.len() - k,
        {
            let t = self.putchar(bytes[k]);
            out.push(t);
            k = k + 1;
        }
        out
    }

    /// Whether `init` accepts the port at `address` of kind `ty`: a 16550 already initialized
    /// must be that very port; otherwise no virtual address may be in use yet.
    pub open spec fn init_ok(&self, address: u64, ty: UartType) -> bool {
        if self.inner == (UartWriterInner::Ns16550a { initialized: true }) {
            self.pa == address && ty == UartType::Ns16550a
        } else {
            self.va is None
        }
    }

    /// Points the writer at the port at `address` of kind `ty`, found in the device tree; an
    /// already initialized 16550 stays as it is. `false` (and the writer unchanged, but for the
    /// port itself) where `init_ok` fails.
    pub fn init(&mut self, address: u64, ty: UartType) -> (r: bool)
        ensures
            r == old(self).init_ok(address, ty),
            r && old(self).inner != (UartWriterInner::Ns16550a { initialized: true }) ==> {
                &&& final(self).pa == address
                &&& final(self).va is None
                &&& final(self).inner == match ty {
                    UartType::Ns16550a => UartWriterInner::Ns16550a { initialized: false },
                    UartType::SiFive => UartWriterInner::SiFive,
                }
            },
            old(self).inner == (UartWriterInner::Ns16550a { initialized: true }) ==> *final(self) == *old(self),
    {
        if self.inner == (UartWriterInner::Ns16550a { initialized: true }) {
            return self.pa == address && ty == UartType::Ns16550a;
        }
        self.inner = match ty {
            UartType::Ns16550a => UartWriterInner::Ns16550a { initialized: false },
            UartType::SiFive => UartWriterInner::SiFive,
        };
        self.pa = address;
        self.va.is_none()
    }

    /// Reaches the port through its direct-map virtual address from now on; `false` (and the
    /// writer unchanged) where that address does not exist.
    pub fn switch_to_virtual_addresses(&mut self) -> (r: bool)
        ensures
            r == (old(self).pa + DIRECT_MAP_OFFSET <= u64::MAX),
            r ==> *final(self) == (UartWriter { va: Some((old(self).pa + DIRECT_MAP_OFFSET) as u64), ..*old(self) }),
            !r ==> *final(self) == *old(self),
    {
        if self.pa > u64::MAX - DIRECT_MAP_OFFSET {
            return false;
        }
        self.va = Some(pa2va(self.pa));
        true
    }
}

} // verus!
