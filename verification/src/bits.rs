//! Bit layouts of the supervisor control registers, single-bit access on `u64`, and the
//! meaning of byte sequences as numbers.
use vstd::prelude::*;

verus! {

/// The bit facts that the laws on page-table entries, `sip` and interrupt causes rest on.
pub proof fn lemma_law_bits(p: u64, a: u64, v: u64, c: u64)
    by (bit_vector)
    ensures
        (p | 0x80u64) | 0x40u64 == (p | 0x40u64) | 0x80u64,
        p & 0x80u64 != 0 ==> (p | 0x40u64) | 0x80u64 == p | 0x40u64,
        p & 0x40u64 != 0 ==> p | 0x40u64 == p,
        ((p | 0x40u64) | 0x80u64) & 0x40u64 != 0,
        ((p | 0x40u64) | 0x80u64) & 0x80u64 != 0,
        (p | 0x40u64) & 0x40u64 != 0,
        (p & 0xau64) & !0xeu64 == 0,
        (p & 0xeu64) & !0xeu64 == 0,
        (p & 0xau64) & !p == 0,
        (p & 0xeu64) & !p == 0,
        (p & 0xau64) & 0x4u64 == 0,
        ((a & !0x2u64) | (v & 0x2u64)) & 0x2u64 == v & 0x2u64,
        ((a & !0x2u64) | (v & 0x2u64)) & !0x2u64 == a & !0x2u64,
        (0x8000_0000_0000_0000u64 | c) >> 63u64 == 1,
        c < 16 ==> (0x8000_0000_0000_0000u64 | c) & 0xfu64 == c,
        0x2u64 | 0x8u64 == 0xau64,
        0x2u64 | 0x4u64 | 0x8u64 == 0xeu64,
{
}

pub const TVEC_MODE: u64 = 0x3;
pub const TVEC_BASE: u64 = 0xffff_ffff_ffff_fffc;

pub const STATUS_UIE: u64 = 0x1;
pub const STATUS_SIE: u64 = 0x2;
pub const STATUS_UPIE: u64 = 0x10;
pub const STATUS_SPIE: u64 = 0x20;
pub const STATUS_SPP: u64 = 0x100;
pub const STATUS_FS: u64 = 0x6000;
pub const STATUS_XS: u64 = 0x18000;
pub const STATUS_SUM: u64 = 0x40000;
pub const STATUS_MXR: u64 = 0x80000;
pub const STATUS_SD: u64 = 0x8000_0000_0000_0000;

pub const STATUS_MPP_M: u64 = 0x1800;
pub const STATUS_MPP_S: u64 = 0x800;
pub const STATUS_MPP_U: u64 = 0x0;

/// Mask of writable bits in sstatus: MXR | SUM | FS | SPP | SPIE | SIE.
pub const SSTATUS_WRITABLE_MASK: u64 = 0xc6122;
/// Bits of sstatus that the hardware itself maintains: SD | FS.
pub const SSTATUS_DYNAMIC_MASK: u64 = 0x8000_0000_0000_6000;

pub const IP_SSIP: u64 = 0x2;
pub const IP_STIP: u64 = 0x20;
pub const IP_SEIP: u64 = 0x200;

pub const IE_SSIE: u64 = 0x2;
pub const IE_STIE: u64 = 0x20;
pub const IE_SEIE: u64 = 0x200;

pub const SATP_MODE: u64 = 0xf000_0000_0000_0000;
pub const SATP_ASID: u64 = 0x0fff_f000_0000_0000;
pub const SATP_PPN: u64 = 0x0000_0fff_ffff_ffff;

pub const SSTACK_BASE: u64 = 0xffff_ffff_c09f_ff00;

pub const SCAUSE_INSN_MISALIGNED: u64 = 0;
pub const SCAUSE_INSN_ACCESS_FAULT: u64 = 1;
pub const SCAUSE_ILLEGAL_INSN: u64 = 2;
pub const SCAUSE_BREAKPOINT: u64 = 3;
pub const SCAUSE_LOAD_ACCESS_FAULT: u64 = 5;
pub const SCAUSE_ATOMIC_MISALIGNED: u64 = 6;
pub const SCAUSE_STORE_ACCESS_FAULT: u64 = 7;
pub const SCAUSE_ENV_CALL: u64 = 8;
pub const SCAUSE_INSN_PAGE_FAULT: u64 = 12;
pub const SCAUSE_LOAD_PAGE_FAULT: u64 = 13;
pub const SCAUSE_STORE_PAGE_FAULT: u64 = 15;

pub const CSR_SSTATUS: u32 = 0x100;
pub const CSR_SEDELEG: u32 = 0x102;
pub const CSR_SIDELEG: u32 = 0x103;
pub const CSR_SIE: u32 = 0x104;
pub const CSR_STVEC: u32 = 0x105;
pub const CSR_SCOUNTEREN: u32 = 0x106;
pub const CSR_SSCRATCH: u32 = 0x140;
pub const CSR_SEPC: u32 = 0x141;
pub const CSR_SCAUSE: u32 = 0x142;
pub const CSR_STVAL: u32 = 0x143;
pub const CSR_SIP: u32 = 0x144;
pub const CSR_SATP: u32 = 0x180;
pub const CSR_TIME: u32 = 0xc01;

/// Whether any of the bits of `mask` is set in `word`.
pub open spec fn bit_is_set(word: u64, mask: u64) -> bool {
    word & mask != 0
}

/// `word` with the bits of `mask` set (`value`) or cleared (`!value`).
pub open spec fn with_bit(word: u64, mask: u64, value: bool) -> u64 {
    if value { word | mask } else { word & !mask }
}

/// Reading and writing groups of bits of a register value.
pub trait U64Bits: Sized {
    spec fn spec_get(&self, mask: Self) -> bool;
    spec fn spec_with(&self, mask: Self, value: bool) -> Self;

    fn get(&self, mask: Self) -> (r: bool)
        ensures
            r == self.spec_get(mask),
    ;

    fn set(&mut self, mask: Self, value: bool)
        ensures
            *final(self) == old(self).spec_with(mask, value),
    ;
}

impl U64Bits for u64 {
    open spec fn spec_get(&self, mask: u64) -> bool {
        bit_is_set(*self, mask)
    }

    open spec fn spec_with(&self, mask: u64, value: bool) -> u64 {
        with_bit(*self, mask, value)
    }

    fn get(&self, mask: u64) -> (r: bool) {
        *self & mask != 0
    }

    fn set(&mut self, mask: u64, value: bool) {
        if value {
            *self = *self | mask;
        } else {
            *self = *self & !mask;
        }
    }
}

/// The writable-mask constants are the unions of the bits they name.
pub proof fn lemma_mask_constants()
    ensures
        SSTATUS_WRITABLE_MASK == STATUS_MXR | STATUS_SUM | STATUS_FS | STATUS_SPP | STATUS_SPIE
            | STATUS_SIE,
        SSTATUS_DYNAMIC_MASK == STATUS_SD | STATUS_FS,
        TVEC_BASE == !TVEC_MODE,
{
    assert(0xc6122u64 == 0x80000u64 | 0x40000u64 | 0x6000u64 | 0x100u64 | 0x20u64 | 0x2u64)
        by (bit_vector);
    assert(0x8000_0000_0000_6000u64 == 0x8000_0000_0000_0000u64 | 0x6000u64) by (bit_vector);
    assert(0xffff_ffff_ffff_fffcu64 == !0x3u64) by (bit_vector);
}

/// The number that the bytes `s` hold with the least significant byte first.
pub open spec fn le_value(s: Seq<u8>) -> nat
    decreases s.len(),
{
    if s.len() == 0 {
        0
    } else {
        s[0] as nat + 256 * le_value(s.drop_first())
    }
}

/// The number that the bytes `s` hold with the most significant byte first.
pub open spec fn be_value(s: Seq<u8>) -> nat
    decreases s.len(),
{
    if s.len() == 0 {
        0
    } else {
        be_value(s.drop_last()) * 256 + s.last() as nat
    }
}

/// The `n` low bytes of `v`, least significant first.
pub open spec fn le_bytes(v: nat, n: nat) -> Seq<u8>
    decreases n,
{
    if n == 0 {
        Seq::empty()
    } else {
        seq![(v % 256) as u8] + le_bytes(v / 256, (n - 1) as nat)
    }
}

/// The `n` low bytes of `v`, most significant first.
pub open spec fn be_bytes(v: nat, n: nat) -> Seq<u8>
    decreases n,
{
    if n == 0 {
        Seq::empty()
    } else {
        be_bytes(v / 256, (n - 1) as nat) + seq![(v % 256) as u8]
    }
}

/// `s` with the bytes from `offset` on replaced by `bytes`.
pub open spec fn overwritten(s: Seq<u8>, offset: int, bytes: Seq<u8>) -> Seq<u8> {
    s.subrange(0, offset) + bytes + s.subrange(offset + bytes.len(), s.len() as int)
}

} // verus!
