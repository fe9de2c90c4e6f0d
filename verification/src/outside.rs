//! Declarations of outside types and the trusted contracts of the outside calls.
use vstd::prelude::*;
use arrayvec::{ArrayString, ArrayVec};
use byteorder::{BigEndian, ByteOrder, LittleEndian};
use crate::pmap::Pte;
use crate::bits::{le_value, le_bytes, be_value, be_bytes, overwritten};
use crate::fdt::{Hart, Device};

verus! {

/// Up to 16 addresses, held in an `arrayvec::ArrayVec<[u64; 16]>`.
#[verifier::external_body]
pub struct AddressList {
    inner: ArrayVec<[u64; 16]>,
}

/// The addresses an `AddressList` holds, in order.
pub uninterp spec fn address_list_items(v: AddressList) -> Seq<u64>;

/// `ArrayVec::new`: an empty list.
#[verifier::external_body]
pub(crate) fn address_list_new() -> (r: AddressList)
    ensures
        address_list_items(r) == Seq::<u64>::empty(),
{
    AddressList { inner: ArrayVec::new() }
}

/// `ArrayVec::len`: the number of items.
#[verifier::external_body]
pub(crate) fn address_list_len(v: &AddressList) -> (r: usize)
    ensures
        r == address_list_items(*v).len(),
        r <= 16,
{
    v.inner.len()
}

/// Indexing through `ArrayVec`'s slice view: address `i`.
#[verifier::external_body]
pub(crate) fn address_list_get(v: &AddressList, i: usize) -> (r: u64)
    requires
        i < address_list_items(*v).len(),
    ensures
        r == address_list_items(*v)[i as int],
{
    v.inner[i]
}

/// `ArrayVec::try_push`: appended where fewer than 16 addresses are held.
#[verifier::external_body]
pub(crate) fn address_list_try_push(v: &mut AddressList, a: u64) -> (r: bool)
    ensures
        r == (address_list_items(*old(v)).len() < 16),
        r ==> address_list_items(*final(v)) == address_list_items(*old(v)).push(a),
        !r ==> address_list_items(*final(v)) == address_list_items(*old(v)),
{
    v.inner.try_push(a).is_ok()
}

/// The entries a page-table walk went through, held in an `arrayvec::ArrayVec<[Pte; 3]>`.
#[verifier::external_body]
pub struct PtePath {
    inner: ArrayVec<[Pte; 3]>,
}

/// The entries a `PtePath` holds, in order.
pub uninterp spec fn pte_path_items(v: PtePath) -> Seq<Pte>;

/// `ArrayVec::new`: an empty path.
#[verifier::external_body]
pub(crate) fn pte_path_new() -> (r: PtePath)
    ensures
        pte_path_items(r) == Seq::<Pte>::empty(),
{
    PtePath { inner: ArrayVec::new() }
}

/// `ArrayVec::push`, on a path with room: appends `p`.
#[verifier::external_body]
pub(crate) fn pte_path_push(v: &mut PtePath, p: Pte)
    requires
        pte_path_items(*old(v)).len() < 3,
    ensures
        pte_path_items(*final(v)) == pte_path_items(*old(v)).push(p),
{
    v.inner.push(p)
}

/// `ArrayVec::len`: the number of entries.
#[verifier::external_body]
pub(crate) fn pte_path_len(v: &PtePath) -> (r: usize)
    ensures
        r == pte_path_items(*v).len(),
        r <= 3,
{
    v.inner.len()
}

/// Indexing through `ArrayVec`'s slice view: entry `i`.
#[verifier::external_body]
pub(crate) fn pte_path_get(v: &PtePath, i: usize) -> (r: Pte)
    requires
        i < pte_path_items(*v).len(),
    ensures
        r == pte_path_items(*v)[i as int],
{
    v.inner[i]
}

/// The bytes of a console line being collected, held in an `arrayvec::ArrayVec<[u8; 256]>`.
#[verifier::external_body]
pub struct LineBuffer {
    inner: ArrayVec<[u8; 256]>,
}

/// The bytes a `LineBuffer` holds, in order.
pub uninterp spec fn line_buffer_items(v: LineBuffer) -> Seq<u8>;

/// `ArrayVec::new`: an empty buffer.
#[verifier::external_body]
pub(crate) fn line_buffer_new() -> (r: LineBuffer)
    ensures
        line_buffer_items(r) == Seq::<u8>::empty(),
{
    LineBuffer { inner: ArrayVec::new() }
}

/// `ArrayVec::len`: the number of bytes held.
#[verifier::external_body]
pub(crate) fn line_buffer_len(v: &LineBuffer) -> (r: usize)
    ensures
        r == line_buffer_items(*v).len(),
        r <= 256,
{
    v.inner.len()
}

/// `ArrayVec::is_full`: whether the buffer holds its capacity of 256 bytes.
#[verifier::external_body]
pub(crate) fn line_buffer_is_full(v: &LineBuffer) -> (r: bool)
    ensures
        r == (line_buffer_items(*v).len() == 256),
{
    v.inner.is_full()
}

/// Indexing through `ArrayVec`'s slice view: byte `i`.
#[verifier::external_body]
pub(crate) fn line_buffer_get(v: &LineBuffer, i: usize) -> (r: u8)
    requires
        i < line_buffer_items(*v).len(),
    ensures
        r == line_buffer_items(*v)[i as int],
{
    v.inner[i]
}

/// `ArrayVec::push`, on a buffer with room: appends `b`.
#[verifier::external_body]
pub(crate) fn line_buffer_push(v: &mut LineBuffer, b: u8)
    requires
        line_buffer_items(*old(v)).len() < 256,
    ensures
        line_buffer_items(*final(v)) == line_buffer_items(*old(v)).push(b),
{
    v.inner.push(b)
}

/// `ArrayVec::clear`: empties the buffer.
#[verifier::external_body]
pub(crate) fn line_buffer_clear(v: &mut LineBuffer)
    ensures
        line_buffer_items(*final(v)) == Seq::<u8>::empty(),
{
    v.inner.clear()
}

#[verifier::external_type_specification]
pub struct ExRType(riscv_decode::types::RType);

#[verifier::external_type_specification]
pub struct ExCsrType(riscv_decode::types::CsrType);

#[verifier::external_type_specification]
pub struct ExCsrIType(riscv_decode::types::CsrIType);

#[verifier::external_type_specification]
pub struct ExIType(riscv_decode::types::IType);

#[verifier::external_type_specification]
pub struct ExSType(riscv_decode::types::SType);

#[verifier::external_type_specification]
pub struct ExBType(riscv_decode::types::BType);

#[verifier::external_type_specification]
pub struct ExUType(riscv_decode::types::UType);

#[verifier::external_type_specification]
pub struct ExJType(riscv_decode::types::JType);

#[verifier::external_type_specification]
pub struct ExFenceType(riscv_decode::types::FenceType);

#[verifier::external_type_specification]
pub struct ExShiftType(riscv_decode::types::ShiftType);

#[verifier::external_type_specification]
pub struct ExR4Type(riscv_decode::types::R4Type);

#[verifier::external_type_specification]
pub struct ExInstruction(riscv_decode::Instruction);

#[verifier::external_type_specification]
pub struct ExDecodingError(riscv_decode::DecodingError);

/// What `riscv_decode::decode` makes of instruction bits `i`.
pub uninterp spec fn decoded(i: u32) -> Result<riscv_decode::Instruction, riscv_decode::DecodingError>;

/// `riscv_decode::decode`: the instruction that bits `i` encode, or why they encode none.
#[verifier::external_body]
pub(crate) fn decode(i: u32) -> (r: Result<riscv_decode::Instruction, riscv_decode::DecodingError>)
    ensures
        r == decoded(i),
{
    riscv_decode::decode(i)
}

/// The length in bytes of the instruction whose low 16 bits are `i`, as
/// `riscv_decode::instruction_length` computes it.
pub open spec fn spec_instruction_length(i: u16) -> usize {
    if i & 0x3 != 0x3 {
        2
    } else if i & 0x1c != 0x1c {
        4
    } else if i & 0x3f == 0x1f {
        6
    } else if i & 0x7f == 0x1f {
        8
    } else {
        (10 + 2 * ((i >> 12u16) & 0x7)) as usize
    }
}

/// `riscv_decode::instruction_length`: 2 for compressed instructions, 4 for standard ones, and
/// longer lengths for the reserved encodings.
#[verifier::external_body]
pub(crate) fn instruction_length(i: u16) -> (r: usize)
    ensures
        r == spec_instruction_length(i),
{
    riscv_decode::instruction_length(i)
}

/// The destination register field of instruction bits `bits` (bits 7..11).
pub open spec fn rd_of(bits: u32) -> u32 {
    (bits >> 7u32) & 0x1f
}

/// The first source register field of instruction bits `bits` (bits 15..19).
pub open spec fn rs1_of(bits: u32) -> u32 {
    (bits >> 15u32) & 0x1f
}

/// The second source register field of instruction bits `bits` (bits 20..24).
pub open spec fn rs2_of(bits: u32) -> u32 {
    (bits >> 20u32) & 0x1f
}

/// The CSR number field of instruction bits `bits` (bits 20..31).
pub open spec fn csr_of(bits: u32) -> u32 {
    bits >> 20u32
}

/// Register fields name one of the 32 registers.
pub proof fn lemma_register_fields(bits: u32)
    ensures
        rd_of(bits) < 32,
        rs1_of(bits) < 32,
        rs2_of(bits) < 32,
{
    assert(((bits >> 7u32) & 0x1f) < 32 && ((bits >> 15u32) & 0x1f) < 32 && ((bits >> 20u32) & 0x1f) < 32) by (bit_vector);
}

/// `IType::rd`: bits 7..11.
pub assume_specification[riscv_decode::types::IType::rd](t: &riscv_decode::types::IType) -> (r: u32)
    ensures
        r == rd_of(t.0),
;

/// `SType::rs2`: bits 20..24.
pub assume_specification[riscv_decode::types::SType::rs2](t: &riscv_decode::types::SType) -> (r: u32)
    ensures
        r == rs2_of(t.0),
;

/// `RType::rs1`: bits 15..19.
pub assume_specification[riscv_decode::types::RType::rs1](t: &riscv_decode::types::RType) -> (r: u32)
    ensures
        r == rs1_of(t.0),
;

/// `CsrType::csr`: bits 20..31.
pub assume_specification[riscv_decode::types::CsrType::csr](t: &riscv_decode::types::CsrType) -> (r: u32)
    ensures
        r == csr_of(t.0),
;

/// `CsrType::rs1`: bits 15..19.
pub assume_specification[riscv_decode::types::CsrType::rs1](t: &riscv_decode::types::CsrType) -> (r: u32)
    ensures
        r == rs1_of(t.0),
;

/// `CsrType::rd`: bits 7..11.
pub assume_specification[riscv_decode::types::CsrType::rd](t: &riscv_decode::types::CsrType) -> (r: u32)
    ensures
        r == rd_of(t.0),
;

/// `CsrIType::csr`: bits 20..31.
pub assume_specification[riscv_decode::types::CsrIType::csr](t: &riscv_decode::types::CsrIType) -> (r: u32)
    ensures
        r == csr_of(t.0),
;

/// `CsrIType::zimm`: bits 15..19.
pub assume_specification[riscv_decode::types::CsrIType::zimm](t: &riscv_decode::types::CsrIType) -> (r: u32)
    ensures
        r == rs1_of(t.0),
;

/// `CsrIType::rd`: bits 7..11.
pub assume_specification[riscv_decode::types::CsrIType::rd](t: &riscv_decode::types::CsrIType) -> (r: u32)
    ensures
        r == rd_of(t.0),
;

// The hypervisor runs on little-endian harts, where `byteorder::NativeEndian` is
// `byteorder::LittleEndian`; guest memory words are taken apart in that order.

/// `LittleEndian::write_u64` into a fresh 8-byte buffer: the bytes of `w`, least significant
/// first.
#[verifier::external_body]
pub(crate) fn word_bytes(w: u64) -> (r: [u8; 8])
    ensures
        r@ == le_bytes(w as nat, 8),
{
    let mut r = [0u8; 8];
    LittleEndian::write_u64(&mut r, w);
    r
}

/// `LittleEndian::read_u64`: the word whose bytes, least significant first, are `b`.
#[verifier::external_body]
pub(crate) fn word_from_bytes(b: &[u8; 8]) -> (r: u64)
    ensures
        r as nat == le_value(b@),
{
    LittleEndian::read_u64(b)
}

/// `LittleEndian::read_u32` at byte `offset` of `b`.
#[verifier::external_body]
pub(crate) fn le_read_u32(b: &[u8; 8], offset: usize) -> (r: u32)
    requires
        offset + 4 <= 8,
    ensures
        r as nat == le_value(b@.subrange(offset as int, offset + 4)),
{
    LittleEndian::read_u32(&b[offset..])
}

/// `LittleEndian::read_u16` at byte `offset` of `b`.
#[verifier::external_body]
pub(crate) fn le_read_u16(b: &[u8; 8], offset: usize) -> (r: u16)
    requires
        offset + 2 <= 8,
    ensures
        r as nat == le_value(b@.subrange(offset as int, offset + 2)),
{
    LittleEndian::read_u16(&b[offset..])
}

/// `LittleEndian::read_i32` at byte `offset` of `b`: the 32-bit value read as two's complement.
#[verifier::external_body]
pub(crate) fn le_read_i32(b: &[u8; 8], offset: usize) -> (r: i32)
    requires
        offset + 4 <= 8,
    ensures
        r == le_value(b@.subrange(offset as int, offset + 4)) as i32,
{
    LittleEndian::read_i32(&b[offset..])
}

/// `LittleEndian::read_i16` at byte `offset` of `b`: the 16-bit value read as two's complement.
#[verifier::external_body]
pub(crate) fn le_read_i16(b: &[u8; 8], offset: usize) -> (r: i16)
    requires
        offset + 2 <= 8,
    ensures
        r == le_value(b@.subrange(offset as int, offset + 2)) as i16,
{
    LittleEndian::read_i16(&b[offset..])
}

/// `LittleEndian::write_u32` at byte `offset` of `b`: the 4 bytes from there become those of
/// `v`, least significant first.
#[verifier::external_body]
pub(crate) fn le_write_u32(b: &mut [u8; 8], offset: usize, v: u32)
    requires
        offset + 4 <= 8,
    ensures
        final(b)@ == overwritten(old(b)@, offset as int, le_bytes(v as nat, 4)),
{
    LittleEndian::write_u32(&mut b[offset..], v)
}

/// `LittleEndian::write_u16` at byte `offset` of `b`: the 2 bytes from there become those of
/// `v`, least significant first.
#[verifier::external_body]
pub(crate) fn le_write_u16(b: &mut [u8; 8], offset: usize, v: u16)
    requires
        offset + 2 <= 8,
    ensures
        final(b)@ == overwritten(old(b)@, offset as int, le_bytes(v as nat, 2)),
{
    LittleEndian::write_u16(&mut b[offset..], v)
}

/// `BigEndian::read_u32` at byte `offset` of `b`.
#[verifier::external_body]
pub(crate) fn be_read_u32(b: &Vec<u8>, offset: usize) -> (r: u32)
    requires
        offset + 4 <= b@.len(),
    ensures
        r as nat == be_value(b@.subrange(offset as int, offset + 4)),
{
    BigEndian::read_u32(&b[offset..])
}

/// `BigEndian::read_u64` at byte `offset` of `b`.
#[verifier::external_body]
pub(crate) fn be_read_u64(b: &Vec<u8>, offset: usize) -> (r: u64)
    requires
        offset + 8 <= b@.len(),
    ensures
        r as nat == be_value(b@.subrange(offset as int, offset + 8)),
{
    BigEndian::read_u64(&b[offset..])
}

/// `BigEndian::write_u32` at byte `offset` of `b`: the 4 bytes from there become those of `v`,
/// most significant first.
#[verifier::external_body]
pub(crate) fn be_write_u32(b: &mut Vec<u8>, offset: usize, v: u32)
    requires
        offset + 4 <= old(b)@.len(),
    ensures
        final(b)@ == overwritten(old(b)@, offset as int, be_bytes(v as nat, 4)),
{
    BigEndian::write_u32(&mut b[offset..], v)
}

/// `BigEndian::read_u64` at byte `offset` of the 16-byte buffer `b`.
#[verifier::external_body]
pub(crate) fn be_read_u64_at(b: &[u8; 16], offset: usize) -> (r: u64)
    requires
        offset + 8 <= 16,
    ensures
        r as nat == be_value(b@.subrange(offset as int, offset + 8)),
{
    BigEndian::read_u64(&b[offset..])
}

/// `BigEndian::write_u64` at byte `offset` of `b`: the 8 bytes from there become those of `v`,
/// most significant first.
#[verifier::external_body]
pub(crate) fn be_write_u64(b: &mut [u8; 16], offset: usize, v: u64)
    requires
        offset + 8 <= 16,
    ensures
        final(b)@ == overwritten(old(b)@, offset as int, be_bytes(v as nat, 8)),
{
    BigEndian::write_u64(&mut b[offset..], v)
}

/// The UTF-8 encoding of the character whose code point is byte `c`.
pub open spec fn latin1_utf8(c: u8) -> Seq<u8> {
    if c < 0x80 {
        seq![c]
    } else {
        seq![(0xc0u8 | (c >> 6u8)), (0x80u8 | (c & 0x3f))]
    }
}

/// A device-tree path being built, held in an `arrayvec::ArrayString<[u8; 1024]>`.
#[verifier::external_body]
pub struct PathBuffer {
    inner: ArrayString<[u8; 1024]>,
}

/// The UTF-8 bytes a `PathBuffer` holds.
pub uninterp spec fn path_bytes(p: PathBuffer) -> Seq<u8>;

/// `ArrayString::new`: an empty path.
#[verifier::external_body]
pub(crate) fn path_new() -> (r: PathBuffer)
    ensures
        path_bytes(r) == Seq::<u8>::empty(),
{
    PathBuffer { inner: ArrayString::new() }
}

/// `ArrayString::len`: the path's length in bytes.
#[verifier::external_body]
pub(crate) fn path_len(p: &PathBuffer) -> (r: usize)
    ensures
        r == path_bytes(*p).len(),
        r <= 1024,
{
    p.inner.len()
}

/// Byte `i` of the path's UTF-8 bytes.
#[verifier::external_body]
pub(crate) fn path_byte(p: &PathBuffer, i: usize) -> (r: u8)
    requires
        i < path_bytes(*p).len(),
    ensures
        r == path_bytes(*p)[i as int],
{
    p.inner.as_bytes()[i]
}

/// `ArrayString::try_push` of the character with code point `c`: appended where it fits in
/// the 1024 bytes.
#[verifier::external_body]
pub(crate) fn path_try_push(p: &mut PathBuffer, c: u8) -> (r: bool)
    ensures
        r == (path_bytes(*old(p)).len() + latin1_utf8(c).len() <= 1024),
        r ==> path_bytes(*final(p)) == path_bytes(*old(p)) + latin1_utf8(c),
        !r ==> path_bytes(*final(p)) == path_bytes(*old(p)),
{
    p.inner.try_push(c as char).is_ok()
}

/// `ArrayString::truncate` to `n` bytes, where byte `n` starts a character: it is ASCII, or
/// follows one.
#[verifier::external_body]
pub(crate) fn path_truncate(p: &mut PathBuffer, n: usize)
    requires
        n <= path_bytes(*old(p)).len(),
        n == path_bytes(*old(p)).len() || path_bytes(*old(p))[n as int] < 0x80
            || (n > 0 && path_bytes(*old(p))[n - 1] < 0x80),
    ensures
        path_bytes(*final(p)) == path_bytes(*old(p)).subrange(0, n as int),
{
    p.inner.truncate(n)
}

/// A node name being read, held in an `arrayvec::ArrayString<[u8; 48]>`.
#[verifier::external_body]
pub struct NameBuffer {
    inner: ArrayString<[u8; 48]>,
}

/// The UTF-8 bytes a `NameBuffer` holds.
pub uninterp spec fn name_bytes(n: NameBuffer) -> Seq<u8>;

/// `ArrayString::new`: an empty name.
#[verifier::external_body]
pub(crate) fn name_new() -> (r: NameBuffer)
    ensures
        name_bytes(r) == Seq::<u8>::empty(),
{
    NameBuffer { inner: ArrayString::new() }
}

/// `ArrayString::try_push` of the character with code point `c`: appended where it fits in
/// the 48 bytes.
#[verifier::external_body]
pub(crate) fn name_try_push(n: &mut NameBuffer, c: u8) -> (r: bool)
    ensures
        r == (name_bytes(*old(n)).len() + latin1_utf8(c).len() <= 48),
        r ==> name_bytes(*final(n)) == name_bytes(*old(n)) + latin1_utf8(c),
        !r ==> name_bytes(*final(n)) == name_bytes(*old(n)),
{
    n.inner.try_push(c as char).is_ok()
}

/// The unit addresses of the nodes on a device-tree path, held in an
/// `arrayvec::ArrayVec<[Option<u64>; 32]>`.
#[verifier::external_body]
pub struct UnitList {
    inner: ArrayVec<[Option<u64>; 32]>,
}

/// The unit addresses a `UnitList` holds, outermost node first.
pub uninterp spec fn unit_items(u: UnitList) -> Seq<Option<u64>>;

/// `ArrayVec::new`: an empty list.
#[verifier::external_body]
pub(crate) fn units_new() -> (r: UnitList)
    ensures
        unit_items(r) == Seq::<Option<u64>>::empty(),
{
    UnitList { inner: ArrayVec::new() }
}

/// `ArrayVec::len`.
#[verifier::external_body]
pub(crate) fn units_len(u: &UnitList) -> (r: usize)
    ensures
        r == unit_items(*u).len(),
        r <= 32,
{
    u.inner.len()
}

/// Indexing through `ArrayVec`'s slice view: item `i`.
#[verifier::external_body]
pub(crate) fn units_get(u: &UnitList, i: usize) -> (r: Option<u64>)
    requires
        i < unit_items(*u).len(),
    ensures
        r == unit_items(*u)[i as int],
{
    u.inner[i]
}

/// `ArrayVec::try_push`: appended where fewer than 32 items are held.
#[verifier::external_body]
pub(crate) fn units_try_push(u: &mut UnitList, a: Option<u64>) -> (r: bool)
    ensures
        r == (unit_items(*old(u)).len() < 32),
        r ==> unit_items(*final(u)) == unit_items(*old(u)).push(a),
        !r ==> unit_items(*final(u)) == unit_items(*old(u)),
{
    u.inner.try_push(a).is_ok()
}

/// `ArrayVec::pop`: the last item is dropped, where there is one.
#[verifier::external_body]
pub(crate) fn units_pop(u: &mut UnitList)
    ensures
        unit_items(*final(u)) == (if unit_items(*old(u)).len() > 0 {
            unit_items(*old(u)).drop_last()
        } else {
            unit_items(*old(u))
        }),
{
    u.inner.pop();
}

/// The harts of a machine, held in an `arrayvec::ArrayVec<[Hart; 16]>`.
#[verifier::external_body]
pub struct HartList {
    inner: ArrayVec<[Hart; 16]>,
}

/// The harts a `HartList` holds, in order.
pub uninterp spec fn hart_items(h: HartList) -> Seq<Hart>;

/// `ArrayVec::new`: an empty list.
#[verifier::external_body]
pub(crate) fn harts_new() -> (r: HartList)
    ensures
        hart_items(r) == Seq::<Hart>::empty(),
{
    HartList { inner: ArrayVec::new() }
}

/// `ArrayVec::len`.
#[verifier::external_body]
pub(crate) fn harts_len(h: &HartList) -> (r: usize)
    ensures
        r == hart_items(*h).len(),
        r <= 16,
{
    h.inner.len()
}

/// Indexing through `ArrayVec`'s slice view: hart `i`.
#[verifier::external_body]
pub(crate) fn harts_get(h: &HartList, i: usize) -> (r: Hart)
    requires
        i < hart_items(*h).len(),
    ensures
        r == hart_items(*h)[i as int],
{
    h.inner[i]
}

/// `ArrayVec::try_push`: appended where fewer than 16 harts are held.
#[verifier::external_body]
pub(crate) fn harts_try_push(h: &mut HartList, x: Hart) -> (r: bool)
    ensures
        r == (hart_items(*old(h)).len() < 16),
        r ==> hart_items(*final(h)) == hart_items(*old(h)).push(x),
        !r ==> hart_items(*final(h)) == hart_items(*old(h)),
{
    h.inner.try_push(x).is_ok()
}

/// `sort_unstable_by_key` on the list's slice, keyed by hart id: the same harts, in
/// increasing hart id order (harts with equal ids in some order).
#[verifier::external_body]
pub(crate) fn harts_sort_by_id(h: &mut HartList)
    ensures
        hart_items(*final(h)).to_multiset() == hart_items(*old(h)).to_multiset(),
        forall|i: int, j: int| 0 <= i < j < hart_items(*final(h)).len() ==>
            #[trigger] hart_items(*final(h))[i].hartid <= #[trigger] hart_items(*final(h))[j].hartid,
{
    h.inner.sort_unstable_by_key(|x| x.hartid)
}

/// The virtio devices of a machine, held in an `arrayvec::ArrayVec<[Device; 16]>`.
#[verifier::external_body]
pub struct DeviceList {
    inner: ArrayVec<[Device; 16]>,
}

/// The devices a `DeviceList` holds, in order.
pub uninterp spec fn device_items(d: DeviceList) -> Seq<Device>;

/// `ArrayVec::new`: an empty list.
#[verifier::external_body]
pub(crate) fn devices_new() -> (r: DeviceList)
    ensures
        device_items(r) == Seq::<Device>::empty(),
{
    DeviceList { inner: ArrayVec::new() }
}

/// `ArrayVec::len`.
#[verifier::external_body]
pub(crate) fn devices_len(d: &DeviceList) -> (r: usize)
    ensures
        r == device_items(*d).len(),
        r <= 16,
{
    d.inner.len()
}

/// Indexing through `ArrayVec`'s slice view: device `i`.
#[verifier::external_body]
pub(crate) fn devices_get(d: &DeviceList, i: usize) -> (r: Device)
    requires
        i < device_items(*d).len(),
    ensures
        r == device_items(*d)[i as int],
{
    d.inner[i]
}

/// `ArrayVec::try_push`: appended where fewer than 16 devices are held.
#[verifier::external_body]
pub(crate) fn devices_try_push(d: &mut DeviceList, x: Device) -> (r: bool)
    ensures
        r == (device_items(*old(d)).len() < 16),
        r ==> device_items(*final(d)) == device_items(*old(d)).push(x),
        !r ==> device_items(*final(d)) == device_items(*old(d)),
{
    d.inner.try_push(x).is_ok()
}

/// `sort_unstable_by_key` on the list's slice, keyed by base address: the same devices, in
/// increasing base address order (devices with equal addresses in some order).
#[verifier::external_body]
pub(crate) fn devices_sort_by_base(d: &mut DeviceList)
    ensures
        device_items(*final(d)).to_multiset() == device_items(*old(d)).to_multiset(),
        forall|i: int, j: int| 0 <= i < j < device_items(*final(d)).len() ==>
            #[trigger] device_items(*final(d))[i].base_address <= #[trigger] device_items(*final(d))[j].base_address,
{
    d.inner.sort_unstable_by_key(|x| x.base_address)
}

/// The kernel command line, held in an `arrayvec::ArrayString<[u8; 256]>`.
#[verifier::external_body]
pub struct Bootargs {
    inner: ArrayString<[u8; 256]>,
}

/// The UTF-8 bytes a `Bootargs` holds.
pub uninterp spec fn bootargs_bytes(b: Bootargs) -> Seq<u8>;

/// `ArrayString::new`: an empty command line.
#[verifier::external_body]
pub(crate) fn bootargs_new() -> (r: Bootargs)
    ensures
        bootargs_bytes(r) == Seq::<u8>::empty(),
{
    Bootargs { inner: ArrayString::new() }
}

/// `ArrayString::len`.
#[verifier::external_body]
pub(crate) fn bootargs_len(b: &Bootargs) -> (r: usize)
    ensures
        r == bootargs_bytes(*b).len(),
        r <= 256,
{
    b.inner.len()
}

/// Byte `i` of the command line's UTF-8 bytes.
#[verifier::external_body]
pub(crate) fn bootargs_byte(b: &Bootargs, i: usize) -> (r: u8)
    requires
        i < bootargs_bytes(*b).len(),
    ensures
        r == bootargs_bytes(*b)[i as int],
{
    b.inner.as_bytes()[i]
}

/// `ArrayString::try_push` of the character with code point `c`: appended where it fits in
/// the 256 bytes.
#[verifier::external_body]
pub(crate) fn bootargs_try_push(b: &mut Bootargs, c: u8) -> (r: bool)
    ensures
        r == (bootargs_bytes(*old(b)).len() + latin1_utf8(c).len() <= 256),
        r ==> bootargs_bytes(*final(b)) == bootargs_bytes(*old(b)) + latin1_utf8(c),
        !r ==> bootargs_bytes(*final(b)) == bootargs_bytes(*old(b)),
{
    b.inner.try_push(c as char).is_ok()
}

/// `core::str::from_utf8` succeeds: whether `b` is valid UTF-8.
#[verifier::external_body]
pub(crate) fn is_utf8(b: &Vec<u8>) -> (r: bool)
    ensures
        r == vstd::utf8::valid_utf8(b@),
{
    core::str::from_utf8(b.as_slice()).is_ok()
}

} // verus!
