//! The flattened device tree that describes a machine: its header, its properties, a walk over
//! its nodes, and what the hypervisor reads from it.
use vstd::prelude::*;
use vstd::string::StringSliceAdditionalSpecFns;
use crate::bits::{be_value, be_bytes, overwritten};
use crate::outside::{be_read_u32, be_read_u64, be_read_u64_at, be_write_u32, be_write_u64, is_utf8, HartList, DeviceList, Bootargs,
    latin1_utf8, PathBuffer, path_bytes, path_new, path_len, path_byte, path_try_push, path_truncate,
    NameBuffer, name_bytes, name_new, name_try_push, UnitList, unit_items, units_new, units_len, units_get,
    units_try_push, units_pop, AddressList, address_list_items, address_list_new, address_list_len,
    address_list_get, address_list_try_push, hart_items, harts_new, harts_len, harts_get, harts_try_push,
    harts_sort_by_id, device_items, devices_new, devices_len, devices_get, devices_try_push,
    devices_sort_by_base, bootargs_bytes, bootargs_new, bootargs_len, bootargs_byte, bootargs_try_push};

verus! {

pub const FDT_BEGIN_NODE: u32 = 0x01;
pub const FDT_END_NODE: u32 = 0x02;
pub const FDT_PROP: u32 = 0x03;
pub const FDT_NOP: u32 = 0x04;
pub const FDT_END: u32 = 0x09;

/// The kind of serial port a machine has.
#[derive(Copy, Clone, Debug, PartialEq, Eq, Structural)]
pub enum UartType {
    Ns16550a,
    SiFive,
}

/// A memory-mapped device: where its registers are, and its interrupt.
#[derive(Copy, Clone, Debug, PartialEq, Eq, Structural)]
pub struct Device {
    pub base_address: u64,
    pub size: u64,
    pub irq: u64,
}

/// A hart, and the interrupt controller context of its S-mode.
#[derive(Copy, Clone, Debug, PartialEq, Eq, Structural)]
pub struct Hart {
    pub hartid: u64,
    pub plic_context: u64,
}

/// What the hypervisor learns about a machine from its device tree.
pub struct MachineMeta {
    pub physical_memory_offset: u64,
    pub physical_memory_size: u64,
    pub harts: HartList,
    pub uart_type: Option<UartType>,
    pub uart_address: u64,
    pub plic_address: u64,
    pub clint_address: u64,
    pub virtio: DeviceList,
    pub bootargs: Bootargs,
    pub initrd_start: u64,
    pub initrd_end: u64,
}

/// A memory range as a device tree's `reg` property holds it: a big-endian offset, then a
/// big-endian size.
pub struct MemoryRegion(pub [u8; 16]);

impl MemoryRegion {
    pub fn offset(&self) -> (r: u64)
        ensures
            r as nat == be_value(self.0@.subrange(0, 8)),
    {
        be_read_u64_at(&self.0, 0)
    }

    pub fn size(&self) -> (r: u64)
        ensures
            r as nat == be_value(self.0@.subrange(8, 16)),
    {
        be_read_u64_at(&self.0, 8)
    }

    /// Sets the size, keeping the offset.
    pub fn set_size(&mut self, size: u64)
        ensures
            final(self).0@ == old(self).0@.subrange(0, 8) + be_bytes(size as nat, 8),
    {
        be_write_u64(&mut self.0, 8, size);
        proof {
            lemma_be_bytes_len(size as nat, 8);
            assert(self.0@ =~= old(self).0@.subrange(0, 8) + be_bytes(size as nat, 8));
        }
    }
}

/// A size written into a memory range reads back, and the offset stays: after `set_size(size)`
/// on a range whose bytes were `old`, the bytes `new` give `size` as the size and the old offset.
pub proof fn lemma_set_size_read_back(old: Seq<u8>, new: Seq<u8>, size: u64)
    requires
        old.len() == 16,
        new == old.subrange(0, 8) + be_bytes(size as nat, 8),
    ensures
        be_value(new.subrange(8, 16)) == size,
        be_value(new.subrange(0, 8)) == be_value(old.subrange(0, 8)),
{
    lemma_be_bytes_len(size as nat, 8);
    assert(new.subrange(8, 16) =~= be_bytes(size as nat, 8));
    assert(new.subrange(0, 8) =~= old.subrange(0, 8));
    vstd::arithmetic::power2::lemma2_to64();
    lemma_be_bytes_value(size as nat, 8);
}

/// `i` rounded up to the next multiple of 4.
pub open spec fn spec_round4(i: int) -> int {
    4 * ((i + 3) / 4)
}

/// `i` rounded up to the next multiple of 4.
pub fn round4(i: usize) -> (r: usize)
    requires
        i + 3 <= usize::MAX,
    ensures
        r == spec_round4(i as int),
{
    4 * ((i + 3) / 4)
}

/// The big-endian 32-bit number at byte `i` of `s`.
pub open spec fn be32(s: Seq<u8>, i: int) -> u32 {
    be_value(s.subrange(i, i + 4)) as u32
}

/// The big-endian 64-bit number at byte `i` of `s`.
pub open spec fn be64(s: Seq<u8>, i: int) -> u64 {
    be_value(s.subrange(i, i + 8)) as u64
}

/// The first position at or after `from` where `s` holds `b`, or the length of `s`.
pub open spec fn find_byte(s: Seq<u8>, from: int, b: u8) -> int
    decreases s.len() - from,
{
    if from >= s.len() {
        s.len() as int
    } else if s[from] == b {
        from
    } else {
        find_byte(s, from + 1, b)
    }
}

/// The string that starts at byte `offset` of the strings block `strings`: its bytes up to the
/// first zero byte (or the end). `None` where `offset` lies past the end, or the bytes are not
/// UTF-8.
pub open spec fn spec_get_string(strings: Seq<u8>, offset: int) -> Option<Seq<u8>> {
    let end = find_byte(strings, offset, 0);
    if offset > strings.len() {
        None
    } else if !vstd::utf8::valid_utf8(strings.subrange(offset, end)) {
        None
    } else {
        Some(strings.subrange(offset, end))
    }
}

pub proof fn lemma_find_byte_bounds(s: Seq<u8>, from: int, b: u8)
    requires
        0 <= from,
    ensures
        from <= s.len() ==> from <= find_byte(s, from, b) <= s.len(),
        from > s.len() ==> find_byte(s, from, b) == s.len(),
        find_byte(s, from, b) < s.len() ==> s[find_byte(s, from, b)] == b,
    decreases s.len() - from,
{
    if from < s.len() && s[from] != b {
        lemma_find_byte_bounds(s, from + 1, b);
    }
}

/// The string that starts at byte `offset` of the strings block `strings`: its bytes up to the
/// first zero byte. `None` where `offset` lies past the end of the block or the string is not
/// UTF-8.
pub fn get_string(strings: &Vec<u8>, offset: usize) -> (r: Option<Vec<u8>>)
    ensures
        r matches Some(v) ==> spec_get_string(strings@, offset as int) == Some(v@),
        r is None ==> spec_get_string(strings@, offset as int) is None,
{
    let mut end = offset;
    while end < strings.len() && strings[end] != 0
        invariant
            offset <= end,
            offset <= strings@.len() ==> end <= strings@.len(),
            find_byte(strings@, offset as int, 0) == find_byte(strings@, end as int, 0),
        decreases strings@.len() - end,
    {
        end = end + 1;
    }
    proof {
        lemma_find_byte_bounds(strings@, end as int, 0);
    }
    if offset > strings.len() {
        return None;
    }
    let mut v: Vec<u8> = Vec::new();
    let mut k = offset;
    while k < end
        invariant
            offset <= k <= end <= strings@.len(),
            v@ == strings@.subrange(offset as int, k as int),
        decreases end - k,
    {
        v.push(strings[k]);
        k = k + 1;
        assert(v@ =~= strings@.subrange(offset as int, k as int));
    }
    if is_utf8(&v) {
        Some(v)
    } else {
        None
    }
}

/// Whether the bytes `a` are those of the string `b`.
pub fn bytes_equal(a: &Vec<u8>, b: &str) -> (r: bool)
    ensures
        r == (a@ == b.spec_bytes()),
{
    let bb = b.as_bytes();
    if a.len() != bb.len() {
        return false;
    }
    let mut i: usize = 0;
    while i < a.len()
        invariant
            a@.len() == bb@.len(),
            bb@ == b.spec_bytes(),
            i <= a@.len(),
            a@.subrange(0, i as int) == bb@.subrange(0, i as int),
        decreases a@.len() - i,
    {
        if a[i] != bb[i] {
            return false;
        }
        i = i + 1;
        assert(a@.subrange(0, i as int) =~= bb@.subrange(0, i as int));
    }
    assert(a@ =~= a@.subrange(0, i as int));
    assert(bb@ =~= bb@.subrange(0, i as int));
    true
}

/// A property of a device tree: its token, value length, name offset and value, padded to a
/// multiple of 4 bytes.
pub struct Property {
    bytes: Vec<u8>,
}

/// The length of the value of the property whose bytes are `p`.
pub open spec fn prop_len(p: Seq<u8>) -> int {
    be32(p, 4) as int
}

/// The integer value of the property whose bytes are `p`: a 32- or 64-bit big-endian number.
pub open spec fn spec_read_int(p: Seq<u8>) -> Option<u64> {
    if prop_len(p) == 4 {
        Some(be32(p, 12) as u64)
    } else if prop_len(p) == 8 {
        Some(be64(p, 12))
    } else {
        None
    }
}

/// The (address, size) value of the property whose bytes are `p`: two big-endian 64-bit
/// numbers.
pub open spec fn spec_read_range(p: Seq<u8>) -> Option<(u64, u64)> {
    if prop_len(p) == 16 {
        Some((be64(p, 12), be64(p, 20)))
    } else {
        None
    }
}

/// The string value of the property whose bytes are `p`, without its terminating byte, where
/// all its characters are printable ASCII.
pub open spec fn spec_value_str(p: Seq<u8>) -> Option<Seq<u8>> {
    let n = prop_len(p);
    if n == 0 {
        Some(Seq::empty())
    } else if forall|k: int| 12 <= k < 12 + n - 1 ==> 32 <= #[trigger] p[k] <= 126 {
        Some(p.subrange(12, 12 + n - 1))
    } else {
        None
    }
}

/// Setting a 16-byte property and then reading it as a range gives back the value's two
/// big-endian words; the property's length and name offset stay as they were.
pub proof fn lemma_set_then_read_range(old: Seq<u8>, value: Seq<u8>)
    requires
        old.len() >= 12,
        prop_len(old) == 16,
        value.len() == 16,
    ensures
        spec_read_range(old.subrange(0, 12) + value) == Some((be64(value, 0), be64(value, 8))),
        prop_len(old.subrange(0, 12) + value) == 16,
        be32(old.subrange(0, 12) + value, 8) == be32(old, 8),
{
    let new = old.subrange(0, 12) + value;
    assert(new.subrange(4, 8) =~= old.subrange(4, 8));
    assert(new.subrange(8, 12) =~= old.subrange(8, 12));
    assert(new.subrange(12, 20) =~= value.subrange(0, 8));
    assert(new.subrange(20, 28) =~= value.subrange(8, 16));
}

impl Property {
    /// The property's bytes.
    pub closed spec fn view(&self) -> Seq<u8> {
        self.bytes@
    }

    /// A property's bytes hold its header and its padded value.
    pub open spec fn wf(&self) -> bool {
        &&& self@.len() >= 12
        &&& self@.len() == 12 + spec_round4(prop_len(self@))
    }

    /// The property that starts at byte `start` of `s` and must end by byte `end`; `None` where
    /// no property token is there, or it does not fit.
    pub fn from_slice(s: &Vec<u8>, start: usize, end: usize) -> (r: Option<Property>)
        requires
            start <= end <= s@.len(),
        ensures
            ({
                let ok = start + 8 <= end && be32(s@, start as int) == FDT_PROP
                    && start + 12 + spec_round4(be32(s@, start + 4) as int) <= end;
                &&& ok == r is Some
                &&& r matches Some(p) ==> p.wf() && p@ == s@.subrange(start as int, start + 12 + spec_round4(be32(s@, start + 4) as int))
            }),
    {
        if end - start < 8 {
            return None;
        }
        if be_read_u32(s, start) != FDT_PROP {
            return None;
        }
        let len = be_read_u32(s, start + 4) as u64;
        let total64: u64 = 12 + 4 * ((len + 3) / 4);
        if total64 > (end - start) as u64 {
            return None;
        }
        let total = total64 as usize;
        let mut bytes: Vec<u8> = Vec::new();
        let mut k = start;
        while k < start + total
            invariant
                start <= k <= start + total <= end <= s@.len(),
                bytes@ == s@.subrange(start as int, k as int),
            decreases start + total - k,
        {
            bytes.push(s[k]);
            k = k + 1;
            assert(bytes@ =~= s@.subrange(start as int, k as int));
        }
        proof {
            assert(bytes@.subrange(4, 8) =~= s@.subrange(start + 4, start + 8));
        }
        Some(Property { bytes })
    }

    /// The length of the property's value.
    pub fn len(&self) -> (r: usize)
        requires
            self.wf(),
        ensures
            r == prop_len(self@),
    {
        be_read_u32(&self.bytes, 4) as usize
    }

    /// Where the property's name starts in the strings block.
    pub fn name_offset(&self) -> (r: usize)
        requires
            self.wf(),
        ensures
            r == be32(self@, 8),
    {
        be_read_u32(&self.bytes, 8) as usize
    }

    /// The property's value as a 32- or 64-bit number; `None` for other lengths.
    pub fn read_int(&self) -> (r: Option<u64>)
        requires
            self.wf(),
        ensures
            r == spec_read_int(self@),
    {
        let len = self.len();
        if len == 4 {
            Some(be_read_u32(&self.bytes, 12) as u64)
        } else if len == 8 {
            Some(be_read_u64(&self.bytes, 12))
        } else {
            None
        }
    }

    /// The property's value as an (address, size) pair; `None` unless it is 16 bytes long.
    pub fn read_range(&self) -> (r: Option<(u64, u64)>)
        requires
            self.wf(),
        ensures
            r == spec_read_range(self@),
    {
        if self.len() != 16 {
            return None;
        }
        Some((be_read_u64(&self.bytes, 12), be_read_u64(&self.bytes, 20)))
    }

    /// Writes the no-operation token over the whole property, which hides it.
    pub fn mask(&mut self)
        requires
            old(self).wf(),
        ensures
            final(self)@.len() == old(self)@.len(),
            forall|k: int| 0 <= k < old(self)@.len() / 4 ==> #[trigger] be32(final(self)@, 4 * k) == FDT_NOP,
    {
        let n = self.bytes.len();
        let ghost len0 = n;
        let mut i: usize = 0;
        while i < n
            invariant
                n == self.bytes@.len() == len0,
                n % 4 == 0,
                i % 4 == 0,
                i <= n,
                forall|k: int| 0 <= k < i / 4 ==> #[trigger] be32(self.bytes@, 4 * k) == FDT_NOP,
            decreases n - i,
        {
            let ghost before = self.bytes@;
            be_write_u32(&mut self.bytes, i, FDT_NOP);
            proof {
                lemma_be_bytes_len(FDT_NOP as nat, 4);
                vstd::arithmetic::power2::lemma2_to64();
            }
            proof {
                lemma_be_bytes_value(FDT_NOP as nat, 4);
                assert(self.bytes@.subrange(i as int, i + 4) =~= be_bytes(FDT_NOP as nat, 4));
                assert(be32(self.bytes@, i as int) == FDT_NOP);
                assert forall|k: int| 0 <= k < (i + 4) / 4 implies #[trigger] be32(self.bytes@, 4 * k) == FDT_NOP by {
                    if k < i / 4 {
                        assert(self.bytes@.subrange(4 * k, 4 * k + 4) =~= before.subrange(4 * k, 4 * k + 4));
                        assert(be32(before, 4 * k) == FDT_NOP);
                    } else {
                        assert(k == i / 4);
                        assert(4 * k == i);
                    }
                }
            }
            i = i + 4;
        }
    }

    /// The property's value as a string (without its terminating byte), where every character
    /// is printable ASCII.
    pub fn value_str(&self) -> (r: Option<Vec<u8>>)
        requires
            self.wf(),
        ensures
            r matches Some(v) ==> spec_value_str(self@) == Some(v@),
            r is None ==> spec_value_str(self@) is None,
    {
        let len = self.len();
        if len == 0 {
            return Some(Vec::new());
        }
        proof {
            lemma_round4_bounds(len as int);
        }
        let n = self.bytes.len();
        let mut v: Vec<u8> = Vec::new();
        let mut i: usize = 0;
        while i < len - 1
            invariant
                n == self@.len(),
                self.wf(),
                len == prop_len(self@),
                len <= spec_round4(len as int),
                0 < len,
                i <= len - 1,
                v@ == self@.subrange(12, 12 + i),
                forall|k: int| 12 <= k < 12 + i ==> 32 <= #[trigger] self@[k] <= 126,
            decreases len - 1 - i,
        {
            let c = self.bytes[12 + i];
            if c < 32 || c > 126 {
                return None;
            }
            v.push(c);
            i = i + 1;
            assert(v@ =~= self@.subrange(12, 12 + i));
        }
        Some(v)
    }

    /// The property's value, with its padding.
    pub fn value_slice(&self) -> (r: Vec<u8>)
        requires
            self.wf(),
        ensures
            r@ == self@.subrange(12, self@.len() as int),
    {
        let mut v: Vec<u8> = Vec::new();
        let mut k: usize = 12;
        while k < self.bytes.len()
            invariant
                12 <= k <= self@.len(),
                v@ == self@.subrange(12, k as int),
            decreases self@.len() - k,
        {
            v.push(self.bytes[k]);
            k = k + 1;
            assert(v@ =~= self@.subrange(12, k as int));
        }
        v
    }

    /// The number of 32-bit cells in the property's value.
    pub fn cells(&self) -> (r: usize)
        requires
            self.wf(),
        ensures
            r == prop_len(self@) / 4,
    {
        self.len() / 4
    }

    /// Cell `i` of the property's value; `None` where it does not lie in the property.
    pub fn read_cell(&self, i: usize) -> (r: Option<u32>)
        requires
            self.wf(),
        ensures
            r == (if 12 + 4 * i + 4 <= self@.len() { Some(be32(self@, 12 + 4 * i)) } else { None }),
    {
        let room = (self.bytes.len() - 12) / 4;
        proof {
            let d = self@.len() - 12;
            assert((i < room) == (12 + 4 * i + 4 <= self@.len())) by (nonlinear_arith)
                requires
                    room == d / 4,
                    d >= 0,
                    d == self@.len() - 12,
            ;
        }
        if i >= room {
            return None;
        }
        Some(be_read_u32(&self.bytes, 12 + 4 * i))
    }

    /// Replaces the property's value by `value`, which has its length.
    pub fn set(&mut self, value: &Vec<u8>)
        requires
            old(self).wf(),
            value@.len() == prop_len(old(self)@),
            prop_len(old(self)@) % 4 == 0,
        ensures
            final(self).wf(),
            final(self)@ == old(self)@.subrange(0, 12) + value@,
    {
        let mut k: usize = 0;
        proof {
            lemma_round4_bounds(prop_len(self@));
        }
        let n = self.bytes.len();
        while k < value.len()
            invariant
                n == self@.len(),
                self.wf(),
                prop_len(self@) == prop_len(old(self)@),
                prop_len(self@) <= spec_round4(prop_len(self@)),
                self@.len() == old(self)@.len(),
                self@.len() == 12 + value@.len(),
                k <= value@.len(),
                self@ == old(self)@.subrange(0, 12) + value@.subrange(0, k as int) + old(self)@.subrange(12 + k, self@.len() as int),
            decreases value@.len() - k,
        {
            let ghost before = self@;
            self.bytes.set(12 + k, value[k]);
            k = k + 1;
            assert(self@.subrange(4, 8) =~= before.subrange(4, 8));
            assert(self@ =~= old(self)@.subrange(0, 12) + value@.subrange(0, k as int) + old(self)@.subrange(12 + k, self@.len() as int));
        }
        assert(self@ =~= old(self)@.subrange(0, 12) + value@);
    }
}

pub proof fn lemma_round4_bounds(i: int)
    requires
        i >= 0,
    ensures
        i <= spec_round4(i) <= i + 3,
        spec_round4(i) % 4 == 0,
{
    assert(i <= 4 * ((i + 3) / 4) <= i + 3) by (nonlinear_arith)
        requires i >= 0;
    assert((4 * ((i + 3) / 4)) % 4 == 0) by (nonlinear_arith);
}

/// `n` big-endian bytes.
pub proof fn lemma_be_bytes_len(v: nat, n: nat)
    ensures
        be_bytes(v, n).len() == n,
    decreases n,
{
    if n > 0 {
        lemma_be_bytes_len(v / 256, (n - 1) as nat);
    }
}

/// The big-endian bytes of `v` read back give `v`, where it fits.
pub proof fn lemma_be_bytes_value(v: nat, n: nat)
    requires
        v < vstd::arithmetic::power2::pow2(8 * n),
    ensures
        be_value(be_bytes(v, n)) == v,
    decreases n,
{
    if n > 0 {
        let p = vstd::arithmetic::power2::pow2(8 * (n - 1) as nat);
        assert(vstd::arithmetic::power2::pow2(8 * n) == 256 * p) by {
            vstd::arithmetic::power2::lemma_pow2_adds(8, 8 * (n - 1) as nat);
            vstd::arithmetic::power2::lemma2_to64();
            assert(8 + 8 * (n - 1) == 8 * n);
        }
        assert(v / 256 < p) by (nonlinear_arith)
            requires
                v < 256 * p,
        ;
        let rest = be_bytes(v / 256, (n - 1) as nat);
        assert(be_bytes(v, n).drop_last() =~= rest);
        lemma_be_bytes_value(v / 256, (n - 1) as nat);
    } else {
        assert(v == 0) by {
            vstd::arithmetic::power2::lemma2_to64();
        }
    }
}

/// The UTF-8 encoding of the characters whose code points are the bytes `s`.
pub open spec fn latin1_encode(s: Seq<u8>) -> Seq<u8>
    decreases s.len(),
{
    if s.len() == 0 {
        Seq::empty()
    } else {
        latin1_encode(s.drop_last()) + latin1_utf8(s.last())
    }
}

/// The value of hexadecimal digit `b`, if it is one.
pub open spec fn hex_digit(b: u8) -> Option<nat> {
    if 0x30 <= b <= 0x39 {
        Some((b - 0x30) as nat)
    } else if 0x61 <= b <= 0x66 {
        Some((b - 0x61 + 10) as nat)
    } else if 0x41 <= b <= 0x46 {
        Some((b - 0x41 + 10) as nat)
    } else {
        None
    }
}

/// The number the hexadecimal digits `s` spell, if they are all digits.
pub open spec fn hex_digits(s: Seq<u8>) -> Option<nat>
    decreases s.len(),
{
    if s.len() == 0 {
        Some(0)
    } else {
        match (hex_digits(s.drop_last()), hex_digit(s.last())) {
            (Some(v), Some(d)) => Some(v * 16 + d),
            _ => None,
        }
    }
}

/// The 64-bit number that `s` spells in hexadecimal, with an optional leading `+`, as
/// `u64::from_str_radix(s, 16)` reads it: `None` for no digits, a non-digit, or a number too
/// large.
pub open spec fn spec_parse_hex(s: Seq<u8>) -> Option<u64> {
    let d = if s.len() > 0 && s[0] == 0x2b { s.drop_first() } else { s };
    if d.len() == 0 {
        None
    } else {
        match hex_digits(d) {
            Some(v) => if v <= u64::MAX { Some(v as u64) } else { None },
            None => None,
        }
    }
}

/// The last position of byte `b` in `s`, or -1.
pub open spec fn rfind_byte(s: Seq<u8>, b: u8) -> int
    decreases s.len(),
{
    if s.len() == 0 {
        -1
    } else if s.last() == b {
        s.len() - 1
    } else {
        rfind_byte(s.drop_last(), b)
    }
}

/// A step of a walk over a device tree.
pub enum FdtEvent {
    /// Entering the node at `path`, whose nodes have unit addresses `units`.
    Node { path: Seq<u8>, units: Seq<Option<u64>> },
    /// The property named `name` at byte `offset` of the structure block, in the node at `path`.
    Prop { path: Seq<u8>, units: Seq<Option<u64>>, name: Seq<u8>, offset: int },
}

/// Entering a node at byte `i` of the structure block `nodes`, below `path` and `units`: where
/// the walk goes on, and the node's path and unit addresses. `None` where the name has no end,
/// is longer than 48 bytes, or the path or the unit addresses outgrow their room (1024 bytes,
/// 32 nodes).
pub open spec fn begin_node(nodes: Seq<u8>, i: int, path: Seq<u8>, units: Seq<Option<u64>>) -> Option<(int, Seq<u8>, Seq<Option<u64>>)> {
    let start = i + 4;
    let nul = find_byte(nodes, start, 0);
    let name = nodes.subrange(start, nul);
    let at = find_byte(name, 0, 0x40);
    let base = name.subrange(0, at);
    let unit = if at < name.len() {
        spec_parse_hex(name.subrange(at + 1, find_byte(name, at + 1, 0x40)))
    } else {
        None
    };
    let p1 = if path.len() != 1 { path.push(0x2f) } else { path };
    if nul >= nodes.len() || latin1_encode(name).len() > 48 {
        None
    } else if p1.len() > 1024 || p1.len() + latin1_encode(base).len() > 1024 || units.len() >= 32 {
        None
    } else {
        Some((spec_round4(nul), p1 + latin1_encode(base), units.push(unit)))
    }
}

/// The path after leaving the node at `path`: up to its last `/` (the root's `/` stays).
/// `None` where there is no `/`.
pub open spec fn end_node(path: Seq<u8>) -> Option<Seq<u8>> {
    let last = rfind_byte(path, 0x2f);
    if last < 0 {
        None
    } else if last == 0 && path.len() > 1 {
        Some(path.subrange(0, 1))
    } else {
        Some(path.subrange(0, last))
    }
}

/// A property at byte `i` of `nodes`: where the walk goes on, and the property's name from
/// `strings`. `None` where the property does not fit or its name is not a string.
pub open spec fn prop_step(nodes: Seq<u8>, strings: Seq<u8>, i: int) -> Option<(int, Seq<u8>)> {
    let total = 12 + spec_round4(be32(nodes, i + 4) as int);
    if i + 8 > nodes.len() || i + total > nodes.len() {
        None
    } else {
        match spec_get_string(strings, be32(nodes, i + 8) as int) {
            Some(name) => Some((i + total, name)),
            None => None,
        }
    }
}

pub proof fn lemma_begin_node_advances(nodes: Seq<u8>, i: int, path: Seq<u8>, units: Seq<Option<u64>>)
    requires
        0 <= i,
    ensures
        begin_node(nodes, i, path, units) matches Some((j, _, _)) ==> i < j <= nodes.len() + 2,
{
    lemma_find_byte_bounds(nodes, i + 4, 0);
    let nul = find_byte(nodes, i + 4, 0);
    if nul < nodes.len() {
        lemma_round4_bounds(nul);
    }
}

pub proof fn lemma_prop_step_advances(nodes: Seq<u8>, strings: Seq<u8>, i: int)
    ensures
        prop_step(nodes, strings, i) matches Some((j, _)) ==> i < j <= nodes.len(),
{
    lemma_round4_bounds(be32(nodes, i + 4) as int);
}

/// The walk over the structure block `nodes` from byte `i`, in the node at `path` with unit
/// addresses `units`, with property names from `strings`: the nodes entered and the properties
/// met, in order, up to the end token or the end of the block. `None` where the block is
/// malformed or the walk outgrows its room.
#[verifier::opaque]
pub open spec fn walk_from(nodes: Seq<u8>, strings: Seq<u8>, i: int, path: Seq<u8>, units: Seq<Option<u64>>) -> Option<Seq<FdtEvent>>
    decreases nodes.len() + 3 - i,
{
    if i < 0 || i >= nodes.len() {
        Some(Seq::empty())
    } else if i % 4 != 0 || i + 4 > nodes.len() {
        None
    } else {
        let token = be32(nodes, i);
        if token == FDT_END {
            Some(Seq::empty())
        } else if token == FDT_BEGIN_NODE {
            match begin_node(nodes, i, path, units) {
                None => None,
                Some((j, p2, u2)) => {
                    proof {
                        lemma_begin_node_advances(nodes, i, path, units);
                        assert(j > i);
                    }
                    match walk_from(nodes, strings, j, p2, u2) {
                        Some(rest) => Some(seq![FdtEvent::Node { path: p2, units: u2 }] + rest),
                        None => None,
                    }
                },
            }
        } else if token == FDT_END_NODE {
            match end_node(path) {
                None => None,
                Some(p2) => walk_from(nodes, strings, i + 4, p2, if units.len() > 0 { units.drop_last() } else { units }),
            }
        } else if token == FDT_PROP {
            match prop_step(nodes, strings, i) {
                None => None,
                Some((j, name)) => {
                    proof {
                        lemma_prop_step_advances(nodes, strings, i);
                        assert(j > i);
                    }
                    match walk_from(nodes, strings, j, path, units) {
                        Some(rest) => Some(seq![FdtEvent::Prop { path, units, name, offset: i }] + rest),
                        None => None,
                    }
                },
            }
        } else {
            walk_from(nodes, strings, i + 4, path, units)
        }
    }
}

/// Whether the header at the start of blob `b` is consistent: the strings and structure blocks
/// lie within the blob's total size, which the bytes cover.
pub open spec fn spec_header_consistent(b: Seq<u8>) -> bool {
    &&& b.len() >= 40
    &&& be32(b, 12) + be32(b, 32) <= be32(b, 4)
    &&& be32(b, 8) + be32(b, 36) <= be32(b, 4)
    &&& be32(b, 4) <= b.len()
}

/// A flattened device tree, held as the bytes of its blob.
pub struct Fdt {
    blob: Vec<u8>,
}

/// What a walk met, as it describes it.
pub enum FdtVisit {
    /// Entering the node at `path`, whose begin-node token is at byte `offset` of the structure
    /// block.
    Node { path: Vec<u8>, unit_addresses: Vec<Option<u64>>, offset: usize },
    /// The property `prop`, named `name`, at byte `offset` of the structure block, in the node
    /// at `path`.
    Property { path: Vec<u8>, unit_addresses: Vec<Option<u64>>, name: Vec<u8>, prop: Property, offset: usize },
}

impl FdtVisit {
    pub open spec fn event(&self) -> FdtEvent {
        match self {
            FdtVisit::Node { path, unit_addresses, .. } => FdtEvent::Node { path: path@, units: unit_addresses@ },
            FdtVisit::Property { path, unit_addresses, name, offset, .. } => FdtEvent::Prop {
                path: path@,
                units: unit_addresses@,
                name: name@,
                offset: *offset as int,
            },
        }
    }
}

/// The events of the visits `v`, in order.
pub open spec fn events_of(v: Seq<FdtVisit>) -> Seq<FdtEvent> {
    v.map_values(|x: FdtVisit| x.event())
}

/// `rest`, once the events `done` are put before it.
pub open spec fn after(done: Seq<FdtEvent>, rest: Option<Seq<FdtEvent>>) -> Option<Seq<FdtEvent>> {
    match rest {
        Some(r) => Some(done + r),
        None => None,
    }
}

/// The bytes of the property at byte `offset` of the structure block `nodes`.
pub open spec fn prop_bytes(nodes: Seq<u8>, offset: int) -> Seq<u8> {
    nodes.subrange(offset, offset + 12 + spec_round4(be32(nodes, offset + 4) as int))
}

impl Fdt {
    /// The blob's bytes.
    pub closed spec fn view(&self) -> Seq<u8> {
        self.blob@
    }

    pub open spec fn wf(&self) -> bool {
        spec_header_consistent(self@)
    }

    /// The structure block.
    pub open spec fn nodes(&self) -> Seq<u8> {
        self@.subrange(be32(self@, 8) as int, be32(self@, 8) + be32(self@, 36))
    }

    /// The strings block.
    pub open spec fn strings(&self) -> Seq<u8> {
        self@.subrange(be32(self@, 12) as int, be32(self@, 12) + be32(self@, 32))
    }

    /// Whether `blob` starts with a consistent header.
    pub fn header_consistent(blob: &Vec<u8>) -> (r: bool)
        ensures
            r == spec_header_consistent(blob@),
    {
        if blob.len() < 40 {
            return false;
        }
        let total = be_read_u32(blob, 4) as u64;
        let off_struct = be_read_u32(blob, 8) as u64;
        let off_strings = be_read_u32(blob, 12) as u64;
        let size_strings = be_read_u32(blob, 32) as u64;
        let size_struct = be_read_u32(blob, 36) as u64;
        off_strings + size_strings <= total && off_struct + size_struct <= total && total <= blob.len() as u64
    }

    /// The device tree whose blob is `blob`, which starts with a consistent header.
    pub fn new(blob: Vec<u8>) -> (r: Self)
        requires
            spec_header_consistent(blob@),
        ensures
            r@ == blob@,
            r.wf(),
    {
        Fdt { blob }
    }

    /// The blob's bytes, as any change left them.
    pub fn into_bytes(self) -> (r: Vec<u8>)
        ensures
            r@ == self@,
    {
        self.blob
    }

    /// Whether the header starts with the device-tree magic number.
    pub fn magic_valid(&self) -> (r: bool)
        requires
            self.wf(),
        ensures
            r == (be32(self@, 0) == 0xd00d_feed),
    {
        be_read_u32(&self.blob, 0) == 0xd00d_feed
    }

    pub fn total_size(&self) -> (r: u32)
        requires
            self.wf(),
        ensures
            r == be32(self@, 4),
    {
        be_read_u32(&self.blob, 4)
    }

    pub fn off_dt_struct(&self) -> (r: u32)
        requires
            self.wf(),
        ensures
            r == be32(self@, 8),
    {
        be_read_u32(&self.blob, 8)
    }

    pub fn off_dt_strings(&self) -> (r: u32)
        requires
            self.wf(),
        ensures
            r == be32(self@, 12),
    {
        be_read_u32(&self.blob, 12)
    }

    pub fn off_mem_rsvmap(&self) -> (r: u32)
        requires
            self.wf(),
        ensures
            r == be32(self@, 16),
    {
        be_read_u32(&self.blob, 16)
    }

    pub fn version(&self) -> (r: u32)
        requires
            self.wf(),
        ensures
            r == be32(self@, 20),
    {
        be_read_u32(&self.blob, 20)
    }

    pub fn last_comp_version(&self) -> (r: u32)
        requires
            self.wf(),
        ensures
            r == be32(self@, 24),
    {
        be_read_u32(&self.blob, 24)
    }

    pub fn boot_cpuid_phys(&self) -> (r: u32)
        requires
            self.wf(),
        ensures
            r == be32(self@, 28),
    {
        be_read_u32(&self.blob, 28)
    }

    pub fn size_dt_strings(&self) -> (r: u32)
        requires
            self.wf(),
        ensures
            r == be32(self@, 32),
    {
        be_read_u32(&self.blob, 32)
    }

    pub fn size_dt_struct(&self) -> (r: u32)
        requires
            self.wf(),
        ensures
            r == be32(self@, 36),
    {
        be_read_u32(&self.blob, 36)
    }
}


proof fn lemma_latin1_push(s: Seq<u8>, c: u8)
    ensures
        latin1_encode(s.push(c)) == latin1_encode(s) + latin1_utf8(c),
{
    assert(s.push(c).drop_last() =~= s);
}

proof fn lemma_latin1_prefix(s: Seq<u8>, m: int)
    requires
        0 <= m <= s.len(),
    ensures
        latin1_encode(s.subrange(0, m)).len() <= latin1_encode(s).len(),
    decreases s.len(),
{
    if m < s.len() {
        lemma_latin1_prefix(s.drop_last(), m);
        assert(s.drop_last().subrange(0, m) =~= s.subrange(0, m));
    } else {
        assert(s.subrange(0, m) =~= s);
    }
}

proof fn lemma_hex_prefix(s: Seq<u8>, m: int)
    requires
        0 <= m <= s.len(),
        hex_digits(s) is Some,
    ensures
        hex_digits(s.subrange(0, m)) is Some,
        hex_digits(s.subrange(0, m))->0 <= hex_digits(s)->0,
    decreases s.len(),
{
    if m < s.len() {
        lemma_hex_prefix(s.drop_last(), m);
        assert(s.drop_last().subrange(0, m) =~= s.subrange(0, m));
    } else {
        assert(s.subrange(0, m) =~= s);
    }
}

proof fn lemma_find_step(s: Seq<u8>, k: int, b: u8)
    requires
        0 <= k < s.len(),
        s[k] != b,
    ensures
        find_byte(s, k, b) == find_byte(s, k + 1, b),
        find_byte(s, k, b) > k,
{
    lemma_find_byte_bounds(s, k + 1, b);
}

/// The first position at or after `from` where `s` holds `b`, or the length of `s`.
fn find_from(s: &Vec<u8>, from: usize, b: u8) -> (r: usize)
    requires
        from <= s@.len(),
    ensures
        r == find_byte(s@, from as int, b),
        from <= r <= s@.len(),
{
    let mut k = from;
    while k < s.len() && s[k] != b
        invariant
            from <= k <= s@.len(),
            find_byte(s@, from as int, b) == find_byte(s@, k as int, b),
        decreases s@.len() - k,
    {
        k = k + 1;
    }
    k
}

/// The value of the hexadecimal digit `b`, if it is one.
fn hex_digit_of(b: u8) -> (r: Option<u8>)
    ensures
        r matches Some(d) ==> hex_digit(b) == Some(d as nat) && d < 16,
        r is None ==> hex_digit(b) is None,
{
    if 0x30 <= b && b <= 0x39 {
        Some(b - 0x30)
    } else if 0x61 <= b && b <= 0x66 {
        Some(b - 0x61 + 10)
    } else if 0x41 <= b && b <= 0x46 {
        Some(b - 0x41 + 10)
    } else {
        None
    }
}

/// The 64-bit number that bytes `from` to `to` of `s` spell in hexadecimal, with an optional
/// leading `+`; `None` for no digits, a non-digit, or a number too large.
pub fn parse_hex(s: &Vec<u8>, from: usize, to: usize) -> (r: Option<u64>)
    requires
        from <= to <= s@.len(),
    ensures
        r == spec_parse_hex(s@.subrange(from as int, to as int)),
{
    let ghost t = s@.subrange(from as int, to as int);
    let mut k = from;
    if k < to && s[k] == 0x2b {
        k = k + 1;
    }
    let ghost d = if t.len() > 0 && t[0] == 0x2b { t.drop_first() } else { t };
    assert(d =~= s@.subrange(k as int, to as int));
    if k == to {
        assert(d.len() == 0);
        return None;
    }
    assert(d.len() > 0);
    let start = k;
    let mut v: u64 = 0;
    while k < to
        invariant
            from <= start <= k <= to <= s@.len(),
            start < to,
            t == s@.subrange(from as int, to as int),
            d == (if t.len() > 0 && t[0] == 0x2b { t.drop_first() } else { t }),
            d == s@.subrange(start as int, to as int),
            hex_digits(s@.subrange(start as int, k as int)) == Some(v as nat),
        decreases to - k,
    {
        let ghost pre = s@.subrange(start as int, k as int);
        let ghost next = s@.subrange(start as int, k + 1);
        assert(next.drop_last() =~= pre);
        assert(next.last() == s@[k as int]);
        match hex_digit_of(s[k]) {
            None => {
                proof {
                    assert(hex_digits(next) is None);
                    if hex_digits(d) is Some {
                        lemma_hex_prefix(d, k + 1 - start);
                        assert(d.subrange(0, k + 1 - start) =~= next);
                    }
                }
                return None;
            },
            Some(dig) => {
                let m = v.checked_mul(16);
                match m {
                    None => {
                        proof {
                            assert(hex_digits(next) == Some((v * 16 + dig) as nat));
                            if hex_digits(d) is Some {
                                lemma_hex_prefix(d, k + 1 - start);
                                assert(d.subrange(0, k + 1 - start) =~= next);
                            }
                        }
                        return None;
                    },
                    Some(m16) => {
                        match m16.checked_add(dig as u64) {
                            None => {
                                proof {
                                    assert(hex_digits(next) == Some((v * 16 + dig) as nat));
                                    if hex_digits(d) is Some {
                                        lemma_hex_prefix(d, k + 1 - start);
                                        assert(d.subrange(0, k + 1 - start) =~= next);
                                    }
                                }
                                return None;
                            },
                            Some(nv) => {
                                v = nv;
                                k = k + 1;
                            },
                        }
                    },
                }
            },
        }
    }
    assert(s@.subrange(start as int, k as int) =~= d);
    Some(v)
}

/// Appends the characters whose code points are the first `n` bytes of `chars` to `path`;
/// `false`, with only some appended, where they do not all fit.
fn push_chars(path: &mut PathBuffer, chars: &Vec<u8>, n: usize) -> (r: bool)
    requires
        n <= chars@.len(),
        path_bytes(*old(path)).len() <= 1024,
    ensures
        r == (path_bytes(*old(path)).len() + latin1_encode(chars@.subrange(0, n as int)).len() <= 1024),
        r ==> path_bytes(*final(path)) == path_bytes(*old(path)) + latin1_encode(chars@.subrange(0, n as int)),
{
    let ghost p1 = path_bytes(*path);
    let mut m: usize = 0;
    assert(p1 + latin1_encode(chars@.subrange(0, 0)) =~= p1);
    while m < n
        invariant
            m <= n <= chars@.len(),
            p1 == path_bytes(*old(path)),
            path_bytes(*path) == p1 + latin1_encode(chars@.subrange(0, m as int)),
            path_bytes(*path).len() <= 1024,
        decreases n - m,
    {
        proof {
            lemma_latin1_push(chars@.subrange(0, m as int), chars@[m as int]);
            assert(chars@.subrange(0, m + 1) =~= chars@.subrange(0, m as int).push(chars@[m as int]));
        }
        if !path_try_push(path, chars[m]) {
            proof {
                lemma_latin1_prefix(chars@.subrange(0, n as int), m + 1);
                assert(chars@.subrange(0, n as int).subrange(0, m + 1) =~= chars@.subrange(0, m + 1));
            }
            return false;
        }
        m = m + 1;
    }
    true
}

/// Enters the node whose begin token is at byte `i` of `nodes`: reads its name, appends its
/// base name to `path` and its unit address to `units`, and gives where the walk goes on;
/// `None` as `begin_node` says.
fn enter_node(nodes: &Vec<u8>, i: usize, path: &mut PathBuffer, units: &mut UnitList) -> (r: Option<usize>)
    requires
        i + 4 <= nodes@.len(),
        nodes@.len() + 8 <= usize::MAX,
    ensures
        match begin_node(nodes@, i as int, path_bytes(*old(path)), unit_items(*old(units))) {
            None => r is None,
            Some((j, p2, u2)) => r == Some(j as usize) && path_bytes(*final(path)) == p2
                && unit_items(*final(units)) == u2,
        },
{
    let ghost p0 = path_bytes(*path);
    let ghost u0 = unit_items(*units);
    let start = i + 4;
    let mut k = start;
    let mut name = name_new();
    let mut raw: Vec<u8> = Vec::new();
    proof {
        lemma_find_byte_bounds(nodes@, start as int, 0);
    }
    loop
        invariant_except_break
            start <= k <= nodes@.len(),
            i + 4 == start,
            nodes@.len() + 8 <= usize::MAX,
            raw@ == nodes@.subrange(start as int, k as int),
            name_bytes(name) == latin1_encode(raw@),
            latin1_encode(raw@).len() <= 48,
            find_byte(nodes@, start as int, 0) == find_byte(nodes@, k as int, 0),
            path_bytes(*path) == p0,
            unit_items(*units) == u0,
            p0 == path_bytes(*old(path)),
            u0 == unit_items(*old(units)),
        ensures
            start <= k < nodes@.len(),
            nodes@[k as int] == 0,
            nodes@.len() + 8 <= usize::MAX,
            raw@ == nodes@.subrange(start as int, k as int),
            latin1_encode(raw@).len() <= 48,
            find_byte(nodes@, start as int, 0) == k,
            path_bytes(*path) == p0,
            unit_items(*units) == u0,
            p0 == path_bytes(*old(path)),
            u0 == unit_items(*old(units)),
        decreases nodes@.len() - k,
    {
        if k >= nodes.len() {
            return None;
        }
        let c = nodes[k];
        if c == 0 {
            break;
        }
        proof {
            lemma_find_step(nodes@, k as int, 0);
            lemma_latin1_push(raw@, c);
        }
        if !name_try_push(&mut name, c) {
            proof {
                let nul = find_byte(nodes@, start as int, 0);
                let full = nodes@.subrange(start as int, nul);
                if nul < nodes@.len() {
                    lemma_latin1_prefix(full, k + 1 - start);
                    assert(full.subrange(0, k + 1 - start) =~= raw@.push(c));
                }
            }
            return None;
        }
        raw.push(c);
        k = k + 1;
        assert(raw@ =~= nodes@.subrange(start as int, k as int));
    }
    let ghost name_s = raw@;
    let at = find_from(&raw, 0, 0x40);
    let unit = if at < raw.len() {
        let e = find_from(&raw, at + 1, 0x40);
        parse_hex(&raw, at + 1, e)
    } else {
        None
    };
    let plen = path_len(path);
    if plen != 1 {
        proof {
            assert(p0 + latin1_utf8(0x2f) =~= p0.push(0x2f));
        }
        if !path_try_push(path, 0x2f) {
            return None;
        }
    }
    if !push_chars(path, &raw, at) {
        return None;
    }
    if !units_try_push(units, unit) {
        return None;
    }
    Some(round4(k))
}

/// The last position of `/` in the path, if there is one.
fn last_slash(path: &PathBuffer) -> (r: Option<usize>)
    ensures
        r matches Some(x) ==> rfind_byte(path_bytes(*path), 0x2f) == x,
        r is None ==> rfind_byte(path_bytes(*path), 0x2f) == -1,
{
    let ghost pb = path_bytes(*path);
    let n = path_len(path);
    let mut m = n;
    assert(pb.subrange(0, n as int) =~= pb);
    while m > 0
        invariant
            m <= n,
            n == pb.len(),
            pb == path_bytes(*path),
            rfind_byte(pb, 0x2f) == rfind_byte(pb.subrange(0, m as int), 0x2f),
        decreases m,
    {
        let ghost t = pb.subrange(0, m as int);
        assert(t.drop_last() =~= pb.subrange(0, m - 1));
        if path_byte(path, m - 1) == 0x2f {
            return Some(m - 1);
        }
        m = m - 1;
    }
    None
}

proof fn lemma_rfind_bounds(s: Seq<u8>, b: u8)
    ensures
        -1 <= rfind_byte(s, b) < s.len(),
        rfind_byte(s, b) >= 0 ==> s[rfind_byte(s, b)] == b,
    decreases s.len(),
{
    if s.len() > 0 && s.last() != b {
        lemma_rfind_bounds(s.drop_last(), b);
    }
}

/// Leaves the node at `path`: the path goes back up to its parent, as `end_node` says, and
/// the node's unit address is dropped. `false` where the path holds no `/`.
fn leave_node(path: &mut PathBuffer, units: &mut UnitList) -> (r: bool)
    ensures
        match end_node(path_bytes(*old(path))) {
            None => !r,
            Some(p2) => r && path_bytes(*final(path)) == p2 && unit_items(*final(units)) == (
                if unit_items(*old(units)).len() > 0 {
                    unit_items(*old(units)).drop_last()
                } else {
                    unit_items(*old(units))
                }),
        },
{
    proof {
        lemma_rfind_bounds(path_bytes(*path), 0x2f);
    }
    match last_slash(path) {
        None => false,
        Some(x) => {
            let n = path_len(path);
            let index = if x == 0 && n > 1 { 1 } else { x };
            path_truncate(path, index);
            units_pop(units);
            true
        },
    }
}

/// Bytes `from` to `to` of `b`.
fn copy_range(b: &Vec<u8>, from: usize, to: usize) -> (r: Vec<u8>)
    requires
        from <= to <= b@.len(),
    ensures
        r@ == b@.subrange(from as int, to as int),
{
    let mut v: Vec<u8> = Vec::new();
    let mut k = from;
    while k < to
        invariant
            from <= k <= to <= b@.len(),
            v@ == b@.subrange(from as int, k as int),
        decreases to - k,
    {
        v.push(b[k]);
        k = k + 1;
        assert(v@ =~= b@.subrange(from as int, k as int));
    }
    v
}

/// The path's bytes.
fn path_to_vec(p: &PathBuffer) -> (r: Vec<u8>)
    ensures
        r@ == path_bytes(*p),
{
    let n = path_len(p);
    let mut v: Vec<u8> = Vec::new();
    let mut k: usize = 0;
    while k < n
        invariant
            k <= n,
            n == path_bytes(*p).len(),
            v@ == path_bytes(*p).subrange(0, k as int),
        decreases n - k,
    {
        v.push(path_byte(p, k));
        k = k + 1;
        assert(v@ =~= path_bytes(*p).subrange(0, k as int));
    }
    assert(v@ =~= path_bytes(*p));
    v
}

/// The unit addresses, outermost node first.
fn units_to_vec(u: &UnitList) -> (r: Vec<Option<u64>>)
    ensures
        r@ == unit_items(*u),
{
    let n = units_len(u);
    let mut v: Vec<Option<u64>> = Vec::new();
    let mut k: usize = 0;
    while k < n
        invariant
            k <= n,
            n == unit_items(*u).len(),
            v@ == unit_items(*u).subrange(0, k as int),
        decreases n - k,
    {
        v.push(units_get(u, k));
        k = k + 1;
        assert(v@ =~= unit_items(*u).subrange(0, k as int));
    }
    assert(v@ =~= unit_items(*u));
    v
}

/// Whether each node visit of `v` names the place of a begin-node token in `nodes`.
pub open spec fn visits_hold_nodes(v: Seq<FdtVisit>, nodes: Seq<u8>) -> bool {
    forall|k: int| 0 <= k < v.len() ==> (#[trigger] v[k] matches FdtVisit::Node { offset, .. }
        ==> offset % 4 == 0 && offset + 4 <= nodes.len() && be32(nodes, offset as int) == FDT_BEGIN_NODE)
}

/// Whether each property visit of `v` carries the bytes of the property at its offset in
/// `nodes`.
pub open spec fn visits_hold_props(v: Seq<FdtVisit>, nodes: Seq<u8>) -> bool {
    forall|k: int| 0 <= k < v.len() ==> (#[trigger] v[k] matches FdtVisit::Property { prop, offset, .. }
        ==> prop.wf() && prop@ == prop_bytes(nodes, offset as int) && offset + prop@.len() <= nodes.len())
}

/// Where the walk ends at once: past the block, at a misplaced token, or at the end token.
proof fn lemma_walk_stops(nodes: Seq<u8>, strings: Seq<u8>, i: int, path: Seq<u8>, units: Seq<Option<u64>>)
    requires
        0 <= i,
    ensures
        i >= nodes.len() ==> walk_from(nodes, strings, i, path, units) == Some(Seq::<FdtEvent>::empty()),
        i < nodes.len() && (i % 4 != 0 || i + 4 > nodes.len()) ==> walk_from(nodes, strings, i, path, units) is None,
        i < nodes.len() && i % 4 == 0 && i + 4 <= nodes.len() && be32(nodes, i) == FDT_END
            ==> walk_from(nodes, strings, i, path, units) == Some(Seq::<FdtEvent>::empty()),
{
    reveal(walk_from);
}

/// One step of the walk at byte `i` of `nodes`, whose token is not the end token: enters or
/// leaves a node, or meets a property, recording in `visits` what it met. Where the walk goes
/// on, or `None` where the block is malformed or the walk outgrows its room.
fn walk_step(
    nodes: &Vec<u8>,
    strings: &Vec<u8>,
    i: usize,
    path: &mut PathBuffer,
    units: &mut UnitList,
    visits: &mut Vec<FdtVisit>,
) -> (r: Option<usize>)
    requires
        i % 4 == 0,
        i + 4 <= nodes@.len(),
        nodes@.len() + 8 <= usize::MAX,
        be32(nodes@, i as int) != FDT_END,
        visits_hold_props(old(visits)@, nodes@),
        visits_hold_nodes(old(visits)@, nodes@),
    ensures
        r is None ==> walk_from(nodes@, strings@, i as int, path_bytes(*old(path)), unit_items(*old(units))) is None,
        r matches Some(j) ==> {
            &&& i < j <= nodes@.len() + 3
            &&& visits_hold_props(final(visits)@, nodes@)
            &&& visits_hold_nodes(final(visits)@, nodes@)
            &&& after(events_of(old(visits)@), walk_from(nodes@, strings@, i as int, path_bytes(*old(path)), unit_items(*old(units))))
                == after(events_of(final(visits)@), walk_from(nodes@, strings@, j as int, path_bytes(*final(path)), unit_items(*final(units))))
        },
{
    reveal(walk_from);
    let ghost nn = nodes@;
    let ghost ss = strings@;
    let ghost old_visits = visits@;
    let ghost rest = walk_from(nn, ss, i as int, path_bytes(*path), unit_items(*units));
    let token = be_read_u32(nodes, i);
    assert(token == be32(nn, i as int));
    if token == FDT_BEGIN_NODE {
        proof {
            lemma_begin_node_advances(nn, i as int, path_bytes(*path), unit_items(*units));
        }
        match enter_node(nodes, i, path, units) {
            None => None,
            Some(j) => {
                let pv = path_to_vec(path);
                let uv = units_to_vec(units);
                let vis = FdtVisit::Node { path: pv, unit_addresses: uv, offset: i };
                let ghost ev = vis.event();
                visits.push(vis);
                proof {
                    assert(events_of(visits@) =~= events_of(old_visits).push(ev));
                    let tail = walk_from(nn, ss, j as int, path_bytes(*path), unit_items(*units));
                    match tail {
                        Some(t) => {
                            assert(events_of(old_visits) + (seq![ev] + t) =~= events_of(visits@) + t);
                        },
                        None => {},
                    }
                    assert forall|k: int| 0 <= k < visits@.len() implies (#[trigger] visits@[k] matches FdtVisit::Property { prop, offset, .. }
                        ==> prop.wf() && prop@ == prop_bytes(nn, offset as int) && offset + prop@.len() <= nn.len()) by {
                        if k < old_visits.len() {
                            assert(visits@[k] == old_visits[k]);
                        }
                    }
                    assert forall|k: int| 0 <= k < visits@.len() implies (#[trigger] visits@[k] matches FdtVisit::Node { offset, .. }
                        ==> offset % 4 == 0 && offset + 4 <= nn.len() && be32(nn, offset as int) == FDT_BEGIN_NODE) by {
                        if k < old_visits.len() {
                            assert(visits@[k] == old_visits[k]);
                        }
                    }
                }
                Some(j)
            },
        }
    } else if token == FDT_END_NODE {
        if !leave_node(path, units) {
            return None;
        }
        Some(i + 4)
    } else if token == FDT_PROP {
        match Property::from_slice(nodes, i, nodes.len()) {
            None => None,
            Some(p) => {
                proof {
                    assert(p@.subrange(4, 8) =~= nn.subrange(i + 4, i + 8));
                    assert(p@.subrange(8, 12) =~= nn.subrange(i + 8, i + 12));
                }
                let off = p.name_offset();
                match get_string(strings, off) {
                    None => None,
                    Some(name) => {
                        let adv = p.bytes.len();
                        let pv = path_to_vec(path);
                        let uv = units_to_vec(units);
                        let vis = FdtVisit::Property { path: pv, unit_addresses: uv, name, prop: p, offset: i };
                        let ghost ev = vis.event();
                        visits.push(vis);
                        proof {
                            lemma_prop_step_advances(nn, ss, i as int);
                            assert(events_of(visits@) =~= events_of(old_visits).push(ev));
                            let tail = walk_from(nn, ss, i + adv, path_bytes(*path), unit_items(*units));
                            match tail {
                                Some(t) => {
                                    assert(events_of(old_visits) + (seq![ev] + t) =~= events_of(visits@) + t);
                                },
                                None => {},
                            }
                            assert forall|k: int| 0 <= k < visits@.len() implies (#[trigger] visits@[k] matches FdtVisit::Property { prop, offset, .. }
                                ==> prop.wf() && prop@ == prop_bytes(nn, offset as int) && offset + prop@.len() <= nn.len()) by {
                                if k < old_visits.len() {
                                    assert(visits@[k] == old_visits[k]);
                                }
                            }
                            assert forall|k: int| 0 <= k < visits@.len() implies (#[trigger] visits@[k] matches FdtVisit::Node { offset, .. }
                                ==> offset % 4 == 0 && offset + 4 <= nn.len() && be32(nn, offset as int) == FDT_BEGIN_NODE) by {
                                if k < old_visits.len() {
                                    assert(visits@[k] == old_visits[k]);
                                }
                            }
                        }
                        Some(i + adv)
                    },
                }
            },
        }
    } else {
        Some(i + 4)
    }
}

impl Fdt {
    /// The walk over the structure block from its start: the nodes entered and the properties
    /// met, in order. `None` where the block is malformed or the walk outgrows its room.
    pub fn walk(&self) -> (r: Option<Vec<FdtVisit>>)
        requires
            self.wf(),
            self@.len() + 8 <= usize::MAX,
        ensures
            r is None <==> walk_from(self.nodes(), self.strings(), 0, Seq::empty(), Seq::empty()) is None,
            r matches Some(v) ==> walk_from(self.nodes(), self.strings(), 0, Seq::empty(), Seq::empty())
                == Some(events_of(v@)) && visits_hold_props(v@, self.nodes()) && visits_hold_nodes(v@, self.nodes()),
    {
        let off_struct = be_read_u32(&self.blob, 8) as usize;
        let size_struct = be_read_u32(&self.blob, 36) as usize;
        let off_strings = be_read_u32(&self.blob, 12) as usize;
        let size_strings = be_read_u32(&self.blob, 32) as usize;
        let nodes = copy_range(&self.blob, off_struct, off_struct + size_struct);
        let strings = copy_range(&self.blob, off_strings, off_strings + size_strings);
        let ghost nn = self.nodes();
        let ghost ss = self.strings();
        let ghost whole = walk_from(nn, ss, 0, Seq::empty(), Seq::empty());
        let mut path = path_new();
        let mut units = units_new();
        let mut visits: Vec<FdtVisit> = Vec::new();
        let mut i: usize = 0;
        assert(events_of(visits@) =~= Seq::<FdtEvent>::empty());
        assert(whole == after(events_of(visits@), walk_from(nn, ss, 0, path_bytes(path), unit_items(units)))) by {
            match whole {
                Some(w) => { assert(Seq::<FdtEvent>::empty() + w =~= w); },
                None => {},
            }
        }
        while i < nodes.len()
            invariant
                nodes@ == nn,
                strings@ == ss,
                nn == self.nodes(),
                ss == self.strings(),
                nn.len() + 8 <= usize::MAX,
                i <= nn.len() + 3,
                whole == walk_from(nn, ss, 0, Seq::empty(), Seq::empty()),
                whole == after(events_of(visits@), walk_from(nn, ss, i as int, path_bytes(path), unit_items(units))),
                visits_hold_props(visits@, nn),
                visits_hold_nodes(visits@, nn),
            decreases nn.len() + 3 - i,
        {
            proof {
                lemma_walk_stops(nn, ss, i as int, path_bytes(path), unit_items(units));
            }
            if i % 4 != 0 || i + 4 > nodes.len() {
                return None;
            }
            let token = be_read_u32(&nodes, i);
            if token == FDT_END {
                assert(walk_from(nn, ss, i as int, path_bytes(path), unit_items(units)) == Some(Seq::<FdtEvent>::empty()));
                assert(events_of(visits@) + Seq::<FdtEvent>::empty() =~= events_of(visits@));
                return Some(visits);
            }
            match walk_step(&nodes, &strings, i, &mut path, &mut units, &mut visits) {
                None => {
                    return None;
                },
                Some(j) => {
                    i = j;
                },
            }
        }
        proof {
            lemma_walk_stops(nn, ss, i as int, path_bytes(path), unit_items(units));
        }
        assert(events_of(visits@) + Seq::<FdtEvent>::empty() =~= events_of(visits@));
        Some(visits)
    }
}

/// What reading the properties of a device tree has gathered so far.
pub struct ParseModel {
    pub initrd_start: Option<u64>,
    pub initrd_end: Option<u64>,
    pub plic: Option<u64>,
    pub clint: Option<u64>,
    /// The memory's (offset, size).
    pub memory: (u64, u64),
    pub uart_type: Option<UartType>,
    pub uart_address: u64,
    pub bootargs: Seq<u8>,
    /// The unit addresses met so far, each at the slot it was given.
    pub addresses: Seq<u64>,
    /// Per slot, a virtio device's (address, size) range and interrupt.
    pub virtio: Seq<(Option<(u64, u64)>, Option<u64>)>,
    /// Per slot, a cpu's hart id and the handle of its interrupt controller.
    pub cpus: Seq<(Option<u64>, Option<u64>)>,
    /// Per S-mode context of the interrupt controller, the handle of the hart controller it
    /// serves.
    pub contexts: Seq<Option<u32>>,
}

/// Before any property is read.
pub open spec fn parse_start() -> ParseModel {
    ParseModel {
        initrd_start: None,
        initrd_end: None,
        plic: None,
        clint: None,
        memory: (0, 0),
        uart_type: None,
        uart_address: 0,
        bootargs: Seq::empty(),
        addresses: Seq::empty(),
        virtio: Seq::new(16, |k: int| (None, None)),
        cpus: Seq::new(16, |k: int| (None, None)),
        contexts: Seq::new(64, |k: int| None),
    }
}

/// The slots and tables have their sizes.
pub open spec fn parse_model_wf(st: ParseModel) -> bool {
    &&& st.addresses.len() <= 16
    &&& st.virtio.len() == 16
    &&& st.cpus.len() == 16
    &&& st.contexts.len() == 64
}

/// The first position at or after `from` where `a` holds `v`, or -1.
pub open spec fn position_from<T>(a: Seq<T>, v: T, from: int) -> int
    decreases a.len() - from,
{
    if from < 0 || from >= a.len() {
        -1
    } else if a[from] == v {
        from
    } else {
        position_from(a, v, from + 1)
    }
}

/// The slot of address `v`: where it already is, or a new one at the end (with the list
/// grown by it); `None` where it is new and all 16 slots are taken.
pub open spec fn slot_of(a: Seq<u64>, v: u64) -> Option<(int, Seq<u64>)> {
    let k = position_from(a, v, 0);
    if k >= 0 {
        Some((k, a))
    } else if a.len() < 16 {
        Some((a.len() as int, a.push(v)))
    } else {
        None
    }
}

/// Cell `k` of the property whose bytes are `p`, where it lies in the property.
pub open spec fn prop_cell(p: Seq<u8>, k: int) -> Option<u32> {
    if 12 + 4 * k + 4 <= p.len() {
        Some(be32(p, 12 + 4 * k))
    } else {
        None
    }
}

/// The hart-controller handle of each S-mode context, after the (handle, interrupt) pairs of an
/// `interrupts-extended` property `p` from cell `i` on: a pair whose interrupt is 9 (the S-mode
/// external interrupt) gives context `i / 2` its handle. `None` where a pair is cut short or
/// names a context past the 64th.
pub open spec fn contexts_from(p: Seq<u8>, c: Seq<Option<u32>>, i: int) -> Option<Seq<Option<u32>>>
    decreases prop_len(p) / 4 + 2 - i,
{
    if i < 0 || i >= prop_len(p) / 4 {
        Some(c)
    } else {
        match prop_cell(p, i + 1) {
            None => None,
            Some(irq) => if irq == 9 {
                if i / 2 >= 64 {
                    None
                } else {
                    contexts_from(p, c.update(i / 2, Some(be32(p, 12 + 4 * i))), i + 2)
                }
            } else {
                contexts_from(p, c, i + 2)
            },
        }
    }
}

/// The unit address `a`, or 0 where there is none.
pub open spec fn or_zero(a: Option<u64>) -> u64 {
    match a {
        Some(x) => x,
        None => 0,
    }
}

/// The kind of serial port a `compatible` value names.
pub open spec fn uart_kind(v: Option<Seq<u8>>) -> Option<UartType> {
    match v {
        Some(s) => if s == "ns16550a".spec_bytes() {
            Some(UartType::Ns16550a)
        } else if s == "sifive,uart0".spec_bytes() {
            Some(UartType::SiFive)
        } else {
            None
        },
        None => None,
    }
}

/// Whether `path` names the serial port.
pub open spec fn is_uart_path(path: Seq<u8>) -> bool {
    path == "/uart".spec_bytes() || path == "/soc/uart".spec_bytes() || path == "/soc/serial".spec_bytes()
}

/// A property of `/chosen`.
pub open spec fn chosen_prop(st: ParseModel, name: Seq<u8>, p: Seq<u8>) -> Option<ParseModel> {
    if name == "linux,initrd-end".spec_bytes() {
        match spec_read_int(p) {
            Some(v) => Some(ParseModel { initrd_end: Some(v), ..st }),
            None => None,
        }
    } else if name == "linux,initrd-start".spec_bytes() {
        match spec_read_int(p) {
            Some(v) => Some(ParseModel { initrd_start: Some(v), ..st }),
            None => None,
        }
    } else if name == "bootargs".spec_bytes() {
        match spec_value_str(p) {
            Some(v) => if st.bootargs.len() + v.len() <= 256 {
                Some(ParseModel { bootargs: st.bootargs + v, ..st })
            } else {
                None
            },
            None => None,
        }
    } else {
        Some(st)
    }
}

/// A property of the serial port: the first address and the first kind found stay.
pub open spec fn uart_prop(st: ParseModel, name: Seq<u8>, p: Seq<u8>) -> Option<ParseModel> {
    if name == "reg".spec_bytes() {
        if st.uart_address == 0 {
            match spec_read_range(p) {
                Some(r) => Some(ParseModel { uart_address: r.0, ..st }),
                None => None,
            }
        } else {
            Some(st)
        }
    } else if name == "compatible".spec_bytes() {
        if st.uart_type is None {
            Some(ParseModel { uart_type: uart_kind(spec_value_str(p)), ..st })
        } else {
            Some(st)
        }
    } else {
        Some(st)
    }
}

/// A property of the interrupt controller.
pub open spec fn plic_prop(st: ParseModel, name: Seq<u8>, p: Seq<u8>) -> Option<ParseModel> {
    if name == "reg".spec_bytes() {
        match spec_read_range(p) {
            Some(r) => Some(ParseModel { plic: Some(r.0), ..st }),
            None => None,
        }
    } else if name == "interrupts-extended".spec_bytes() {
        match contexts_from(p, st.contexts, 0) {
            Some(c) => Some(ParseModel { contexts: c, ..st }),
            None => None,
        }
    } else {
        Some(st)
    }
}

/// A property of a virtio device, whose slot is that of its unit address.
pub open spec fn virtio_prop(st: ParseModel, units: Seq<Option<u64>>, name: Seq<u8>, p: Seq<u8>) -> Option<ParseModel> {
    if name == "reg".spec_bytes() || name == "interrupts".spec_bytes() {
        if units.len() < 2 {
            None
        } else {
            match slot_of(st.addresses, or_zero(units[1])) {
                None => None,
                Some((k, a2)) => if name == "reg".spec_bytes() {
                    match spec_read_range(p) {
                        Some(r) => Some(ParseModel { addresses: a2, virtio: st.virtio.update(k, (Some(r), st.virtio[k].1)), ..st }),
                        None => None,
                    }
                } else {
                    match spec_read_int(p) {
                        Some(v) => Some(ParseModel { addresses: a2, virtio: st.virtio.update(k, (st.virtio[k].0, Some(v))), ..st }),
                        None => None,
                    }
                },
            }
        }
    } else {
        Some(st)
    }
}

/// A cpu's hart id (`is_reg`) or its interrupt controller's handle: the slot is that of the
/// cpu's unit address among the same slots the virtio devices use.
pub open spec fn cpu_prop(st: ParseModel, units: Seq<Option<u64>>, p: Seq<u8>, is_reg: bool) -> Option<ParseModel> {
    if units.len() < 3 {
        None
    } else {
        match slot_of(st.addresses, or_zero(units[2])) {
            None => None,
            Some((k, a2)) => match spec_read_int(p) {
                Some(v) => Some(ParseModel {
                    addresses: a2,
                    cpus: st.cpus.update(k, if is_reg { (Some(v), st.cpus[k].1) } else { (st.cpus[k].0, Some(v)) }),
                    ..st
                }),
                None => None,
            },
        }
    }
}

/// What a property named `name`, whose bytes are `p`, in the node at `path` with unit
/// addresses `units`, adds to `st`; `None` where reading it fails.
#[verifier::opaque]
pub open spec fn parse_prop(st: ParseModel, path: Seq<u8>, units: Seq<Option<u64>>, name: Seq<u8>, p: Seq<u8>) -> Option<ParseModel> {
    if path == "/chosen".spec_bytes() {
        chosen_prop(st, name, p)
    } else if path == "/memory".spec_bytes() {
        if name == "reg".spec_bytes() {
            match spec_read_range(p) {
                Some(r) => Some(ParseModel { memory: r, ..st }),
                None => None,
            }
        } else {
            Some(st)
        }
    } else if is_uart_path(path) {
        uart_prop(st, name, p)
    } else if path == "/soc/clint".spec_bytes() {
        if name == "reg".spec_bytes() {
            match spec_read_range(p) {
                Some(r) => Some(ParseModel { clint: Some(r.0), ..st }),
                None => None,
            }
        } else {
            Some(st)
        }
    } else if path == "/soc/interrupt-controller".spec_bytes() {
        plic_prop(st, name, p)
    } else if path == "/virtio_mmio".spec_bytes() {
        virtio_prop(st, units, name, p)
    } else if path == "/cpus/cpu".spec_bytes() {
        if name == "reg".spec_bytes() {
            cpu_prop(st, units, p, true)
        } else {
            Some(st)
        }
    } else if path == "/cpus/cpu/interrupt-controller".spec_bytes() {
        if name == "phandle".spec_bytes() {
            cpu_prop(st, units, p, false)
        } else {
            Some(st)
        }
    } else {
        Some(st)
    }
}

/// What the first `n` events of a walk over the structure block `nodes` gather.
#[verifier::opaque]
pub open spec fn parse_events(evs: Seq<FdtEvent>, nodes: Seq<u8>, n: int) -> Option<ParseModel>
    decreases n,
{
    if n <= 0 {
        Some(parse_start())
    } else {
        match parse_events(evs, nodes, n - 1) {
            None => None,
            Some(st) => match evs[n - 1] {
                FdtEvent::Node { .. } => Some(st),
                FdtEvent::Prop { path, units, name, offset } => parse_prop(st, path, units, name, prop_bytes(nodes, offset)),
            },
        }
    }
}

/// What the properties of the device tree whose blocks are `nodes` and `strings` gather.
pub open spec fn spec_parse(nodes: Seq<u8>, strings: Seq<u8>) -> Option<ParseModel> {
    match walk_from(nodes, strings, 0, Seq::empty(), Seq::empty()) {
        None => None,
        Some(evs) => parse_events(evs, nodes, evs.len() as int),
    }
}

/// The hart of a cpu slot `c`, where it has a hart id and a handle that some S-mode context
/// names: that context is the hart's.
pub open spec fn hart_of(c: (Option<u64>, Option<u64>), contexts: Seq<Option<u32>>) -> Seq<Hart> {
    match c {
        (Some(h), Some(ph)) => {
            let k = position_from(contexts, Some(ph as u32), 0);
            if k >= 0 {
                seq![Hart { hartid: h, plic_context: k as u64 }]
            } else {
                Seq::empty()
            }
        },
        _ => Seq::empty(),
    }
}

/// The harts of the first `n` cpu slots, in slot order.
pub open spec fn harts_upto(cpus: Seq<(Option<u64>, Option<u64>)>, contexts: Seq<Option<u32>>, n: int) -> Seq<Hart>
    decreases n,
{
    if n <= 0 {
        Seq::empty()
    } else {
        harts_upto(cpus, contexts, n - 1) + hart_of(cpus[n - 1], contexts)
    }
}

/// The device of a virtio slot `v`, where it has both a range and an interrupt.
pub open spec fn device_of(v: (Option<(u64, u64)>, Option<u64>)) -> Seq<Device> {
    match v {
        (Some((b, s)), Some(irq)) => seq![Device { base_address: b, size: s, irq }],
        _ => Seq::empty(),
    }
}

/// The devices of virtio slots 15 down to `k`, in that order.
pub open spec fn devices_down(virtio: Seq<(Option<(u64, u64)>, Option<u64>)>, k: int) -> Seq<Device>
    decreases 16 - k,
{
    if k >= 16 {
        Seq::empty()
    } else {
        devices_down(virtio, k + 1) + device_of(virtio[k])
    }
}

/// Whether `m` holds what `st` gathered: its harts and devices as the slots give them, sorted by
/// hart id and by base address.
pub open spec fn meta_from(m: MachineMeta, st: ParseModel) -> bool {
    &&& st.plic == Some(m.plic_address)
    &&& st.clint == Some(m.clint_address)
    &&& m.physical_memory_offset == st.memory.0
    &&& m.physical_memory_size == st.memory.1
    &&& m.uart_type == st.uart_type
    &&& m.uart_address == st.uart_address
    &&& bootargs_bytes(m.bootargs) == st.bootargs
    &&& (m.initrd_start, m.initrd_end) == (match (st.initrd_start, st.initrd_end) {
        (Some(a), Some(b)) => (a, b),
        _ => (0u64, 0u64),
    })
    &&& hart_items(m.harts).to_multiset() == harts_upto(st.cpus, st.contexts, 16).to_multiset()
    &&& forall|i: int, j: int| 0 <= i < j < hart_items(m.harts).len() ==>
        #[trigger] hart_items(m.harts)[i].hartid <= #[trigger] hart_items(m.harts)[j].hartid
    &&& device_items(m.virtio).to_multiset() == devices_down(st.virtio, 0).to_multiset()
    &&& forall|i: int, j: int| 0 <= i < j < device_items(m.virtio).len() ==>
        #[trigger] device_items(m.virtio)[i].base_address <= #[trigger] device_items(m.virtio)[j].base_address
}

/// What reading the properties of a device tree has gathered so far, as the hypervisor holds it.
struct ParseAcc {
    initrd_start: Option<u64>,
    initrd_end: Option<u64>,
    plic: Option<u64>,
    clint: Option<u64>,
    memory: (u64, u64),
    uart_type: Option<UartType>,
    uart_address: u64,
    bootargs: Bootargs,
    addresses: AddressList,
    virtio: Vec<(Option<(u64, u64)>, Option<u64>)>,
    cpus: Vec<(Option<u64>, Option<u64>)>,
    contexts: Vec<Option<u32>>,
}

impl ParseAcc {
    spec fn model(&self) -> ParseModel {
        ParseModel {
            initrd_start: self.initrd_start,
            initrd_end: self.initrd_end,
            plic: self.plic,
            clint: self.clint,
            memory: self.memory,
            uart_type: self.uart_type,
            uart_address: self.uart_address,
            bootargs: bootargs_bytes(self.bootargs),
            addresses: address_list_items(self.addresses),
            virtio: self.virtio@,
            cpus: self.cpus@,
            contexts: self.contexts@,
        }
    }

    fn new() -> (r: Self)
        ensures
            r.model() == parse_start(),
    {
        let mut virtio: Vec<(Option<(u64, u64)>, Option<u64>)> = Vec::new();
        let mut cpus: Vec<(Option<u64>, Option<u64>)> = Vec::new();
        let mut k: usize = 0;
        while k < 16
            invariant
                k <= 16,
                virtio@ == Seq::new(k as nat, |j: int| (None::<(u64, u64)>, None::<u64>)),
                cpus@ == Seq::new(k as nat, |j: int| (None::<u64>, None::<u64>)),
            decreases 16 - k,
        {
            virtio.push((None, None));
            cpus.push((None, None));
            k = k + 1;
            assert(virtio@ =~= Seq::new(k as nat, |j: int| (None::<(u64, u64)>, None::<u64>)));
            assert(cpus@ =~= Seq::new(k as nat, |j: int| (None::<u64>, None::<u64>)));
        }
        let mut contexts: Vec<Option<u32>> = Vec::new();
        let mut k: usize = 0;
        while k < 64
            invariant
                k <= 64,
                contexts@ == Seq::new(k as nat, |j: int| None::<u32>),
            decreases 64 - k,
        {
            contexts.push(None);
            k = k + 1;
            assert(contexts@ =~= Seq::new(k as nat, |j: int| None::<u32>));
        }
        let r = ParseAcc {
            initrd_start: None,
            initrd_end: None,
            plic: None,
            clint: None,
            memory: (0, 0),
            uart_type: None,
            uart_address: 0,
            bootargs: bootargs_new(),
            addresses: address_list_new(),
            virtio,
            cpus,
            contexts,
        };
        assert(r.model().bootargs =~= parse_start().bootargs);
        assert(r.model().addresses =~= parse_start().addresses);
        r
    }

    /// Appends the printable characters `v` to the command line; `false` where they do not fit.
    fn push_bootargs(&mut self, v: &Vec<u8>) -> (r: bool)
        requires
            forall|j: int| 0 <= j < v@.len() ==> #[trigger] v@[j] < 0x80,
            bootargs_bytes(old(self).bootargs).len() <= 256,
        ensures
            r == (bootargs_bytes(old(self).bootargs).len() + v@.len() <= 256),
            r ==> final(self).model() == (ParseModel { bootargs: old(self).model().bootargs + v@, ..old(self).model() }),
    {
        let ghost b0 = bootargs_bytes(self.bootargs);
        let mut m: usize = 0;
        assert(b0 + v@.subrange(0, 0) =~= b0);
        while m < v.len()
            invariant
                m <= v@.len(),
                forall|j: int| 0 <= j < v@.len() ==> #[trigger] v@[j] < 0x80,
                b0 == bootargs_bytes(old(self).bootargs),
                bootargs_bytes(self.bootargs) == b0 + v@.subrange(0, m as int),
                bootargs_bytes(self.bootargs).len() <= 256,
                self.model() == (ParseModel { bootargs: bootargs_bytes(self.bootargs), ..old(self).model() }),
            decreases v@.len() - m,
        {
            let c = v[m];
            assert(latin1_utf8(c) =~= seq![c]);
            if !bootargs_try_push(&mut self.bootargs, c) {
                return false;
            }
            m = m + 1;
            assert(bootargs_bytes(self.bootargs) =~= b0 + v@.subrange(0, m as int));
        }
        assert(v@.subrange(0, m as int) =~= v@);
        true
    }

    fn take_chosen(&mut self, name: &Vec<u8>, p: &Property) -> (r: bool)
        requires
            p.wf(),
            bootargs_bytes(old(self).bootargs).len() <= 256,
        ensures
            r == chosen_prop(old(self).model(), name@, p@) is Some,
            r ==> final(self).model() == chosen_prop(old(self).model(), name@, p@)->0,
    {
        if bytes_equal(name, "linux,initrd-end") {
            match p.read_int() {
                Some(v) => {
                    self.initrd_end = Some(v);
                    true
                },
                None => false,
            }
        } else if bytes_equal(name, "linux,initrd-start") {
            match p.read_int() {
                Some(v) => {
                    self.initrd_start = Some(v);
                    true
                },
                None => false,
            }
        } else if bytes_equal(name, "bootargs") {
            match p.value_str() {
                Some(v) => {
                    proof {
                        if prop_len(p@) != 0 {
                            assert forall|j: int| 0 <= j < v@.len() implies #[trigger] v@[j] < 0x80 by {
                                assert(v@[j] == p@[12 + j]);
                            }
                        }
                    }
                    self.push_bootargs(&v)
                },
                None => false,
            }
        } else {
            true
        }
    }

    fn take_uart(&mut self, name: &Vec<u8>, p: &Property) -> (r: bool)
        requires
            p.wf(),
        ensures
            r == uart_prop(old(self).model(), name@, p@) is Some,
            r ==> final(self).model() == uart_prop(old(self).model(), name@, p@)->0,
    {
        if bytes_equal(name, "reg") {
            if self.uart_address == 0 {
                match p.read_range() {
                    Some(r) => {
                        self.uart_address = r.0;
                        true
                    },
                    None => false,
                }
            } else {
                true
            }
        } else if bytes_equal(name, "compatible") {
            if self.uart_type.is_none() {
                self.uart_type = kind_of_uart(p.value_str());
            }
            true
        } else {
            true
        }
    }

    fn take_plic(&mut self, name: &Vec<u8>, p: &Property) -> (r: bool)
        requires
            p.wf(),
            old(self).contexts@.len() == 64,
        ensures
            r == plic_prop(old(self).model(), name@, p@) is Some,
            r ==> final(self).model() == plic_prop(old(self).model(), name@, p@)->0,
    {
        if bytes_equal(name, "reg") {
            match p.read_range() {
                Some(r) => {
                    self.plic = Some(r.0);
                    true
                },
                None => false,
            }
        } else if bytes_equal(name, "interrupts-extended") {
            fill_contexts(p, &mut self.contexts)
        } else {
            true
        }
    }

    fn take_virtio(&mut self, units: &Vec<Option<u64>>, name: &Vec<u8>, p: &Property) -> (r: bool)
        requires
            p.wf(),
            parse_model_wf(old(self).model()),
        ensures
            r == virtio_prop(old(self).model(), units@, name@, p@) is Some,
            r ==> final(self).model() == virtio_prop(old(self).model(), units@, name@, p@)->0,
    {
        let is_reg = bytes_equal(name, "reg");
        let is_irq = bytes_equal(name, "interrupts");
        if !is_reg && !is_irq {
            return true;
        }
        if units.len() < 2 {
            return false;
        }
        let a = match units[1] {
            Some(x) => x,
            None => 0,
        };
        match slot_index(&mut self.addresses, a) {
            None => false,
            Some(k) => {
                let e = self.virtio[k];
                if is_reg {
                    match p.read_range() {
                        Some(r) => {
                            self.virtio.set(k, (Some(r), e.1));
                            true
                        },
                        None => false,
                    }
                } else {
                    match p.read_int() {
                        Some(v) => {
                            self.virtio.set(k, (e.0, Some(v)));
                            true
                        },
                        None => false,
                    }
                }
            },
        }
    }

    fn take_cpu(&mut self, units: &Vec<Option<u64>>, p: &Property, is_reg: bool) -> (r: bool)
        requires
            p.wf(),
            parse_model_wf(old(self).model()),
        ensures
            r == cpu_prop(old(self).model(), units@, p@, is_reg) is Some,
            r ==> final(self).model() == cpu_prop(old(self).model(), units@, p@, is_reg)->0,
    {
        if units.len() < 3 {
            return false;
        }
        let a = match units[2] {
            Some(x) => x,
            None => 0,
        };
        match slot_index(&mut self.addresses, a) {
            None => false,
            Some(k) => {
                let e = self.cpus[k];
                match p.read_int() {
                    Some(v) => {
                        if is_reg {
                            self.cpus.set(k, (Some(v), e.1));
                        } else {
                            self.cpus.set(k, (e.0, Some(v)));
                        }
                        true
                    },
                    None => false,
                }
            },
        }
    }
}

/// The kind of serial port a `compatible` value names. (A value of printable characters holds
/// no NUL, so there is none to trim from its end.)
fn kind_of_uart(v: Option<Vec<u8>>) -> (r: Option<UartType>)
    ensures
        r == uart_kind(match v { Some(s) => Some(s@), None => None }),
{
    match v {
        Some(s) => if bytes_equal(&s, "ns16550a") {
            Some(UartType::Ns16550a)
        } else if bytes_equal(&s, "sifive,uart0") {
            Some(UartType::SiFive)
        } else {
            None
        },
        None => None,
    }
}

/// The slot of address `v` in `a`, as `slot_of` says, adding it where it is new.
fn slot_index(a: &mut AddressList, v: u64) -> (r: Option<usize>)
    ensures
        match slot_of(address_list_items(*old(a)), v) {
            None => r is None,
            Some((k, a2)) => r == Some(k as usize) && address_list_items(*final(a)) == a2 && k < 16,
        },
{
    let ghost items = address_list_items(*a);
    let n = address_list_len(a);
    let mut k: usize = 0;
    while k < n
        invariant
            k <= n,
            n == items.len(),
            n <= 16,
            items == address_list_items(*a),
            position_from(items, v, 0) == position_from(items, v, k as int),
        decreases n - k,
    {
        if address_list_get(a, k) == v {
            return Some(k);
        }
        k = k + 1;
    }
    if !address_list_try_push(a, v) {
        return None;
    }
    Some(n)
}

/// Fills in the S-mode contexts of an `interrupts-extended` property, as `contexts_from` says.
fn fill_contexts(p: &Property, c: &mut Vec<Option<u32>>) -> (r: bool)
    requires
        p.wf(),
        old(c)@.len() == 64,
    ensures
        r == contexts_from(p@, old(c)@, 0) is Some,
        r ==> final(c)@ == contexts_from(p@, old(c)@, 0)->0,
{
    let cells = p.cells();
    let mut i: usize = 0;
    while i < cells
        invariant
            p.wf(),
            cells == prop_len(p@) / 4,
            c@.len() == 64,
            i <= cells + 1,
            contexts_from(p@, old(c)@, 0) == contexts_from(p@, c@, i as int),
        decreases cells + 2 - i,
    {
        match p.read_cell(i + 1) {
            None => {
                return false;
            },
            Some(irq) => {
                if irq == 9 {
                    if i / 2 >= 64 {
                        return false;
                    }
                    let h = p.read_cell(i);
                    match h {
                        Some(handle) => {
                            c.set(i / 2, Some(handle));
                        },
                        None => {
                            return false;
                        },
                    }
                }
            },
        }
        i = i + 2;
    }
    true
}

proof fn lemma_slot_of_bounds(a: Seq<u64>, v: u64)
    requires
        a.len() <= 16,
    ensures
        slot_of(a, v) matches Some((k, a2)) ==> 0 <= k < 16 && a2.len() <= 16,
{
    lemma_position_bounds(a, v, 0);
}

proof fn lemma_position_bounds<T>(a: Seq<T>, v: T, from: int)
    ensures
        -1 <= position_from(a, v, from) < a.len(),
        position_from(a, v, from) >= 0 ==> from <= position_from(a, v, from) && a[position_from(a, v, from)] == v,
    decreases a.len() - from,
{
    if 0 <= from < a.len() && a[from] != v {
        lemma_position_bounds(a, v, from + 1);
    }
}

proof fn lemma_contexts_len(p: Seq<u8>, c: Seq<Option<u32>>, i: int)
    requires
        c.len() == 64,
    ensures
        contexts_from(p, c, i) matches Some(c2) ==> c2.len() == 64,
    decreases prop_len(p) / 4 + 2 - i,
{
    if 0 <= i < prop_len(p) / 4 {
        match prop_cell(p, i + 1) {
            None => {},
            Some(irq) => if irq == 9 {
                if i / 2 < 64 {
                    lemma_contexts_len(p, c.update(i / 2, Some(be32(p, 12 + 4 * i))), i + 2);
                }
            } else {
                lemma_contexts_len(p, c, i + 2);
            },
        }
    }
}

/// Reading a property keeps the slots and tables at their sizes, and the command line within
/// its 256 bytes.
proof fn lemma_parse_prop_wf(st: ParseModel, path: Seq<u8>, units: Seq<Option<u64>>, name: Seq<u8>, p: Seq<u8>)
    requires
        parse_model_wf(st),
        st.bootargs.len() <= 256,
    ensures
        parse_prop(st, path, units, name, p) matches Some(st2) ==> parse_model_wf(st2) && st2.bootargs.len() <= 256,
{
    reveal(parse_prop);
    lemma_contexts_len(p, st.contexts, 0);
    if units.len() >= 2 {
        lemma_slot_of_bounds(st.addresses, or_zero(units[1]));
    }
    if units.len() >= 3 {
        lemma_slot_of_bounds(st.addresses, or_zero(units[2]));
    }
}

impl ParseAcc {
    /// Reads the property `p`, named `name`, of the node at `path` with unit addresses
    /// `units`, as `parse_prop` says; `false` where that fails.
    fn take(&mut self, path: &Vec<u8>, units: &Vec<Option<u64>>, name: &Vec<u8>, p: &Property) -> (r: bool)
        requires
            p.wf(),
            parse_model_wf(old(self).model()),
            old(self).model().bootargs.len() <= 256,
        ensures
            r == parse_prop(old(self).model(), path@, units@, name@, p@) is Some,
            r ==> final(self).model() == parse_prop(old(self).model(), path@, units@, name@, p@)->0,
    {
        reveal(parse_prop);
        if bytes_equal(path, "/chosen") {
            self.take_chosen(name, p)
        } else if bytes_equal(path, "/memory") {
            if bytes_equal(name, "reg") {
                match p.read_range() {
                    Some(r) => {
                        self.memory = r;
                        true
                    },
                    None => false,
                }
            } else {
                true
            }
        } else if bytes_equal(path, "/uart") || bytes_equal(path, "/soc/uart") || bytes_equal(path, "/soc/serial") {
            self.take_uart(name, p)
        } else if bytes_equal(path, "/soc/clint") {
            if bytes_equal(name, "reg") {
                match p.read_range() {
                    Some(r) => {
                        self.clint = Some(r.0);
                        true
                    },
                    None => false,
                }
            } else {
                true
            }
        } else if bytes_equal(path, "/soc/interrupt-controller") {
            self.take_plic(name, p)
        } else if bytes_equal(path, "/virtio_mmio") {
            self.take_virtio(units, name, p)
        } else if bytes_equal(path, "/cpus/cpu") {
            if bytes_equal(name, "reg") {
                self.take_cpu(units, p, true)
            } else {
                true
            }
        } else if bytes_equal(path, "/cpus/cpu/interrupt-controller") {
            if bytes_equal(name, "phandle") {
                self.take_cpu(units, p, false)
            } else {
                true
            }
        } else {
            true
        }
    }

    /// The machine description `model` gathered: `None` where it found no interrupt controller
    /// or no timer.
    fn finish(self) -> (r: Option<MachineMeta>)
        requires
            parse_model_wf(self.model()),
        ensures
            r is None <==> (self.model().plic is None || self.model().clint is None),
            r matches Some(m) ==> meta_from(m, self.model()),
    {
        let plic = match self.plic {
            Some(a) => a,
            None => {
                return None;
            },
        };
        let clint = match self.clint {
            Some(a) => a,
            None => {
                return None;
            },
        };
        let (initrd_start, initrd_end) = match (self.initrd_start, self.initrd_end) {
            (Some(a), Some(b)) => (a, b),
            _ => (0u64, 0u64),
        };
        let mut harts = harts_new();
        let mut k: usize = 0;
        while k < 16
            invariant
                k <= 16,
                self.cpus@.len() == 16,
                self.contexts@.len() == 64,
                hart_items(harts) == harts_upto(self.cpus@, self.contexts@, k as int),
                hart_items(harts).len() <= k,
            decreases 16 - k,
        {
            let c = self.cpus[k];
            match c {
                (Some(h), Some(ph)) => {
                    match context_of(&self.contexts, ph as u32) {
                        Some(pos) => {
                            let ok = harts_try_push(&mut harts, Hart { hartid: h, plic_context: pos as u64 });
                        },
                        None => {},
                    }
                },
                _ => {},
            }
            k = k + 1;
            assert(hart_items(harts) =~= harts_upto(self.cpus@, self.contexts@, k as int));
        }
        let mut devices = devices_new();
        let mut k: usize = 16;
        while k > 0
            invariant
                k <= 16,
                self.virtio@.len() == 16,
                device_items(devices) == devices_down(self.virtio@, k as int),
                device_items(devices).len() <= 16 - k,
            decreases k,
        {
            let v = self.virtio[k - 1];
            match v {
                (Some((b, sz)), Some(irq)) => {
                    let ok = devices_try_push(&mut devices, Device { base_address: b, size: sz, irq });
                },
                _ => {},
            }
            k = k - 1;
            assert(device_items(devices) =~= devices_down(self.virtio@, k as int));
        }
        let ghost unsorted_harts = hart_items(harts);
        let ghost unsorted_devices = device_items(devices);
        harts_sort_by_id(&mut harts);
        devices_sort_by_base(&mut devices);
        Some(MachineMeta {
            physical_memory_offset: self.memory.0,
            physical_memory_size: self.memory.1,
            harts,
            uart_type: self.uart_type,
            uart_address: self.uart_address,
            plic_address: plic,
            clint_address: clint,
            virtio: devices,
            bootargs: self.bootargs,
            initrd_start,
            initrd_end,
        })
    }
}

/// The first S-mode context whose hart-controller handle is `handle`.
fn context_of(c: &Vec<Option<u32>>, handle: u32) -> (r: Option<usize>)
    ensures
        r matches Some(k) ==> position_from(c@, Some(handle), 0) == k,
        r is None ==> position_from(c@, Some(handle), 0) == -1,
{
    let mut k: usize = 0;
    while k < c.len()
        invariant
            k <= c@.len(),
            position_from(c@, Some(handle), 0) == position_from(c@, Some(handle), k as int),
        decreases c@.len() - k,
    {
        match c[k] {
            Some(x) => {
                if x == handle {
                    return Some(k);
                }
            },
            None => {},
        }
        k = k + 1;
    }
    None
}

/// Reading one more event.
pub proof fn lemma_parse_events_step(evs: Seq<FdtEvent>, nodes: Seq<u8>, n: int)
    requires
        0 <= n,
    ensures
        parse_events(evs, nodes, 0) == Some(parse_start()),
        parse_events(evs, nodes, n + 1) == match parse_events(evs, nodes, n) {
            None => None,
            Some(st) => match evs[n] {
                FdtEvent::Node { .. } => Some(st),
                FdtEvent::Prop { path, units, name, offset } => parse_prop(st, path, units, name, prop_bytes(nodes, offset)),
            },
        },
{
    reveal(parse_events);
}

proof fn lemma_parse_events_none(evs: Seq<FdtEvent>, nodes: Seq<u8>, n: int, m: int)
    requires
        0 <= n <= m,
        parse_events(evs, nodes, n) is None,
    ensures
        parse_events(evs, nodes, m) is None,
    decreases m - n,
{
    if n < m {
        lemma_parse_events_none(evs, nodes, n, m - 1);
        lemma_parse_events_step(evs, nodes, m - 1);
    }
}

/// Whether the tree whose blocks are `nodes` and `strings`, where it reads at all, names both
/// the interrupt controller and the timer.
pub open spec fn has_controllers(nodes: Seq<u8>, strings: Seq<u8>) -> bool {
    spec_parse(nodes, strings) matches Some(m) ==> m.plic is Some && m.clint is Some
}

impl Fdt {
    /// What the hypervisor reads from the device tree, for a tree that names its interrupt
    /// controller and timer (the hypervisor cannot run without them): as `try_parse` says.
    /// `None` where the walk fails or a property it reads is malformed or overflows its room.
    pub fn parse(&self) -> (r: Option<MachineMeta>)
        requires
            self.wf(),
            self@.len() + 8 <= usize::MAX,
            has_controllers(self.nodes(), self.strings()),
        ensures
            r is None <==> spec_parse(self.nodes(), self.strings()) is None,
            r matches Some(m) ==> meta_from(m, spec_parse(self.nodes(), self.strings())->0),
    {
        self.try_parse()
    }

    /// What the hypervisor reads from the device tree: memory, harts, serial port, interrupt
    /// controller, timer, virtio devices, command line and initial ramdisk. `None` where the
    /// walk fails, a property it reads is malformed or overflows its room, or the interrupt
    /// controller or the timer is missing.
    pub fn try_parse(&self) -> (r: Option<MachineMeta>)
        requires
            self.wf(),
            self@.len() + 8 <= usize::MAX,
        ensures
            r is None <==> (spec_parse(self.nodes(), self.strings()) is None
                || spec_parse(self.nodes(), self.strings())->0.plic is None
                || spec_parse(self.nodes(), self.strings())->0.clint is None),
            r matches Some(m) ==> meta_from(m, spec_parse(self.nodes(), self.strings())->0),
    {
        let visits = match self.walk() {
            None => {
                return None;
            },
            Some(v) => v,
        };
        let ghost evs = events_of(visits@);
        let ghost nn = self.nodes();
        let mut acc = ParseAcc::new();
        let mut k: usize = 0;
        proof {
            lemma_parse_events_step(evs, nn, 0);
        }
        while k < visits.len()
            invariant
                k <= visits@.len(),
                evs == events_of(visits@),
                nn == self.nodes(),
                walk_from(nn, self.strings(), 0, Seq::empty(), Seq::empty()) == Some(evs),
                visits_hold_props(visits@, nn),
                parse_events(evs, nn, k as int) == Some(acc.model()),
                parse_model_wf(acc.model()),
                acc.model().bootargs.len() <= 256,
            decreases visits@.len() - k,
        {
            assert(evs[k as int] == visits@[k as int].event());
            proof {
                lemma_parse_events_step(evs, nn, k as int);
            }
            match &visits[k] {
                FdtVisit::Node { .. } => {},
                FdtVisit::Property { path, unit_addresses, name, prop, offset } => {
                    assert(visits@[k as int] matches FdtVisit::Property { .. });
                    proof {
                        lemma_parse_prop_wf(acc.model(), path@, unit_addresses@, name@, prop@);
                    }
                    if !acc.take(path, unit_addresses, name, prop) {
                        proof {
                            lemma_parse_events_none(evs, nn, k + 1, evs.len() as int);
                        }
                        return None;
                    }
                },
            }
            k = k + 1;
        }
        acc.finish()
    }
}

/// What preparing the device tree for the guest makes of the structure block `cur` at the
/// property named `name`, at byte `offset` of the unchanged block `nodes`, in the node at
/// `path`: the command line goes into the start of `/chosen`'s `bootargs` value, and the
/// memory size in `/memory`'s `reg` becomes `size`. `None` where the command line does not fit
/// or the memory range is malformed.
pub open spec fn guest_prop(cur: Seq<u8>, nodes: Seq<u8>, path: Seq<u8>, name: Seq<u8>, offset: int, size: u64, bootargs: Seq<u8>) -> Option<Seq<u8>> {
    let p = prop_bytes(nodes, offset);
    if path == "/chosen".spec_bytes() && name == "bootargs".spec_bytes() {
        if p.len() - 12 >= bootargs.len() {
            Some(overwritten(cur, offset + 12, bootargs))
        } else {
            None
        }
    } else if path == "/memory".spec_bytes() && name == "reg".spec_bytes() {
        match spec_read_range(p) {
            Some(r) => Some(overwritten(cur, offset + 12, be_bytes(r.0 as nat, 8) + be_bytes(size as nat, 8))),
            None => None,
        }
    } else {
        Some(cur)
    }
}

/// The structure block `nodes` once the first `n` events of a walk over it are prepared for
/// the guest.
#[verifier::opaque]
pub open spec fn guest_events(evs: Seq<FdtEvent>, nodes: Seq<u8>, size: u64, bootargs: Seq<u8>, n: int) -> Option<Seq<u8>>
    decreases n,
{
    if n <= 0 {
        Some(nodes)
    } else {
        match guest_events(evs, nodes, size, bootargs, n - 1) {
            None => None,
            Some(cur) => match evs[n - 1] {
                FdtEvent::Node { .. } => Some(cur),
                FdtEvent::Prop { path, name, offset, .. } => guest_prop(cur, nodes, path, name, offset, size, bootargs),
            },
        }
    }
}

/// The structure block of the device tree whose blocks are `nodes` and `strings`, prepared
/// for a guest with `size` bytes of memory and the command line `bootargs`.
pub open spec fn spec_initialize(nodes: Seq<u8>, strings: Seq<u8>, size: u64, bootargs: Seq<u8>) -> Option<Seq<u8>> {
    match walk_from(nodes, strings, 0, Seq::empty(), Seq::empty()) {
        None => None,
        Some(evs) => guest_events(evs, nodes, size, bootargs, evs.len() as int),
    }
}

proof fn lemma_guest_events_step(evs: Seq<FdtEvent>, nodes: Seq<u8>, size: u64, bootargs: Seq<u8>, n: int)
    requires
        0 <= n,
    ensures
        guest_events(evs, nodes, size, bootargs, 0) == Some(nodes),
        guest_events(evs, nodes, size, bootargs, n + 1) == match guest_events(evs, nodes, size, bootargs, n) {
            None => None,
            Some(cur) => match evs[n] {
                FdtEvent::Node { .. } => Some(cur),
                FdtEvent::Prop { path, name, offset, .. } => guest_prop(cur, nodes, path, name, offset, size, bootargs),
            },
        },
{
    reveal(guest_events);
}

proof fn lemma_guest_events_none(evs: Seq<FdtEvent>, nodes: Seq<u8>, size: u64, bootargs: Seq<u8>, n: int, m: int)
    requires
        0 <= n <= m,
        guest_events(evs, nodes, size, bootargs, n) is None,
    ensures
        guest_events(evs, nodes, size, bootargs, m) is None,
    decreases m - n,
{
    if n < m {
        lemma_guest_events_none(evs, nodes, size, bootargs, n, m - 1);
        lemma_guest_events_step(evs, nodes, size, bootargs, m - 1);
    }
}

/// Writes `bytes` into `b` from byte `offset` on.
fn write_bytes(b: &mut Vec<u8>, offset: usize, bytes: &[u8])
    requires
        offset + bytes@.len() <= old(b)@.len(),
    ensures
        final(b)@ == overwritten(old(b)@, offset as int, bytes@),
{
    let mut k: usize = 0;
    let n = b.len();
    while k < bytes.len()
        invariant
            k <= bytes@.len(),
            n == b@.len(),
            offset + bytes@.len() <= b@.len(),
            b@.len() == old(b)@.len(),
            b@ == old(b)@.subrange(0, offset as int) + bytes@.subrange(0, k as int)
                + old(b)@.subrange(offset + k, old(b)@.len() as int),
        decreases bytes@.len() - k,
    {
        b.set(offset + k, bytes[k]);
        k = k + 1;
        assert(b@ =~= old(b)@.subrange(0, offset as int) + bytes@.subrange(0, k as int)
            + old(b)@.subrange(offset + k, old(b)@.len() as int));
    }
    assert(bytes@.subrange(0, k as int) =~= bytes@);
}

impl Fdt {
    /// Prepares the device tree for the guest: the command line `bootargs` goes into the start
    /// of `/chosen`'s `bootargs` value, and the memory size in `/memory`'s `reg` becomes
    /// `guest_memory_size`. `false`, with the tree unchanged, where the walk fails, the command
    /// line does not fit its property, or the memory range is malformed.
    pub fn initialize_guest(&mut self, guest_memory_size: u64, bootargs: &str) -> (r: bool)
        requires
            old(self).wf(),
            old(self)@.len() + 8 <= usize::MAX,
        ensures
            r == spec_initialize(old(self).nodes(), old(self).strings(), guest_memory_size, bootargs.spec_bytes()) is Some,
            r ==> final(self)@ == overwritten(old(self)@, be32(old(self)@, 8) as int,
                spec_initialize(old(self).nodes(), old(self).strings(), guest_memory_size, bootargs.spec_bytes())->0),
            !r ==> final(self)@ == old(self)@,
    {
        let visits = match self.walk() {
            None => {
                return false;
            },
            Some(v) => v,
        };
        let ghost evs = events_of(visits@);
        let ghost nn = self.nodes();
        let ghost args = bootargs.spec_bytes();
        let off_struct = be_read_u32(&self.blob, 8) as usize;
        let size_struct = be_read_u32(&self.blob, 36) as usize;
        let mut cur = copy_range(&self.blob, off_struct, off_struct + size_struct);
        let args_bytes = bootargs.as_bytes();
        let mut k: usize = 0;
        proof {
            lemma_guest_events_step(evs, nn, guest_memory_size, args, 0);
        }
        while k < visits.len()
            invariant
                k <= visits@.len(),
                evs == events_of(visits@),
                nn == self.nodes(),
                args == bootargs.spec_bytes(),
                args_bytes@ == args,
                walk_from(nn, self.strings(), 0, Seq::empty(), Seq::empty()) == Some(evs),
                visits_hold_props(visits@, nn),
                self@ == old(self)@,
                self.wf(),
                guest_events(evs, nn, guest_memory_size, args, k as int) == Some(cur@),
                cur@.len() == nn.len(),
            decreases visits@.len() - k,
        {
            assert(evs[k as int] == visits@[k as int].event());
            proof {
                lemma_guest_events_step(evs, nn, guest_memory_size, args, k as int);
            }
            match &visits[k] {
                FdtVisit::Node { .. } => {},
                FdtVisit::Property { path, name, prop, offset, .. } => {
                    assert(visits@[k as int] matches FdtVisit::Property { .. });
                    let ghost pb = prop_bytes(nn, *offset as int);
                    assert(prop@ == pb);
                    if bytes_equal(path, "/chosen") && bytes_equal(name, "bootargs") {
                        let room = prop.bytes.len() - 12;
                        if room < args_bytes.len() {
                            proof {
                                lemma_guest_events_none(evs, nn, guest_memory_size, args, k + 1, evs.len() as int);
                            }
                            return false;
                        }
                        write_bytes(&mut cur, *offset + 12, args_bytes);
                    } else if bytes_equal(path, "/memory") && bytes_equal(name, "reg") {
                        match prop.read_range() {
                            None => {
                                proof {
                                    lemma_guest_events_none(evs, nn, guest_memory_size, args, k + 1, evs.len() as int);
                                }
                                return false;
                            },
                            Some(region) => {
                                let mut new_region: [u8; 16] = [0; 16];
                                be_write_u64(&mut new_region, 0, region.0);
                                be_write_u64(&mut new_region, 8, guest_memory_size);
                                proof {
                                    lemma_be_bytes_len(region.0 as nat, 8);
                                    lemma_be_bytes_len(guest_memory_size as nat, 8);
                                    assert(new_region@ =~= be_bytes(region.0 as nat, 8) + be_bytes(guest_memory_size as nat, 8));
                                }
                                write_bytes(&mut cur, *offset + 12, &new_region);
                            },
                        }
                    }
                },
            }
            k = k + 1;
        }
        write_bytes(&mut self.blob, off_struct, cur.as_slice());
        true
    }
}


impl MachineMeta {
    /// The machine's harts, in order.
    pub fn hart_list(&self) -> (r: Vec<Hart>)
        ensures
            r@ == hart_items(self.harts),
    {
        let n = harts_len(&self.harts);
        let mut v: Vec<Hart> = Vec::new();
        let mut k: usize = 0;
        while k < n
            invariant
                k <= n,
                n == hart_items(self.harts).len(),
                v@ == hart_items(self.harts).subrange(0, k as int),
            decreases n - k,
        {
            v.push(harts_get(&self.harts, k));
            k = k + 1;
            assert(v@ =~= hart_items(self.harts).subrange(0, k as int));
        }
        assert(v@ =~= hart_items(self.harts));
        v
    }

    /// The machine's virtio devices, in order.
    pub fn virtio_list(&self) -> (r: Vec<Device>)
        ensures
            r@ == device_items(self.virtio),
    {
        let n = devices_len(&self.virtio);
        let mut v: Vec<Device> = Vec::new();
        let mut k: usize = 0;
        while k < n
            invariant
                k <= n,
                n == device_items(self.virtio).len(),
                v@ == device_items(self.virtio).subrange(0, k as int),
            decreases n - k,
        {
            v.push(devices_get(&self.virtio, k));
            k = k + 1;
            assert(v@ =~= device_items(self.virtio).subrange(0, k as int));
        }
        assert(v@ =~= device_items(self.virtio));
        v
    }

    /// The kernel command line's bytes.
    pub fn command_line(&self) -> (r: Vec<u8>)
        ensures
            r@ == bootargs_bytes(self.bootargs),
    {
        let n = bootargs_len(&self.bootargs);
        let mut v: Vec<u8> = Vec::new();
        let mut k: usize = 0;
        while k < n
            invariant
                k <= n,
                n == bootargs_bytes(self.bootargs).len(),
                v@ == bootargs_bytes(self.bootargs).subrange(0, k as int),
            decreases n - k,
        {
            v.push(bootargs_byte(&self.bootargs, k));
            k = k + 1;
            assert(v@ =~= bootargs_bytes(self.bootargs).subrange(0, k as int));
        }
        assert(v@ =~= bootargs_bytes(self.bootargs));
        v
    }
}

/// Where the node whose contents start at byte `i` of the structure block `nodes`, `depth`
/// levels deep, ends: just past the end-node token that closes it, nested nodes and
/// properties skipped whole (no-op and unknown tokens one word at a time). `None` where a token
/// is misplaced, a name or property runs past the block, or the end token or the block's end
/// comes first.
pub open spec fn node_end(nodes: Seq<u8>, i: int, depth: nat) -> Option<int>
    decreases nodes.len() + 3 - i,
{
    if i < 0 || i % 4 != 0 || i + 4 > nodes.len() {
        None
    } else {
        let token = be32(nodes, i);
        if token == FDT_END {
            None
        } else if token == FDT_END_NODE {
            if depth <= 1 {
                Some(i + 4)
            } else {
                node_end(nodes, i + 4, (depth - 1) as nat)
            }
        } else if token == FDT_BEGIN_NODE {
            let nul = find_byte(nodes, i + 4, 0);
            if nul >= nodes.len() {
                None
            } else {
                proof {
                    lemma_find_byte_bounds(nodes, i + 4, 0);
                    lemma_round4_bounds(nul);
                }
                node_end(nodes, spec_round4(nul), depth + 1)
            }
        } else if token == FDT_PROP {
            let total = 12 + spec_round4(be32(nodes, i + 4) as int);
            if i + 8 > nodes.len() || i + total > nodes.len() {
                None
            } else {
                proof {
                    lemma_round4_bounds(be32(nodes, i + 4) as int);
                }
                node_end(nodes, i + total, depth)
            }
        } else {
            node_end(nodes, i + 4, depth)
        }
    }
}

/// The extent of the node whose begin-node token is at byte `offset` of `nodes`: from that
/// token to just past its end-node token. `None` where no begin-node token is there or the
/// node has no end.
pub open spec fn node_extent(nodes: Seq<u8>, offset: int) -> Option<int> {
    if offset < 0 || offset % 4 != 0 || offset + 4 > nodes.len() || be32(nodes, offset) != FDT_BEGIN_NODE {
        None
    } else {
        let nul = find_byte(nodes, offset + 4, 0);
        if nul >= nodes.len() {
            None
        } else {
            node_end(nodes, spec_round4(nul), 1)
        }
    }
}

/// `n` words of the no-op token, big-endian.
pub open spec fn nop_words(n: nat) -> Seq<u8> {
    Seq::new(4 * n, |k: int| be_bytes(FDT_NOP as nat, 4)[k % 4])
}

/// Where the node ends, as `node_end` says.
fn find_node_end(nodes: &Vec<u8>, start: usize) -> (r: Option<usize>)
    requires
        nodes@.len() + 8 <= usize::MAX,
    ensures
        match r {
            Some(e) => node_end(nodes@, start as int, 1) == Some(e as int),
            None => node_end(nodes@, start as int, 1) is None,
        },
{
    let ghost nn = nodes@;
    let mut i = start;
    let mut depth: usize = 1;
    while i < nodes.len()
        invariant
            nodes@ == nn,
            nn.len() + 8 <= usize::MAX,
            depth >= 1,
            depth <= i + 1,
            node_end(nn, start as int, 1) == node_end(nn, i as int, depth as nat),
        decreases nn.len() + 3 - i,
    {
        if i % 4 != 0 || i + 4 > nodes.len() {
            return None;
        }
        let token = be_read_u32(nodes, i);
        assert(token == be32(nn, i as int));
        if token == FDT_END {
            return None;
        } else if token == FDT_END_NODE {
            if depth <= 1 {
                return Some(i + 4);
            }
            depth = depth - 1;
            i = i + 4;
        } else if token == FDT_BEGIN_NODE {
            let nul = find_from(nodes, i + 4, 0);
            if nul >= nodes.len() {
                return None;
            }
            proof {
                lemma_round4_bounds(nul as int);
            }
            let j = round4(nul);
            depth = depth + 1;
            i = j;
        } else if token == FDT_PROP {
            if i + 8 > nodes.len() {
                return None;
            }
            let len = be_read_u32(nodes, i + 4) as usize;
            proof {
                lemma_round4_bounds(len as int);
            }
            let room = nodes.len() - i;
            if len > room {
                return None;
            }
            let r4 = round4(len);
            if room < 12 || r4 > room - 12 {
                return None;
            }
            i = i + 12 + r4;
        } else {
            i = i + 4;
        }
    }
    None
}

/// Writes `words` words of the no-op token into `b` from byte `base` on.
fn write_nops(b: &mut Vec<u8>, base: usize, words: usize)
    requires
        base + 4 * words <= old(b)@.len(),
    ensures
        final(b)@ == overwritten(old(b)@, base as int, nop_words(words as nat)),
{
    let ghost b0 = b@;
    proof {
        lemma_be_bytes_len(FDT_NOP as nat, 4);
    }
    let mut w: usize = 0;
    assert(overwritten(b0, base as int, nop_words(0)) =~= b0);
    while w < words
        invariant
            w <= words,
            base + 4 * words <= b0.len(),
            b0.len() == b@.len(),
            b@ == overwritten(b0, base as int, nop_words(w as nat)),
            be_bytes(FDT_NOP as nat, 4).len() == 4,
        decreases words - w,
    {
        let blen = b.len();
        assert(base + 4 * w + 4 <= blen) by (nonlinear_arith)
            requires
                w < words,
                base + 4 * words <= blen,
        ;
        be_write_u32(b, base + 4 * w, FDT_NOP);
        proof {
            assert(b@ =~= overwritten(b0, base as int, nop_words((w + 1) as nat)));
        }
        w = w + 1;
    }
}

impl Fdt {
    /// Masks out the node whose begin-node token is at byte `offset` of the structure block:
    /// every word from that token through its end-node token becomes the no-op token, so walks
    /// pass over the node and everything in it. `false`, with the tree unchanged, where no
    /// begin-node token is there or the node has no end.
    pub fn mask_node(&mut self, offset: usize) -> (r: bool)
        requires
            old(self).wf(),
            old(self)@.len() + 8 <= usize::MAX,
        ensures
            r == node_extent(old(self).nodes(), offset as int) is Some,
            r ==> final(self)@ == overwritten(old(self)@, be32(old(self)@, 8) + offset,
                nop_words(((node_extent(old(self).nodes(), offset as int)->0 - offset) / 4) as nat)),
            !r ==> final(self)@ == old(self)@,
    {
        let off_struct = be_read_u32(&self.blob, 8) as usize;
        let size_struct = be_read_u32(&self.blob, 36) as usize;
        let nodes = copy_range(&self.blob, off_struct, off_struct + size_struct);
        let ghost nn = self.nodes();
        let ghost b0 = self@;
        if offset % 4 != 0 || offset > nodes.len() || nodes.len() - offset < 4 {
            return false;
        }
        if be_read_u32(&nodes, offset) != FDT_BEGIN_NODE {
            return false;
        }
        let nul = find_from(&nodes, offset + 4, 0);
        if nul >= nodes.len() {
            return false;
        }
        proof {
            lemma_round4_bounds(nul as int);
        }
        let start = round4(nul);
        let end = match find_node_end(&nodes, start) {
            Some(e) => e,
            None => {
                return false;
            },
        };
        proof {
            lemma_node_end_bounds(nn, start as int, 1);
            lemma_be_bytes_len(FDT_NOP as nat, 4);
        }
        assert(offset < end <= nn.len() && (end - offset) % 4 == 0);
        let base = off_struct + offset;
        let words = (end - offset) / 4;
        assert(4 * words == end - offset);
        write_nops(&mut self.blob, base, words);
        true
    }
}

/// A node ends past where it starts, on a word boundary, within the block.
#[verifier::spinoff_prover]
#[verifier::rlimit(40)]
pub proof fn lemma_node_end_bounds(nodes: Seq<u8>, i: int, depth: nat)
    ensures
        node_end(nodes, i, depth) matches Some(e) ==> i < e <= nodes.len() && (e - i) % 4 == 0 && e % 4 == 0,
    decreases nodes.len() + 3 - i,
{
    if i >= 0 && i % 4 == 0 && i + 4 <= nodes.len() {
        let token = be32(nodes, i);
        if token == FDT_END_NODE {
            if depth > 1 {
                lemma_node_end_bounds(nodes, i + 4, (depth - 1) as nat);
            }
        } else if token == FDT_BEGIN_NODE {
            let nul = find_byte(nodes, i + 4, 0);
            lemma_find_byte_bounds(nodes, i + 4, 0);
            if nul < nodes.len() {
                lemma_round4_bounds(nul);
                lemma_node_end_bounds(nodes, spec_round4(nul), depth + 1);
            }
        } else if token == FDT_PROP {
            lemma_round4_bounds(be32(nodes, i + 4) as int);
            let total = 12 + spec_round4(be32(nodes, i + 4) as int);
            if !(i + 8 > nodes.len() || i + total > nodes.len()) {
                lemma_node_end_bounds(nodes, i + total, depth);
            }
        } else if token != FDT_END {
            lemma_node_end_bounds(nodes, i + 4, depth);
        }
    }
}

} // verus!
