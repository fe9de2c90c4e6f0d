//! Physical memory protection: the layout of the configuration registers, and the encoding and
//! decoding of the address ranges the entries cover.
use vstd::prelude::*;

verus! {

pub const READ: u8 = 0x1;
pub const WRITE: u8 = 0x2;
pub const EXEC: u8 = 0x4;

/// Where the address-matching mode sits in an entry's configuration byte, and its values.
pub const PMP_A_SHIFT: u8 = 3;
pub const PMP_A_OFF: u8 = 0x0;
pub const PMP_A_TOR: u8 = 0x1;
pub const PMP_A_NA4: u8 = 0x2;
pub const PMP_A_NAPOT: u8 = 0x3;

/// The address-matching modes, in place in a configuration byte.
pub const MODE_OFF: u8 = 0x00;
pub const MODE_TOR: u8 = 0x08;
pub const MODE_NA4: u8 = 0x10;
pub const MODE_NAPOT: u8 = 0x18;
pub const RESERVED1: u8 = 0x20;
pub const RESERVED2: u8 = 0x40;
pub const LOCK: u8 = 0x80;

/// The position of entry `entry`'s configuration byte within its register.
pub open spec fn config_shift(entry: u8) -> u64 {
    ((entry & 7) * 8) as u64
}

/// Entry `entry`'s configuration byte, from the configuration registers `cfg0` (entries 0 to
/// 7) and `cfg2` (entries 8 to 15).
pub open spec fn spec_config_of(entry: u8, cfg0: u64, cfg2: u64) -> u8 {
    (if entry < 8 { cfg0 } else { cfg2 } >> config_shift(entry)) as u8
}

proof fn lemma_entry_low(entry: u8)
    by (bit_vector)
    ensures
        entry & 7 <= 7,
{
}

/// Entry `entry`'s configuration byte, from the configuration registers `cfg0` (entries 0 to
/// 7) and `cfg2` (entries 8 to 15).
pub fn read_pmp_config(entry: u8, cfg0: u64, cfg2: u64) -> (r: u8)
    requires
        entry <= 15,
    ensures
        r == spec_config_of(entry, cfg0, cfg2),
{
    let low = entry & 7;
    proof {
        lemma_entry_low(entry);
    }
    let shift = (low as u64) * 8;
    let reg = if entry < 8 { cfg0 } else { cfg2 };
    #[verifier::truncate] ((reg >> shift) as u8)
}

/// The configuration register that holds entry `entry`, `reg`, once the entry's byte is
/// `config`: the byte is cleared, then set to `config`.
pub open spec fn spec_config_written(reg: u64, entry: u8, config: u8) -> u64 {
    (reg & !(0xffu64 << config_shift(entry))) | ((config as u64) << config_shift(entry))
}

/// The configuration register that holds entry `entry`, `reg`, once the entry's byte is
/// `config`.
pub fn write_pmp_config(reg: u64, entry: u8, config: u8) -> (r: u64)
    requires
        entry <= 15,
    ensures
        r == spec_config_written(reg, entry, config),
{
    let low = entry & 7;
    proof {
        lemma_entry_low(entry);
    }
    let shift = (low as u64) * 8;
    (reg & !(0xffu64 << shift)) | ((config as u64) << shift)
}

/// Whether an entry whose configuration byte is `config` may be changed: it is not locked.
pub fn entry_unlocked(config: u8) -> (r: bool)
    ensures
        r == (config & LOCK == 0),
{
    config & LOCK == 0
}

/// The number whose low `m` bits are ones, and the others zeros.
pub open spec fn low_ones(m: u64) -> u64 {
    ((1u64 << m) - 1) as u64
}

/// The number of consecutive one bits at the bottom of `x`.
pub open spec fn trailing_ones(x: u64) -> nat
    decreases x,
{
    if x & 1 == 1 {
        proof {
            assert(x & 1 == 1 ==> (x >> 1u64) < x) by (bit_vector);
        }
        1 + trailing_ones(x >> 1u64)
    } else {
        0
    }
}

/// Where the low `m` bits of `x` are ones and bit `m` is zero, `x` has exactly `m` trailing
/// ones.
proof fn lemma_trailing_ones_exact(x: u64, m: u64)
    requires
        m < 64,
        x & low_ones(m) == low_ones(m),
        x & (1u64 << m) == 0,
    ensures
        trailing_ones(x) == m,
    decreases m,
{
    assert((m == 0 && x & (1u64 << m) == 0 ==> x & 1 == 0) && (0 < m < 64 && x & low_ones(m) == low_ones(m)
        && x & (1u64 << m) == 0 ==> {
            &&& x & 1 == 1
            &&& (x >> 1u64) & low_ones((m - 1) as u64) == low_ones((m - 1) as u64)
            &&& (x >> 1u64) & (1u64 << (m - 1) as u64) == 0
        })) by (bit_vector);
    if m > 0 {
        lemma_trailing_ones_exact(x >> 1u64, (m - 1) as u64);
    }
}

/// The number of trailing one bits of `address`, and `address` with them cleared.
pub fn extract_napot_bits(address: u64) -> (r: (u8, u64))
    requires
        address != u64::MAX,
    ensures
        r.0 == trailing_ones(address),
        r.0 < 64,
        r.1 == (address >> r.0 as u64) << r.0 as u64,
{
    let mut bits: u8 = 0;
    let mut shifted = address;
    assert(address & low_ones(0u64) == low_ones(0u64) && address >> 0u64 == address) by (bit_vector);
    while shifted & 1 == 1
        invariant
            bits < 64,
            address != u64::MAX,
            bits + trailing_ones(shifted) == trailing_ones(address),
            shifted == address >> bits as u64,
            address & low_ones(bits as u64) == low_ones(bits as u64),
        decreases shifted,
    {
        let ghost b = bits as u64;
        assert((shifted >> 1u64) < shifted && b < 63 && (address >> b) >> 1u64 == address >> (b + 1) as u64
            && address & low_ones((b + 1) as u64) == low_ones((b + 1) as u64)) by (bit_vector)
            requires
                b < 64,
                address != u64::MAX,
                shifted == address >> b,
                shifted & 1 == 1,
                address & low_ones(b) == low_ones(b),
        ;
        bits = bits + 1;
        shifted = shifted >> 1u64;
    }
    (bits, shifted << bits as u64)
}

/// The range `[low, high)` an entry covers, from its configuration byte `config` and address
/// register `address`, where the previous entry's address register is `lastaddress`: nothing
/// when off, from the previous entry's address up to its own (top of range), 4 bytes
/// (naturally aligned, 4 bytes), or the naturally aligned power-of-two range that its trailing
/// one bits give (`(0, 0)` for all ones: all of memory).
pub open spec fn spec_decode_pmp_range(config: u8, address: u64, lastaddress: u64) -> (u64, u64) {
    let mode = (config >> 3u8) & 3;
    if mode == PMP_A_OFF {
        (0, 0)
    } else if mode == PMP_A_TOR {
        (lastaddress << 2u64, address << 2u64)
    } else if mode == PMP_A_NA4 {
        (address << 2u64, ((address << 2u64) + 4) as u64)
    } else if address == u64::MAX {
        (0, 0)
    } else {
        let t = trailing_ones(address) as u64;
        let base = (address >> t) << t;
        (base << 2u64, ((base << 2u64) + (8u64 << t)) as u64)
    }
}

/// Whether the end of the range `spec_decode_pmp_range` gives fits in 64 bits.
pub open spec fn decode_fits(config: u8, address: u64) -> bool {
    let mode = (config >> 3u8) & 3;
    &&& mode == PMP_A_NA4 ==> (address << 2u64) + 4 <= u64::MAX
    &&& (mode == PMP_A_NAPOT && address != u64::MAX) ==> {
        let t = trailing_ones(address) as u64;
        (((address >> t) << t) << 2u64) + (8u64 << t) <= u64::MAX
    }
}

/// The range `[low, high)` an entry covers, as `spec_decode_pmp_range` says. (The previous
/// entry's configuration byte plays no part.)
pub fn decode_pmp_range(config: u8, address: u64, _lastconfig: u8, lastaddress: u64) -> (r: (u64, u64))
    requires
        decode_fits(config, address),
    ensures
        r == spec_decode_pmp_range(config, address, lastaddress),
{
    let mode = (config >> PMP_A_SHIFT) & 3;
    if mode == PMP_A_OFF {
        (0, 0)
    } else if mode == PMP_A_TOR {
        (lastaddress << 2u64, address << 2u64)
    } else if mode == PMP_A_NA4 {
        (address << 2u64, (address << 2u64) + 4)
    } else {
        assert(mode == PMP_A_NAPOT) by (bit_vector)
            requires
                mode == (config >> 3u8) & 3,
                mode != 0,
                mode != 1,
                mode != 2,
        ;
        if address == u64::MAX {
            (0, 0)
        } else {
            let (bits, base) = extract_napot_bits(address);
            (base << 2u64, (base << 2u64) + (8u64 << bits as u64))
        }
    }
}

/// The configuration byte and address register of an entry that covers the `size` bytes from
/// `address`: 4 bytes in NA4 mode, a naturally aligned power of two of at least 8 bytes in
/// NAPOT mode. `None` where the address is not 4-byte aligned, or the size is not such a power
/// of two, or the address is not aligned to it.
pub open spec fn spec_napot_entry(config: u8, address: u64, size: u64) -> Option<(u8, u64)> {
    if address & 3 != 0 {
        None
    } else if size == 4 {
        Some((config | MODE_NA4, address >> 2u64))
    } else if size == 0 || size & ((size - 1) as u64) != 0 || address & ((size - 1) as u64) != 0 || size < 8 {
        None
    } else {
        Some((config | MODE_NAPOT, ((address >> 2u64) + (size / 8 - 1)) as u64))
    }
}

/// The configuration byte and address register of an entry that covers the `size` bytes from
/// `address`, as `spec_napot_entry` says.
pub fn install_pmp_napot(config: u8, address: u64, size: u64) -> (r: Option<(u8, u64)>)
    ensures
        r == spec_napot_entry(config, address, size),
{
    if address & 3 != 0 {
        return None;
    }
    if size == 4 {
        return Some((config | MODE_NA4, address >> 2u64));
    }
    if size == 0 || size & (size - 1) != 0 {
        return None;
    }
    if address & (size - 1) != 0 {
        return None;
    }
    if size < 8 {
        return None;
    }
    assert((address >> 2u64) + (size / 8 - 1) <= u64::MAX) by (bit_vector)
        requires
            size >= 8,
    ;
    Some((config | MODE_NAPOT, (address >> 2u64) + (size / 8 - 1)))
}

/// The configuration byte and address register of an entry that covers all of memory.
pub fn install_pmp_allmem(config: u8) -> (r: (u8, u64))
    ensures
        r == (config | MODE_NAPOT, u64::MAX),
{
    (config | MODE_NAPOT, 0xFFFF_FFFF_FFFF_FFFF)
}

/// An entry set up for a naturally aligned power-of-two range covers exactly that range:
/// decoding what `install_pmp_napot` gives for `size == 2^k` bytes at `address` yields
/// `[address, address + size)`. (For four bytes the configuration byte passed in must not
/// already name a matching mode.)
pub proof fn lemma_napot_roundtrip(config: u8, address: u64, size: u64, k: u64, lastaddress: u64)
    requires
        2 <= k < 64,
        size == 1u64 << k,
        address & ((size - 1) as u64) == 0,
        address + size <= u64::MAX,
        size == 4 ==> config & MODE_NAPOT == 0,
    ensures
        spec_napot_entry(config, address, size) matches Some((c, a)) && decode_fits(c, a)
            && spec_decode_pmp_range(c, a, lastaddress) == (address, (address + size) as u64),
{
    let m: u64 = if k >= 3 { (k - 3) as u64 } else { 0 };
    let c = if k == 2 { config | MODE_NA4 } else { config | MODE_NAPOT };
    let a = if k == 2 { address >> 2u64 } else { ((address >> 2u64) + low_ones(m)) as u64 };
    assert(
        (k == 2 ==> size == 4 && address & 3 == 0 && (address >> 2u64) << 2u64 == address && (c >> 3u8) & 3 == 2)
        && (k >= 3 ==> size >= 8 && size != 4 && size & ((size - 1) as u64) == 0 && address & 3 == 0
            && size / 8 - 1 == low_ones(m) && (address >> 2u64) + low_ones(m) <= u64::MAX
            && a & low_ones(m) == low_ones(m) && a & (1u64 << m) == 0
            && (a >> m) << m == address >> 2u64 && a != u64::MAX
            && (address >> 2u64) << 2u64 == address && 8u64 << m == size && (c >> 3u8) & 3 == 3)
    ) by (bit_vector)
        requires
            2 <= k < 64,
            size == 1u64 << k,
            address & ((size - 1) as u64) == 0,
            size == 4 ==> config & 0x18u8 == 0,
            m == (if k >= 3 { k - 3 } else { 0 }),
            c == (if k == 2 { config | 0x10u8 } else { config | 0x18u8 }),
            a == (if k == 2 { address >> 2u64 } else { ((address >> 2u64) + low_ones(m)) as u64 }),
    ;
    if k >= 3 {
        lemma_trailing_ones_exact(a, m);
    }
}

/// Writing an entry's configuration byte and reading it back gives that byte, and leaves the
/// other entries of the same register as they were.
pub proof fn lemma_config_write_read(reg: u64, entry: u8, config: u8, other: u8, cfg_other: u64)
    requires
        entry <= 15,
        other <= 15,
        other != entry,
        (entry < 8) == (other < 8),
    ensures
        spec_config_of(entry, spec_config_written(reg, entry, config), spec_config_written(reg, entry, config)) == config,
        spec_config_of(other, spec_config_written(reg, entry, config), spec_config_written(reg, entry, config))
            == spec_config_of(other, reg, reg),
{
    let s = config_shift(entry);
    let t = config_shift(other);
    let w = spec_config_written(reg, entry, config);
    assert((w >> s) as u8 == config && (w >> t) as u8 == (reg >> t) as u8) by (bit_vector)
        requires
            entry <= 15,
            other <= 15,
            other != entry,
            (entry < 8) == (other < 8),
            s == ((entry & 7) * 8) as u64,
            t == ((other & 7) * 8) as u64,
            w == (reg & !(0xffu64 << s)) | ((config as u64) << s),
    ;
}

/// Whether the range an entry covers fits in 64 bits, as `decode_fits` says.
pub fn range_fits(config: u8, address: u64) -> (r: bool)
    ensures
        r == decode_fits(config, address),
{
    let mode = (config >> PMP_A_SHIFT) & 3;
    if mode == PMP_A_NA4 {
        (address << 2u64).checked_add(4).is_some()
    } else if mode == PMP_A_NAPOT && address != u64::MAX {
        let (bits, base) = extract_napot_bits(address);
        (base << 2u64).checked_add(8u64 << bits as u64).is_some()
    } else {
        true
    }
}

/// One row of the protection table: an entry's number, configuration byte and address
/// register, and, where it is on and its range fits in 64 bits, the first and last byte it
/// covers.
pub struct PmpRow {
    pub entry: u8,
    pub config: u8,
    pub address: u64,
    pub range: Option<(u64, u64)>,
}

/// The last byte of the range `[low, high)`: `high - 1`, wrapping round to the top for a
/// range that ends at the top of memory.
pub open spec fn last_byte(high: u64) -> u64 {
    if high == 0 {
        u64::MAX
    } else {
        (high - 1) as u64
    }
}

/// The row of entry `entry`, whose previous entry's address register is `lastaddress`.
pub open spec fn spec_pmp_row(entry: u8, cfg0: u64, cfg2: u64, address: u64, lastaddress: u64) -> PmpRow {
    let config = spec_config_of(entry, cfg0, cfg2);
    PmpRow {
        entry,
        config,
        address,
        range: if (config >> 3u8) & 3 == PMP_A_OFF || !decode_fits(config, address) {
            None
        } else {
            let r = spec_decode_pmp_range(config, address, lastaddress);
            Some((r.0, last_byte(r.1)))
        },
    }
}

/// The sixteen rows of the protection table, from the configuration registers `cfg0` and
/// `cfg2` and the address registers `addresses`; the entry before the first counts as having
/// address 0.
pub fn pmp_table(cfg0: u64, cfg2: u64, addresses: &[u64; 16]) -> (rows: Vec<PmpRow>)
    ensures
        rows@.len() == 16,
        forall|i: int| 0 <= i < 16 ==> #[trigger] rows@[i] == spec_pmp_row(
            i as u8,
            cfg0,
            cfg2,
            addresses@[i],
            if i == 0 { 0u64 } else { addresses@[i - 1] },
        ),
{
    let mut rows: Vec<PmpRow> = Vec::new();
    let mut lastaddress: u64 = 0;
    let mut entry: u8 = 0;
    while entry < 16
        invariant
            entry <= 16,
            rows@.len() == entry,
            lastaddress == if entry == 0 { 0u64 } else { addresses@[entry - 1] },
            forall|i: int| 0 <= i < entry ==> #[trigger] rows@[i] == spec_pmp_row(
                i as u8,
                cfg0,
                cfg2,
                addresses@[i],
                if i == 0 { 0u64 } else { addresses@[i - 1] },
            ),
        decreases 16 - entry,
    {
        let config = read_pmp_config(entry, cfg0, cfg2);
        let address = addresses[entry as usize];
        let mode = (config >> PMP_A_SHIFT) & 3;
        let range = if mode == PMP_A_OFF || !range_fits(config, address) {
            None
        } else {
            let (low, high) = decode_pmp_range(config, address, 0, lastaddress);
            Some((low, high.wrapping_sub(1)))
        };
        rows.push(PmpRow { entry, config, address, range });
        lastaddress = address;
        entry = entry + 1;
    }
    rows
}

} // verus!
