//! A debugger's view of Sv39 page tables: every entry of every table reached from a root, with
//! what is wrong with it, and the same list with runs of contiguous mappings merged; and the
//! listings of the hypervisor's own tables and of a guest's.
use vstd::prelude::*;
use vstd::string::StringSliceAdditionalSpecFns;
use crate::bits::STATUS_SUM;
use crate::fdt_listing::{hex, hex_digit, spec_hex};
use crate::memory_region::{pte_target, MemoryRegion, PageTableRegion};
use crate::print::{decimal, spec_decimal};

verus! {

/// The paging modes of `satp`.
pub const MODE_NONE: u8 = 0;
pub const MODE_SV39: u8 = 8;
pub const MODE_SV48: u8 = 9;
pub const MODE_SV57_RES: u8 = 10;
pub const MODE_SV64_RES: u8 = 11;

/// What paging mode `mode` of `satp` means.
pub open spec fn mode_name(mode: u8) -> &'static str {
    if mode == MODE_NONE {
        "bare: no translation or protection"
    } else if mode == MODE_SV39 {
        "sv39: page-based 39-bit virtual addressing"
    } else if mode == MODE_SV48 {
        "sv48: page-based 48-bit virtual addressing"
    } else if mode == MODE_SV57_RES {
        "sv57: reserved for page-based 57-bit virtual addressing"
    } else if mode == MODE_SV64_RES {
        "sv64: reserved for page-based 64-bit virtual addressing"
    } else {
        "reserved"
    }
}

/// What paging mode `mode` of `satp` means, as `mode_name` says.
pub fn mode_to_str(mode: u8) -> (r: &'static str)
    ensures
        r@ == mode_name(mode)@,
{
    if mode == MODE_NONE {
        "bare: no translation or protection"
    } else if mode == MODE_SV39 {
        "sv39: page-based 39-bit virtual addressing"
    } else if mode == MODE_SV48 {
        "sv48: page-based 48-bit virtual addressing"
    } else if mode == MODE_SV57_RES {
        "sv57: reserved for page-based 57-bit virtual addressing"
    } else if mode == MODE_SV64_RES {
        "sv64: reserved for page-based 64-bit virtual addressing"
    } else {
        "reserved"
    }
}

/// The fields of `satp`: the paging mode (top 4 bits), the address-space identifier (the 16
/// bits from bit 44) and the root table's page number (the low 44 bits).
pub fn parse_satp(satp: u64) -> (r: (u8, u16, u64))
    ensures
        r == ((satp >> 60u64) as u8, (satp >> 44u64) as u16, satp & 0xfff_ffff_ffff),
{
    (#[verifier::truncate] ((satp >> 60u64) as u8), #[verifier::truncate] ((satp >> 44u64) as u16), satp & 0xfff_ffff_ffff)
}

pub const FLAG_VALID: u8 = 0x01;
pub const FLAG_READ: u8 = 0x02;
pub const FLAG_WRITE: u8 = 0x04;
pub const FLAG_EXEC: u8 = 0x08;
pub const FLAG_USER: u8 = 0x10;
pub const FLAG_GLOBAL: u8 = 0x20;
pub const FLAG_ACCESSED: u8 = 0x40;
pub const FLAG_DIRTY: u8 = 0x80;

/// What is wrong with an entry the walk meets.
#[derive(Copy, Clone, Debug, PartialEq, Eq, Structural)]
pub enum PageWalkError {
    ErrNone,
    ErrUnmapped,
    ErrReserved,
    ErrTooDeep,
    ErrMisalignedSuperpage,
}

/// How a debugger names `err`.
pub open spec fn error_name(err: PageWalkError) -> &'static str {
    match err {
        PageWalkError::ErrNone => "ok",
        PageWalkError::ErrUnmapped => "unmapped",
        PageWalkError::ErrReserved => "reserved bit pattern in use",
        PageWalkError::ErrTooDeep => "page table is too deep",
        PageWalkError::ErrMisalignedSuperpage => "superpage is misaligned",
    }
}

/// How a debugger names `err`, as `error_name` says.
pub fn pwe_to_str(err: PageWalkError) -> (r: &'static str)
    ensures
        r@ == error_name(err)@,
{
    match err {
        PageWalkError::ErrNone => "ok",
        PageWalkError::ErrUnmapped => "unmapped",
        PageWalkError::ErrReserved => "reserved bit pattern in use",
        PageWalkError::ErrTooDeep => "page table is too deep",
        PageWalkError::ErrMisalignedSuperpage => "superpage is misaligned",
    }
}

/// One entry the walk reports: the flag byte and the two software bits of a table entry, the
/// virtual and physical addresses and the length of what it maps, and what is wrong with it.
#[derive(Copy, Clone, Debug, PartialEq, Eq, Structural)]
pub struct WalkEntry {
    pub flags: u8,
    pub rsw: u8,
    pub va: u64,
    pub pa: u64,
    pub len: u64,
    pub err: PageWalkError,
}

pub const LEVELS_SV39: u8 = 3;
pub const SIGN_BITS_SV39: u8 = 25;

/// `v` with its bits above bit `63 - bits` set to copies of that bit.
pub open spec fn spec_sign_extend(v: u64, bits: u8) -> u64 {
    let top = (63 - bits) as u64;
    if (v >> top) & 1 == 1 {
        v | (u64::MAX << top)
    } else {
        v & !(u64::MAX << top)
    }
}

/// `v` with its bits above bit `63 - bits` set to copies of that bit.
fn sign_extend(v: u64, bits: u8) -> (r: u64)
    requires
        bits < 64,
    ensures
        r == spec_sign_extend(v, bits),
{
    let top = (63 - bits) as u64;
    if (v >> top) & 1 == 1 {
        v | (u64::MAX << top)
    } else {
        v & !(u64::MAX << top)
    }
}

/// The pseudo-entry the walk reports after the 256th entry of each table it lists: the hole of
/// non-canonical addresses between the two halves of the Sv39 address space.
pub open spec fn canonical_hole() -> WalkEntry {
    WalkEntry {
        flags: 0,
        rsw: 0,
        va: 0x40_0000_0000,
        pa: 0,
        len: 0xffff_ff80_0000_0000,
        err: PageWalkError::ErrUnmapped,
    }
}

/// The address of the physical page that table entry `pte` names.
pub open spec fn pte_base(pte: u64) -> u64 {
    ((pte >> 10u64) & 0xfff_ffff_ffff) << 12u64
}

/// The bytes an entry of a table at level `i` maps: 4 KiB at level 0, 2 MiB at 1, 1 GiB at 2.
pub open spec fn level_len(i: nat) -> u64 {
    (4096u64 << (9 * i) as u64) as u64
}

/// What is wrong with the leaf entry (or, at level 0, pointer entry) `pte` of a table at level
/// `i`.
pub open spec fn leaf_error(pte: u64, i: nat) -> PageWalkError {
    let flags = pte as u8;
    if flags & 0xf == FLAG_VALID {
        PageWalkError::ErrTooDeep
    } else if flags & FLAG_VALID == 0 {
        PageWalkError::ErrUnmapped
    } else if flags & 0x7 == FLAG_VALID | FLAG_WRITE {
        PageWalkError::ErrReserved
    } else if pte_base(pte) & (level_len(i) - 1) as u64 != 0 {
        PageWalkError::ErrMisalignedSuperpage
    } else {
        PageWalkError::ErrNone
    }
}

/// `o` with `s` put before what it holds.
pub open spec fn prepend(s: Seq<WalkEntry>, o: Option<Seq<WalkEntry>>) -> Option<Seq<WalkEntry>> {
    match o {
        Some(r) => Some(s + r),
        None => None,
    }
}

/// What the walk reports for entries `k` to 511 of the table at physical address `a`, at level
/// `i`, which maps the virtual addresses from `vabase`: for each entry, in order, the entries of
/// the table it points to (above level 0), or the entry itself followed, after entry 255, by
/// the non-canonical hole. `None` where an entry the walk reads lies outside `memory`.
pub open spec fn table_walk(memory: MemoryRegion, a: u64, i: nat, vabase: u64, k: nat) -> Option<Seq<WalkEntry>>
    decreases i, 512 - k,
{
    if k >= 512 {
        Some(Seq::empty())
    } else {
        let addr = a + 8 * k;
        let span = vabase + ((k as u64) << (12 + 9 * i) as u64);
        if addr > u64::MAX || !memory.valid_index(addr as u64) || span > u64::MAX {
            None
        } else {
            let pte = memory.at(addr as u64);
            let va = spec_sign_extend(span as u64, SIGN_BITS_SV39);
            let here = if (pte as u8) & 0xf == FLAG_VALID && i > 0 {
                table_walk(memory, pte_base(pte), (i - 1) as nat, va, 0)
            } else {
                let e = WalkEntry {
                    flags: pte as u8,
                    rsw: ((pte >> 8u64) & 3) as u8,
                    va,
                    pa: pte_base(pte),
                    len: level_len(i),
                    err: leaf_error(pte, i),
                };
                Some(if k == 255 { seq![e, canonical_hole()] } else { seq![e] })
            };
            match here {
                Some(h) => prepend(h, table_walk(memory, a, i, vabase, k + 1)),
                None => None,
            }
        }
    }
}

proof fn lemma_flag_bits(pte: u64)
    by (bit_vector)
    ensures
        (pte >> 8u64) & 3 <= 3,
        ((pte >> 10u64) & 0xfff_ffff_ffff) << 12u64 == ((pte >> 10u64) & 0xfff_ffff_ffff) * 4096,
{
}

/// Appends to `out` what the walk reports for the table at physical address `a`, at level `i`,
/// mapping the virtual addresses from `vabase`; `false` where an entry it reads lies outside
/// `memory`.
fn walk_page_table_iter(memory: &MemoryRegion, a: u64, i: u8, vabase: u64, out: &mut Vec<WalkEntry>) -> (ok: bool)
    requires
        memory.wf(),
        i <= 2,
    ensures
        ok == table_walk(*memory, a, i as nat, vabase, 0) is Some,
        ok ==> final(out)@ == old(out)@ + table_walk(*memory, a, i as nat, vabase, 0)->0,
    decreases i,
{
    let ghost start = out@;
    let ghost whole = table_walk(*memory, a, i as nat, vabase, 0);
    let shift: u64 = 12 + 9 * (i as u64);
    let pagelen: u64 = 4096u64 << (9 * (i as u64));
    let ghost ii = i as u64;
    assert(pagelen >= 4096) by (bit_vector)
        requires
            ii <= 2,
            pagelen == 4096u64 << (9 * ii),
    ;
    let mut entry: u64 = 0;
    while entry < 512
        invariant
            memory.wf(),
            i <= 2,
            shift == 12 + 9 * i,
            pagelen == level_len(i as nat),
            pagelen >= 4096,
            entry <= 512,
            out@.len() >= start.len(),
            out@.subrange(0, start.len() as int) == start,
            whole == table_walk(*memory, a, i as nat, vabase, 0),
            whole == prepend(out@.skip(start.len() as int), table_walk(*memory, a, i as nat, vabase, entry as nat)),
        decreases 512 - entry,
    {
        let ghost before = out@;
        let ghost rest = table_walk(*memory, a, i as nat, vabase, (entry + 1) as nat);
        let addr = match a.checked_add(entry * 8) {
            Some(x) => x,
            None => {
                return false;
            },
        };
        let pte = match memory.get(addr) {
            Some(x) => x,
            None => {
                return false;
            },
        };
        assert(entry < 512 && shift <= 30);
        assert((entry << shift) < 0x100_0000_0000u64) by (bit_vector)
            requires
                entry < 512,
                shift <= 30,
        ;
        let span = match vabase.checked_add(entry << shift) {
            Some(x) => x,
            None => {
                return false;
            },
        };
        let va = sign_extend(span, SIGN_BITS_SV39);
        let flags = #[verifier::truncate] (pte as u8);
        proof {
            lemma_flag_bits(pte);
        }
        let pabase = ((pte >> 10u64) & 0xfff_ffff_ffff) << 12u64;
        if flags & 0xf == FLAG_VALID && i > 0 {
            let ok = walk_page_table_iter(memory, pabase, i - 1, va, out);
            if !ok {
                return false;
            }
            assert(out@.skip(start.len() as int) =~= before.skip(start.len() as int)
                + table_walk(*memory, pabase, (i - 1) as nat, va, 0)->0);
        } else {
            let err = if flags & 0xf == FLAG_VALID {
                PageWalkError::ErrTooDeep
            } else if flags & FLAG_VALID == 0 {
                PageWalkError::ErrUnmapped
            } else if flags & 0x7 == FLAG_VALID | FLAG_WRITE {
                PageWalkError::ErrReserved
            } else if pabase & (pagelen - 1) != 0 {
                PageWalkError::ErrMisalignedSuperpage
            } else {
                PageWalkError::ErrNone
            };
            let rsw = #[verifier::truncate] (((pte >> 8u64) & 3) as u8);
            let e = WalkEntry { flags, rsw, va, pa: pabase, len: pagelen, err };
            out.push(e);
            if entry == 255 {
                out.push(WalkEntry {
                    flags: 0,
                    rsw: 0,
                    va: 0x40_0000_0000,
                    pa: 0,
                    len: 0xffff_ff80_0000_0000,
                    err: PageWalkError::ErrUnmapped,
                });
                assert(out@.skip(start.len() as int) =~= before.skip(start.len() as int) + seq![e, canonical_hole()]);
            } else {
                assert(out@.skip(start.len() as int) =~= before.skip(start.len() as int) + seq![e]);
            }
        }
        entry = entry + 1;
        assert(out@.subrange(0, start.len() as int) =~= start);
    }
    assert(out@ =~= start + out@.skip(start.len() as int));
    true
}

/// What the walk reports for the page tables whose root table is at physical address `root`.
pub fn walk_page_table(memory: &MemoryRegion, root: u64) -> (r: Option<Vec<WalkEntry>>)
    requires
        memory.wf(),
    ensures
        r is None <==> table_walk(*memory, root, 2, 0, 0) is None,
        r matches Some(v) ==> v@ == table_walk(*memory, root, 2, 0, 0)->0,
{
    let mut out: Vec<WalkEntry> = Vec::new();
    if walk_page_table_iter(memory, root, LEVELS_SV39 - 1, 0, &mut out) {
        assert(out@ =~= Seq::<WalkEntry>::empty() + table_walk(*memory, root, 2, 0, 0)->0);
        Some(out)
    } else {
        None
    }
}

/// The run of contiguous entries a compressed walk is building: whether there is one, the flag
/// byte, software bits and error they share, their total length, and the virtual and physical
/// addresses just past their end.
#[derive(Copy, Clone, Debug, PartialEq, Eq, Structural)]
pub struct CompressionWalker {
    pub haslast: bool,
    pub lastflags: u8,
    pub lastrsw: u8,
    pub totallen: u64,
    pub endva: u64,
    pub endpa: u64,
    pub lasterr: PageWalkError,
}

/// The run `w` as one entry, from its start to its end (addresses wrap round at the top).
pub open spec fn retired(w: CompressionWalker) -> WalkEntry {
    WalkEntry {
        flags: w.lastflags,
        rsw: w.lastrsw,
        va: vstd::wrapping::u64_specs::wrapping_sub(w.endva, w.totallen),
        pa: vstd::wrapping::u64_specs::wrapping_sub(w.endpa, w.totallen),
        len: w.totallen,
        err: w.lasterr,
    }
}

/// Whether `e` cannot extend the run `w`: it differs in flags, software bits or error, or does
/// not start where the run ends (physically too, unless it is unmapped).
pub open spec fn breaks_run(w: CompressionWalker, e: WalkEntry) -> bool {
    w.haslast && (e.flags != w.lastflags || e.rsw != w.lastrsw || e.va != w.endva || (e.pa != w.endpa
        && e.err != PageWalkError::ErrUnmapped) || e.err != w.lasterr)
}

/// The run after `e`, and the entries retired meanwhile: a run that `e` breaks is retired; `e`
/// then extends the run or starts a new one; a run that reaches the top of the address space is
/// retired at once.
pub open spec fn compression_step(w: CompressionWalker, e: WalkEntry) -> (CompressionWalker, Seq<WalkEntry>) {
    let out = if breaks_run(w, e) { seq![retired(w)] } else { Seq::empty() };
    let w1 = if breaks_run(w, e) { CompressionWalker { haslast: false, ..w } } else { w };
    let w2 = if w1.haslast {
        CompressionWalker {
            totallen: vstd::wrapping::u64_specs::wrapping_add(w1.totallen, e.len),
            endva: vstd::wrapping::u64_specs::wrapping_add(w1.endva, e.len),
            endpa: vstd::wrapping::u64_specs::wrapping_add(w1.endpa, e.len),
            ..w1
        }
    } else {
        CompressionWalker {
            haslast: true,
            lastflags: e.flags,
            lastrsw: e.rsw,
            totallen: e.len,
            endva: vstd::wrapping::u64_specs::wrapping_add(e.va, e.len),
            endpa: vstd::wrapping::u64_specs::wrapping_add(e.pa, e.len),
            lasterr: e.err,
        }
    };
    if vstd::wrapping::u64_specs::wrapping_add(e.va, e.len) == 0 {
        (CompressionWalker { haslast: false, ..w2 }, out.push(retired(w2)))
    } else {
        (w2, out)
    }
}

/// Feeds the entry (`flags`, `rsw`, `va`, `pa`, `len`, `err`) to the run `walker`, and gives the
/// entries that retires, as `compression_step` says.
pub fn compression_walk(
    flags: u8,
    rsw: u8,
    va: u64,
    pa: u64,
    len: u64,
    err: PageWalkError,
    walker: &mut CompressionWalker,
) -> (r: Vec<WalkEntry>)
    ensures
        (*final(walker), r@) == compression_step(*old(walker), WalkEntry { flags, rsw, va, pa, len, err }),
{
    let mut out: Vec<WalkEntry> = Vec::new();
    if walker.haslast && (flags != walker.lastflags || rsw != walker.lastrsw || va != walker.endva || (pa
        != walker.endpa && err != PageWalkError::ErrUnmapped) || err != walker.lasterr) {
        out.push(
            WalkEntry {
                flags: walker.lastflags,
                rsw: walker.lastrsw,
                va: walker.endva.wrapping_sub(walker.totallen),
                pa: walker.endpa.wrapping_sub(walker.totallen),
                len: walker.totallen,
                err: walker.lasterr,
            },
        );
        walker.haslast = false;
    }
    if walker.haslast {
        walker.totallen = walker.totallen.wrapping_add(len);
        walker.endva = walker.endva.wrapping_add(len);
        walker.endpa = walker.endpa.wrapping_add(len);
    } else {
        walker.haslast = true;
        walker.lastflags = flags;
        walker.lastrsw = rsw;
        walker.totallen = len;
        walker.endva = va.wrapping_add(len);
        walker.endpa = pa.wrapping_add(len);
        walker.lasterr = err;
    }
    if va.wrapping_add(len) == 0 {
        out.push(
            WalkEntry {
                flags: walker.lastflags,
                rsw: walker.lastrsw,
                va: walker.endva.wrapping_sub(walker.totallen),
                pa: walker.endpa.wrapping_sub(walker.totallen),
                len: walker.totallen,
                err: walker.lasterr,
            },
        );
        walker.haslast = false;
    }
    assert(out@ =~= compression_step(*old(walker), WalkEntry { flags, rsw, va, pa, len, err }).1);
    out
}

/// The run a compressed walk starts from: none.
pub open spec fn no_run() -> CompressionWalker {
    CompressionWalker {
        haslast: false,
        lastflags: 0,
        lastrsw: 0,
        totallen: 0,
        endva: 0,
        endpa: 0,
        lasterr: PageWalkError::ErrNone,
    }
}

/// The run after the entries `s`, fed in order from `no_run`, and the entries retired.
pub open spec fn compress(s: Seq<WalkEntry>) -> (CompressionWalker, Seq<WalkEntry>)
    decreases s.len(),
{
    if s.len() == 0 {
        (no_run(), Seq::empty())
    } else {
        let (w, out) = compress(s.drop_last());
        let (w2, more) = compression_step(w, s.last());
        (w2, out + more)
    }
}

/// What the walk of the page tables rooted at `root` reports, with runs of contiguous entries
/// merged, as `compress` says; `None` where an entry the walk reads lies outside `memory`.
pub fn walk_page_table_compressed(memory: &MemoryRegion, root: u64) -> (r: Option<Vec<WalkEntry>>)
    requires
        memory.wf(),
    ensures
        r is None <==> table_walk(*memory, root, 2, 0, 0) is None,
        r matches Some(v) ==> v@ == compress(table_walk(*memory, root, 2, 0, 0)->0).1,
{
    let entries = match walk_page_table(memory, root) {
        Some(v) => v,
        None => {
            return None;
        },
    };
    let mut walker = CompressionWalker {
        haslast: false,
        lastflags: 0,
        lastrsw: 0,
        totallen: 0,
        endva: 0,
        endpa: 0,
        lasterr: PageWalkError::ErrNone,
    };
    let mut out: Vec<WalkEntry> = Vec::new();
    let mut k: usize = 0;
    while k < entries.len()
        invariant
            k <= entries@.len(),
            (walker, out@) == compress(entries@.subrange(0, k as int)),
        decreases entries@.len() - k,
    {
        let e = entries[k];
        assert(entries@.subrange(0, k as int + 1).drop_last() =~= entries@.subrange(0, k as int));
        let more = compression_walk(e.flags, e.rsw, e.va, e.pa, e.len, e.err, &mut walker);
        let mut j: usize = 0;
        let ghost before = out@;
        while j < more.len()
            invariant
                j <= more@.len(),
                out@ == before + more@.subrange(0, j as int),
            decreases more@.len() - j,
        {
            out.push(more[j]);
            j = j + 1;
            assert(out@ =~= before + more@.subrange(0, j as int));
        }
        assert(more@.subrange(0, j as int) =~= more@);
        k = k + 1;
    }
    assert(entries@.subrange(0, k as int) =~= entries@);
    Some(out)
}

/// One line of the listing of the hypervisor's own page tables: a valid entry, at byte
/// `offset` of its table, `depth` levels below the top-level listing's indentation.
#[derive(Copy, Clone, Debug, PartialEq, Eq, Structural)]
pub struct PtLine {
    pub depth: u8,
    pub offset: u64,
    pub pte: u64,
}

/// The lines for entries `i` to 511 of the table at physical address `pt`, at level `level`,
/// in `region`: each valid entry, followed, for a pointer, by the lines of the table it points
/// to. `None` where an entry lies outside the region or a last-level table holds a pointer.
pub open spec fn table_lines(region: PageTableRegion, pt: u64, level: nat, i: nat) -> Option<Seq<PtLine>>
    decreases level, 512 - i,
{
    if i >= 512 {
        Some(Seq::empty())
    } else {
        let a = pt + 8 * i;
        if a > u64::MAX || !region.memory().valid_index(a as u64) {
            None
        } else {
            let pte = region.word(a as u64);
            let own = if pte & 1 != 0 {
                seq![PtLine { depth: (3 - level) as u8, offset: (8 * i) as u64, pte }]
            } else {
                Seq::empty()
            };
            let here = if pte & 0xf == 1 {
                if level == 0 {
                    None
                } else {
                    match table_lines(region, pte_target(pte), (level - 1) as nat, 0) {
                        Some(sub) => Some(own + sub),
                        None => None,
                    }
                }
            } else {
                Some(own)
            };
            match here {
                Some(h) => prepend_lines(h, table_lines(region, pt, level, i + 1)),
                None => None,
            }
        }
    }
}

/// `o` with `s` put before what it holds.
pub open spec fn prepend_lines<T>(s: Seq<T>, o: Option<Seq<T>>) -> Option<Seq<T>> {
    match o {
        Some(r) => Some(s + r),
        None => None,
    }
}

fn append_lines<T: Copy>(out: &mut Vec<T>, more: &Vec<T>)
    ensures
        final(out)@ == old(out)@ + more@,
{
    let mut j: usize = 0;
    while j < more.len()
        invariant
            j <= more@.len(),
            out@ == old(out)@ + more@.subrange(0, j as int),
        decreases more@.len() - j,
    {
        out.push(more[j]);
        j = j + 1;
        assert(out@ =~= old(out)@ + more@.subrange(0, j as int));
    }
    assert(more@.subrange(0, j as int) =~= more@);
}

/// The listing of the hypervisor's page tables from the table at physical address `pt`, at
/// level `level`, as `table_lines` says.
pub fn print_page_table(region: &PageTableRegion, pt: u64, level: u8) -> (r: Option<Vec<PtLine>>)
    requires
        region.wf(),
        level <= 3,
    ensures
        r is None <==> table_lines(*region, pt, level as nat, 0) is None,
        r matches Some(v) ==> v@ == table_lines(*region, pt, level as nat, 0)->0,
    decreases level,
{
    let mut out: Vec<PtLine> = Vec::new();
    let mut i: u64 = 0;
    while i < 512
        invariant
            region.wf(),
            level <= 3,
            i <= 512,
            table_lines(*region, pt, level as nat, 0) == prepend_lines(out@, table_lines(*region, pt, level as nat, i as nat)),
        decreases 512 - i,
    {
        let ghost before = out@;
        let a = match pt.checked_add(i * 8) {
            Some(x) => x,
            None => {
                return None;
            },
        };
        let pte = match region.get(a) {
            Some(x) => x,
            None => {
                return None;
            },
        };
        if pte & 1 != 0 {
            out.push(PtLine { depth: 3 - level, offset: i * 8, pte });
        }
        if pte & 0xf == 1 {
            if level == 0 {
                return None;
            }
            let sub = match print_page_table(region, ((pte >> 10u64) << 12u64), level - 1) {
                Some(v) => v,
                None => {
                    return None;
                },
            };
            append_lines(&mut out, &sub);
        }
        proof {
            let own = if pte & 1 != 0 {
                seq![PtLine { depth: (3 - level) as u8, offset: (8 * i) as u64, pte }]
            } else {
                Seq::<PtLine>::empty()
            };
            if pte & 0xf == 1 {
                assert(out@ =~= before + (own + table_lines(*region, pte_target(pte), (level - 1) as nat, 0)->0));
            } else {
                assert(out@ =~= before + own);
            }
        }
        i = i + 1;
    }
    assert(out@ =~= out@ + Seq::<PtLine>::empty());
    Some(out)
}

/// One line of the listing of a guest's page tables, `depth` levels below the top-level
/// listing's indentation: a root outside guest memory; a pointer to a next-level table (whose
/// lines follow), or one to a page outside guest memory; a leaf mapping `addr` to `target`; an
/// entry without its valid bit.
#[derive(Copy, Clone, Debug, PartialEq, Eq, Structural)]
pub enum GuestPtLine {
    SatpInvalid,
    Pointer { depth: u8, addr: u64, pte: u64 },
    BadPpn { depth: u8, addr: u64, pte: u64 },
    Leaf { depth: u8, addr: u64, target: u64 },
    NotValid { depth: u8, addr: u64, pte: u64 },
}

/// The lines for entries `i` to 511 of the guest table at guest physical address `pt`, at
/// level `level`, mapping the guest virtual addresses from `base`: zero entries show nothing.
/// `None` where an entry lies outside guest memory, an address overflows, or a last-level table
/// holds a pointer.
pub open spec fn guest_table_lines(memory: MemoryRegion, pt: u64, level: nat, base: u64, i: nat) -> Option<Seq<GuestPtLine>>
    decreases level, 512 - i,
{
    if i >= 512 {
        Some(Seq::empty())
    } else {
        let addr = base + ((i as u64) << (12 + 9 * level) as u64);
        let a = pt + 8 * i;
        if addr > u64::MAX || a > u64::MAX || !memory.valid_index(a as u64) {
            None
        } else {
            let pte = memory.at(a as u64);
            let depth = (2 - level) as u8;
            let here = if pte == 0 {
                Some(Seq::empty())
            } else if pte & 0xf == 1 {
                if level == 0 {
                    None
                } else if !memory.contains(pte_target(pte)) {
                    Some(seq![GuestPtLine::BadPpn { depth, addr: addr as u64, pte }])
                } else {
                    match guest_table_lines(memory, pte_target(pte), (level - 1) as nat, addr as u64, 0) {
                        Some(sub) => Some(seq![GuestPtLine::Pointer { depth, addr: addr as u64, pte }] + sub),
                        None => None,
                    }
                }
            } else if pte & 1 != 0 {
                Some(seq![GuestPtLine::Leaf { depth, addr: addr as u64, target: pte_target(pte) }])
            } else {
                Some(seq![GuestPtLine::NotValid { depth, addr: addr as u64, pte }])
            };
            match here {
                Some(h) => prepend_lines(h, guest_table_lines(memory, pt, level, base, i + 1)),
                None => None,
            }
        }
    }
}

fn guest_table_iter(memory: &MemoryRegion, pt: u64, level: u8, base: u64) -> (r: Option<Vec<GuestPtLine>>)
    requires
        memory.wf(),
        level <= 2,
    ensures
        r is None <==> guest_table_lines(*memory, pt, level as nat, base, 0) is None,
        r matches Some(v) ==> v@ == guest_table_lines(*memory, pt, level as nat, base, 0)->0,
    decreases level,
{
    let shift: u64 = 12 + 9 * (level as u64);
    let depth: u8 = 2 - level;
    let mut out: Vec<GuestPtLine> = Vec::new();
    let mut i: u64 = 0;
    while i < 512
        invariant
            memory.wf(),
            level <= 2,
            shift == 12 + 9 * level,
            depth == 2 - level,
            i <= 512,
            guest_table_lines(*memory, pt, level as nat, base, 0) == prepend_lines(out@, guest_table_lines(*memory, pt, level as nat, base, i as nat)),
        decreases 512 - i,
    {
        let ghost before = out@;
        assert((i << shift) < 0x100_0000_0000u64) by (bit_vector)
            requires
                i < 512,
                shift <= 30,
        ;
        let addr = match base.checked_add(i << shift) {
            Some(x) => x,
            None => {
                return None;
            },
        };
        let a = match pt.checked_add(i * 8) {
            Some(x) => x,
            None => {
                return None;
            },
        };
        let pte = match memory.get(a) {
            Some(x) => x,
            None => {
                return None;
            },
        };
        let child = (pte >> 10u64) << 12u64;
        if pte == 0 {
        } else if pte & 0xf == 1 {
            if level == 0 {
                return None;
            }
            if !memory.in_region(child) {
                out.push(GuestPtLine::BadPpn { depth, addr, pte });
            } else {
                out.push(GuestPtLine::Pointer { depth, addr, pte });
                let sub = match guest_table_iter(memory, child, level - 1, addr) {
                    Some(v) => v,
                    None => {
                        return None;
                    },
                };
                append_lines(&mut out, &sub);
                assert(out@ =~= before + (seq![GuestPtLine::Pointer { depth, addr, pte }]
                    + guest_table_lines(*memory, child, (level - 1) as nat, addr, 0)->0));
            }
        } else if pte & 1 != 0 {
            out.push(GuestPtLine::Leaf { depth, addr, target: child });
        } else {
            out.push(GuestPtLine::NotValid { depth, addr, pte });
        }
        i = i + 1;
    }
    assert(out@ =~= out@ + Seq::<GuestPtLine>::empty());
    Some(out)
}

/// The listing of a guest's page tables from the table at guest physical address `pt`, at
/// level `level`, mapping the guest virtual addresses from `base`: only `SatpInvalid` where
/// that table lies outside guest memory, else as `guest_table_lines` says.
pub fn print_guest_page_table(guest_memory: &MemoryRegion, pt: u64, level: u8, base: u64) -> (r: Option<Vec<GuestPtLine>>)
    requires
        guest_memory.wf(),
        level <= 2,
    ensures
        !guest_memory.contains(pt) ==> (r matches Some(v) && v@ == seq![GuestPtLine::SatpInvalid]),
        guest_memory.contains(pt) ==> (r is None <==> guest_table_lines(*guest_memory, pt, level as nat, base, 0) is None),
        guest_memory.contains(pt) ==> (r matches Some(v) ==> v@ == guest_table_lines(*guest_memory, pt, level as nat, base, 0)->0),
{
    if !guest_memory.in_region(pt) {
        let mut v: Vec<GuestPtLine> = Vec::new();
        v.push(GuestPtLine::SatpInvalid);
        assert(v@ =~= seq![GuestPtLine::SatpInvalid]);
        return Some(v);
    }
    guest_table_iter(guest_memory, pt, level, base)
}

/// `n` blanks.
pub open spec fn blanks(n: nat) -> Seq<u8> {
    Seq::new(n, |i: int| 32u8)
}

/// The column of the flag `flag`, named `f`, in a line of the walk listing: the name where
/// `flags` has the flag, as many blanks otherwise, then a blank.
pub open spec fn flag_text(flags: u8, f: Seq<u8>, flag: u8) -> Seq<u8> {
    (if flags & flag == flag { f } else { blanks(f.len()) }) + seq![32u8]
}

fn push_bytes(v: &mut Vec<u8>, b: &[u8])
    ensures
        final(v)@ == old(v)@ + b@,
{
    let mut k: usize = 0;
    while k < b.len()
        invariant
            k <= b@.len(),
            v@ == old(v)@ + b@.subrange(0, k as int),
        decreases b@.len() - k,
    {
        v.push(b[k]);
        k = k + 1;
        assert(v@ =~= old(v)@ + b@.subrange(0, k as int));
    }
    assert(b@.subrange(0, k as int) =~= b@);
}

fn push_str(v: &mut Vec<u8>, s: &str)
    ensures
        final(v)@ == old(v)@ + s.spec_bytes(),
{
    push_bytes(v, s.as_bytes());
}

fn push_blanks(v: &mut Vec<u8>, n: usize)
    ensures
        final(v)@ == old(v)@ + blanks(n as nat),
{
    let mut k: usize = 0;
    while k < n
        invariant
            k <= n,
            v@ == old(v)@ + blanks(k as nat),
        decreases n - k,
    {
        v.push(32u8);
        k = k + 1;
        assert(v@ =~= old(v)@ + blanks(k as nat));
    }
}

/// The column of the flag `bit`, named `f`, as `flag_text` says.
pub fn flag(flags: u8, f: &str, bit: u8) -> (r: Vec<u8>)
    ensures
        r@ == flag_text(flags, f.spec_bytes(), bit),
{
    let mut v: Vec<u8> = Vec::new();
    if flags & bit == bit {
        push_str(&mut v, f);
    } else {
        push_blanks(&mut v, f.as_bytes().len());
    }
    v.push(32u8);
    assert(v@ =~= flag_text(flags, f.spec_bytes(), bit));
    v
}

/// The `w` lowest hexadecimal digits of `n`, most significant first, lowercase.
pub open spec fn hex_width(n: nat, w: nat) -> Seq<u8>
    decreases w,
{
    if w == 0 {
        Seq::empty()
    } else {
        hex_width(n / 16, (w - 1) as nat).push(hex_digit(n % 16))
    }
}

fn hex_width_exec(n: u64, w: u8) -> (r: Vec<u8>)
    ensures
        r@ == hex_width(n as nat, w as nat),
    decreases w,
{
    if w == 0 {
        Vec::new()
    } else {
        let mut v = hex_width_exec(n / 16, w - 1);
        let d = n % 16;
        v.push(if d < 10 { (48 + d) as u8 } else { (87 + d) as u8 });
        v
    }
}

/// `n` as `0x` and sixteen hexadecimal digits.
pub open spec fn hex18(n: u64) -> Seq<u8> {
    seq![48u8, 120] + hex_width(n as nat, 16)
}

fn push_hex18(v: &mut Vec<u8>, n: u64)
    ensures
        final(v)@ == old(v)@ + hex18(n),
{
    v.push(48u8);
    v.push(120u8);
    let digits = hex_width_exec(n, 16);
    push_bytes(v, digits.as_slice());
    assert(v@ =~= old(v)@ + hex18(n));
}

/// The last byte of the `len` bytes from `a`, wrapping round at the top.
pub open spec fn last_of(a: u64, len: u64) -> u64 {
    vstd::wrapping::u64_specs::wrapping_sub(vstd::wrapping::u64_specs::wrapping_add(a, len), 1)
}

/// The line of the walk listing for `e`: its flag columns, software bits, virtual range, the
/// physical range unless it is unmapped, and what is wrong with it.
pub open spec fn walk_line(e: WalkEntry) -> Seq<u8> {
    flag_text(e.flags, "VALID".spec_bytes(), FLAG_VALID) + flag_text(e.flags, "R".spec_bytes(), FLAG_READ)
        + flag_text(e.flags, "W".spec_bytes(), FLAG_WRITE) + flag_text(e.flags, "X".spec_bytes(), FLAG_EXEC)
        + flag_text(e.flags, "USER".spec_bytes(), FLAG_USER) + flag_text(e.flags, "GLOBAL".spec_bytes(), FLAG_GLOBAL)
        + flag_text(e.flags, "ACC".spec_bytes(), FLAG_ACCESSED) + flag_text(e.flags, "DIRTY".spec_bytes(), FLAG_DIRTY)
        + seq![32u8] + spec_decimal(e.rsw as nat) + seq![32u8] + hex18(e.va) + seq![45u8] + hex18(last_of(e.va, e.len))
        + (if e.err != PageWalkError::ErrUnmapped {
            seq![32u8] + hex18(e.pa) + seq![45u8] + hex18(last_of(e.pa, e.len)) + seq![32u8]
        } else {
            blanks(39)
        }) + error_name(e.err).spec_bytes() + seq![10u8]
}

/// The line of the walk listing for the entry (`flags`, `rsw`, `va`, `pa`, `len`, `err`), as
/// `walk_line` says.
pub fn debug_walk(flags: u8, rsw: u8, va: u64, pa: u64, len: u64, err: PageWalkError) -> (r: Vec<u8>)
    ensures
        r@ == walk_line(WalkEntry { flags, rsw, va, pa, len, err }),
{
    let mut v: Vec<u8> = Vec::new();
    let c1 = flag(flags, "VALID", FLAG_VALID);
    push_bytes(&mut v, c1.as_slice());
    let c2 = flag(flags, "R", FLAG_READ);
    push_bytes(&mut v, c2.as_slice());
    let c3 = flag(flags, "W", FLAG_WRITE);
    push_bytes(&mut v, c3.as_slice());
    let c4 = flag(flags, "X", FLAG_EXEC);
    push_bytes(&mut v, c4.as_slice());
    let c5 = flag(flags, "USER", FLAG_USER);
    push_bytes(&mut v, c5.as_slice());
    let c6 = flag(flags, "GLOBAL", FLAG_GLOBAL);
    push_bytes(&mut v, c6.as_slice());
    let c7 = flag(flags, "ACC", FLAG_ACCESSED);
    push_bytes(&mut v, c7.as_slice());
    let c8 = flag(flags, "DIRTY", FLAG_DIRTY);
    push_bytes(&mut v, c8.as_slice());
    let ghost cols = v@;
    v.push(32u8);
    let digits = decimal(rsw as u64);
    push_bytes(&mut v, digits.as_slice());
    v.push(32u8);
    push_hex18(&mut v, va);
    v.push(45u8);
    push_hex18(&mut v, va.wrapping_add(len).wrapping_sub(1));
    let ghost virt = v@;
    if err != PageWalkError::ErrUnmapped {
        v.push(32u8);
        push_hex18(&mut v, pa);
        v.push(45u8);
        push_hex18(&mut v, pa.wrapping_add(len).wrapping_sub(1));
        v.push(32u8);
    } else {
        push_blanks(&mut v, 39);
    }
    let ghost phys = v@;
    push_str(&mut v, pwe_to_str(err));
    v.push(10u8);
    let e = WalkEntry { flags, rsw, va, pa, len, err };
    assert(phys.subrange(0, virt.len() as int) == virt);
    assert(v@ =~= walk_line(e));
    v
}

/// The lines of the walk listing for `entries`, in order.
pub open spec fn walk_lines(entries: Seq<WalkEntry>) -> Seq<u8>
    decreases entries.len(),
{
    if entries.len() == 0 {
        Seq::empty()
    } else {
        walk_lines(entries.drop_last()) + walk_line(entries.last())
    }
}

/// The heading line of the page-table report for hart `hart`.
pub open spec fn paging_banner(hart: u64) -> Seq<u8> {
    "==================================================== PAGE TABLE STATE (hart ".spec_bytes()
        + spec_decimal(hart as nat)
        + ") ===================================================\n".spec_bytes()
}

/// The column titles of the walk listing.
pub open spec fn walk_titles() -> Seq<u8> {
    "VALID R W X USER GLOBAL ACC DIRTY RSW   VIRTUAL (low)      VIRTUAL (high)     PHYSICAL (low)     PHYSICAL (high)  TRAVERSAL-ERROR\n".spec_bytes()
}

/// The report on the paging state of hart `hart`, whose `satp` and `sstatus` hold the given
/// values and whose page tables are in `memory`: the paging mode, address-space identifier,
/// root table address and whether the supervisor reaches user memory, then, for Sv39, the
/// compressed walk between column titles. `None` where the walk reads outside `memory`.
pub open spec fn paging_report(hart: u64, satp: u64, sstatus: u64, memory: MemoryRegion) -> Option<Seq<u8>> {
    let mode = (satp >> 60u64) as u8;
    let asid = (satp >> 44u64) as u16;
    let root = (satp & 0xfff_ffff_ffff) << 12u64;
    let head = paging_banner(hart) + "Paging mode: ".spec_bytes() + mode_name(mode).spec_bytes() + seq![10u8]
        + "ASID: ".spec_bytes() + spec_decimal(asid as nat) + seq![10u8] + "Page table address: 0x".spec_bytes()
        + spec_hex(root as nat) + seq![10u8] + if sstatus & STATUS_SUM != 0 {
        "Supervisor: can access user memory\n".spec_bytes()
    } else {
        "Supervisor: limited to supervisor memory\n".spec_bytes()
    };
    let tail = "====================================================== END PAGE TABLE STATE ======================================================\n".spec_bytes();
    if mode != MODE_SV39 {
        Some(head + "debugging not implemented for this paging mode.\n".spec_bytes() + tail)
    } else {
        match table_walk(memory, root, 2, 0, 0) {
            None => None,
            Some(entries) => Some(head + walk_titles() + walk_lines(compress(entries).1) + walk_titles() + tail),
        }
    }
}

/// The report on the paging state of hart `hart`, as `paging_report` says.
pub fn debug_paging(hart: u64, satp: u64, sstatus: u64, memory: &MemoryRegion) -> (r: Option<Vec<u8>>)
    requires
        memory.wf(),
    ensures
        r is None <==> paging_report(hart, satp, sstatus, *memory) is None,
        r matches Some(t) ==> t@ == paging_report(hart, satp, sstatus, *memory)->0,
{
    let (mode, asid, ppn) = parse_satp(satp);
    assert(ppn << 12u64 == (satp & 0xfff_ffff_ffff) << 12u64);
    let root = ppn << 12u64;
    let mut v: Vec<u8> = Vec::new();
    push_str(&mut v, "==================================================== PAGE TABLE STATE (hart ");
    let h = decimal(hart);
    push_bytes(&mut v, h.as_slice());
    push_str(&mut v, ") ===================================================\n");
    push_str(&mut v, "Paging mode: ");
    push_str(&mut v, mode_to_str(mode));
    v.push(10u8);
    push_str(&mut v, "ASID: ");
    let a = decimal(asid as u64);
    push_bytes(&mut v, a.as_slice());
    v.push(10u8);
    push_str(&mut v, "Page table address: 0x");
    let r = hex(root);
    push_bytes(&mut v, r.as_slice());
    v.push(10u8);
    if sstatus & STATUS_SUM != 0 {
        push_str(&mut v, "Supervisor: can access user memory\n");
    } else {
        push_str(&mut v, "Supervisor: limited to supervisor memory\n");
    }
    let ghost head = v@;
    proof {
        assert(head =~= paging_banner(hart) + "Paging mode: ".spec_bytes() + mode_name(mode).spec_bytes() + seq![10u8]
            + "ASID: ".spec_bytes() + spec_decimal(asid as nat) + seq![10u8] + "Page table address: 0x".spec_bytes()
            + spec_hex(root as nat) + seq![10u8] + if sstatus & STATUS_SUM != 0 {
            "Supervisor: can access user memory\n".spec_bytes()
        } else {
            "Supervisor: limited to supervisor memory\n".spec_bytes()
        });
    }
    if mode != MODE_SV39 {
        push_str(&mut v, "debugging not implemented for this paging mode.\n");
    } else {
        let entries = match walk_page_table_compressed(memory, root) {
            Some(e) => e,
            None => {
                return None;
            },
        };
        push_str(&mut v, "VALID R W X USER GLOBAL ACC DIRTY RSW   VIRTUAL (low)      VIRTUAL (high)     PHYSICAL (low)     PHYSICAL (high)  TRAVERSAL-ERROR\n");
        let ghost titled = v@;
        let mut k: usize = 0;
        while k < entries.len()
            invariant
                k <= entries@.len(),
                v@ == titled + walk_lines(entries@.subrange(0, k as int)),
            decreases entries@.len() - k,
        {
            let e = entries[k];
            let line = debug_walk(e.flags, e.rsw, e.va, e.pa, e.len, e.err);
            push_bytes(&mut v, line.as_slice());
            assert(entries@.subrange(0, k as int + 1).drop_last() =~= entries@.subrange(0, k as int));
            assert(e == WalkEntry { flags: e.flags, rsw: e.rsw, va: e.va, pa: e.pa, len: e.len, err: e.err });
            k = k + 1;
            assert(v@ =~= titled + walk_lines(entries@.subrange(0, k as int)));
        }
        assert(entries@.subrange(0, k as int) =~= entries@);
        push_str(&mut v, "VALID R W X USER GLOBAL ACC DIRTY RSW   VIRTUAL (low)      VIRTUAL (high)     PHYSICAL (low)     PHYSICAL (high)  TRAVERSAL-ERROR\n");
    }
    push_str(&mut v, "====================================================== END PAGE TABLE STATE ======================================================\n");
    assert(v@ =~= paging_report(hart, satp, sstatus, *memory)->0);
    Some(v)
}

} // verus!
