//! The guest kernel image: its 64-bit ELF header and program headers, and the copies that load
//! its segments.
use vstd::prelude::*;
use vstd::arithmetic::power2::pow2;
use crate::bits::le_value;

verus! {

/// Values of `ProgramHeader64::type_`.
pub const ELF_PROG_LOAD: u32 = 1;

/// Flag bits of `ProgramHeader64::flags`.
pub const ELF_PROG_FLAG_EXEC: u32 = 1;
pub const ELF_PROG_FLAG_WRITE: u32 = 2;
pub const ELF_PROG_FLAG_READ: u32 = 4;

/// The identification bytes that start an ELF file.
#[derive(Copy, Clone, Debug)]
pub struct Ident {
    pub magic: u32,
    pub class: u8,
    pub data: u8,
    pub version: u8,
    pub osabi: u8,
    pub abiversion: u8,
    pub padding: [u8; 7],
}

/// The header of a 64-bit ELF file.
#[derive(Copy, Clone, Debug)]
pub struct Elf64 {
    pub ident: Ident,
    pub type_: u16,
    pub machine: u16,
    pub version: u32,
    pub entry: u64,
    pub phoff: u64,
    pub shoff: u64,
    pub flags: u32,
    pub ehsize: u16,
    pub phentsize: u16,
    pub phnum: u16,
    pub shentsize: u16,
    pub shnum: u16,
    pub shstrndx: u16,
}

/// A program header of a 64-bit ELF file.
#[derive(Copy, Clone, Debug, PartialEq, Eq, Structural)]
pub struct ProgramHeader64 {
    pub type_: u32,
    pub flags: u32,
    pub offset: u64,
    pub va: u64,
    pub pa: u64,
    pub file_size: u64,
    pub memory_size: u64,
    pub align: u64,
}

/// The little-endian number of `n` bytes at `offset` of `s`.
pub open spec fn le_at(s: Seq<u8>, offset: int, n: int) -> nat {
    le_value(s.subrange(offset, offset + n))
}

proof fn lemma_le_step(s: Seq<u8>, a: int, b: int)
    requires
        0 <= a < b <= s.len(),
    ensures
        le_at(s, a, b - a) == s[a] as nat + 256 * le_at(s, a + 1, b - a - 1),
{
    assert(s.subrange(a, b).drop_first() =~= s.subrange(a + 1, b));
}

/// The little-endian number of `n` (at most 8) bytes at `offset` of `s`.
fn read_le(s: &Vec<u8>, offset: usize, n: usize) -> (r: u64)
    requires
        n <= 8,
        offset + n <= s@.len(),
    ensures
        r as nat == le_at(s@, offset as int, n as int),
        (r as nat) < pow2(8 * n as nat),
{
    let len = s.len();
    let mut v: u64 = 0;
    let mut k: usize = offset + n;
    proof {
        vstd::arithmetic::power2::lemma2_to64();
        assert(s@.subrange(k as int, (offset + n) as int) =~= Seq::<u8>::empty());
    }
    while k > offset
        invariant
            offset <= k <= offset + n <= s@.len(),
            n <= 8,
            v as nat == le_at(s@, k as int, (offset + n - k) as int),
            (v as nat) < pow2(8 * (offset + n - k) as nat),
        decreases k - offset,
    {
        let ghost m = (offset + n - k) as nat;
        proof {
            lemma_le_step(s@, k - 1, (offset + n) as int);
            vstd::arithmetic::power2::lemma_pow2_adds(8 * m, 8);
            vstd::arithmetic::power2::lemma2_to64();
            if m < 7 {
                vstd::arithmetic::power2::lemma_pow2_strictly_increases(8 * m, 56);
            }
            assert(8 * (m + 1) == 8 * m + 8);
        }
        let b = s[k - 1];
        assert(pow2(8 * m) <= 0x100_0000_0000_0000) by {
            vstd::arithmetic::power2::lemma2_to64();
            vstd::arithmetic::power2::lemma2_to64_rest();
            if m < 7 {
                vstd::arithmetic::power2::lemma_pow2_strictly_increases(8 * m, 56);
            } else {
                assert(8 * m == 56);
            }
        }
        assert((v as nat) * 256 + b < pow2(8 * m) * 256) by (nonlinear_arith)
            requires
                (v as nat) < pow2(8 * m),
                b < 256,
        ;
        assert(pow2(8 * m) * 256 <= 0x1_0000_0000_0000_0000) by (nonlinear_arith)
            requires
                pow2(8 * m) <= 0x100_0000_0000_0000,
        ;
        v = v * 256 + b as u64;
        k = k - 1;
    }
    v
}

/// Whether `e` is the ELF header that the first 64 bytes of `s` hold (little-endian fields).
pub open spec fn is_elf_header(e: Elf64, s: Seq<u8>) -> bool {
    &&& e.ident.magic == le_at(s, 0, 4)
    &&& e.ident.class == s[4]
    &&& e.ident.data == s[5]
    &&& e.ident.version == s[6]
    &&& e.ident.osabi == s[7]
    &&& e.ident.abiversion == s[8]
    &&& e.ident.padding@ == s.subrange(9, 16)
    &&& e.type_ == le_at(s, 16, 2)
    &&& e.machine == le_at(s, 18, 2)
    &&& e.version == le_at(s, 20, 4)
    &&& e.entry == le_at(s, 24, 8)
    &&& e.phoff == le_at(s, 32, 8)
    &&& e.shoff == le_at(s, 40, 8)
    &&& e.flags == le_at(s, 48, 4)
    &&& e.ehsize == le_at(s, 52, 2)
    &&& e.phentsize == le_at(s, 54, 2)
    &&& e.phnum == le_at(s, 56, 2)
    &&& e.shentsize == le_at(s, 58, 2)
    &&& e.shnum == le_at(s, 60, 2)
    &&& e.shstrndx == le_at(s, 62, 2)
}

/// The program header at byte `offset` of `s`.
pub open spec fn spec_program_header(s: Seq<u8>, offset: int) -> ProgramHeader64 {
    ProgramHeader64 {
        type_: le_at(s, offset, 4) as u32,
        flags: le_at(s, offset + 4, 4) as u32,
        offset: le_at(s, offset + 8, 8) as u64,
        va: le_at(s, offset + 16, 8) as u64,
        pa: le_at(s, offset + 24, 8) as u64,
        file_size: le_at(s, offset + 32, 8) as u64,
        memory_size: le_at(s, offset + 40, 8) as u64,
        align: le_at(s, offset + 48, 8) as u64,
    }
}


impl Elf64 {
    /// The ELF header at the start of `data`; `None` where `data` is shorter than a header.
    pub fn parse(data: &Vec<u8>) -> (r: Option<Elf64>)
        ensures
            r is Some <==> data@.len() >= 64,
            r matches Some(e) ==> is_elf_header(e, data@),
    {
        if data.len() < 64 {
            return None;
        }
        proof {
            vstd::arithmetic::power2::lemma2_to64();
        }
        let padding: [u8; 7] = [data[9], data[10], data[11], data[12], data[13], data[14], data[15]];
        assert(padding@ =~= data@.subrange(9, 16));
        Some(Elf64 {
            ident: Ident {
                magic: read_le(data, 0, 4) as u32,
                class: data[4],
                data: data[5],
                version: data[6],
                osabi: data[7],
                abiversion: data[8],
                padding,
            },
            type_: read_le(data, 16, 2) as u16,
            machine: read_le(data, 18, 2) as u16,
            version: read_le(data, 20, 4) as u32,
            entry: read_le(data, 24, 8),
            phoff: read_le(data, 32, 8),
            shoff: read_le(data, 40, 8),
            flags: read_le(data, 48, 4) as u32,
            ehsize: read_le(data, 52, 2) as u16,
            phentsize: read_le(data, 54, 2) as u16,
            phnum: read_le(data, 56, 2) as u16,
            shentsize: read_le(data, 58, 2) as u16,
            shnum: read_le(data, 60, 2) as u16,
            shstrndx: read_le(data, 62, 2) as u16,
        })
    }

    /// Whether the header is that of a little-endian 64-bit RISC-V executable, version 1.
    pub open spec fn spec_loadable(&self) -> bool {
        &&& self.ident.magic == 0x464C_457F
        &&& self.ident.class == 2
        &&& self.ident.data == 1
        &&& self.machine == 243
        &&& self.type_ == 2
        &&& self.version == 1
    }

    /// Whether the header is that of a little-endian 64-bit RISC-V executable, version 1.
    pub fn loadable(&self) -> (r: bool)
        ensures
            r == self.spec_loadable(),
    {
        self.ident.magic == 0x464C_457F && self.ident.class == 2 && self.ident.data == 1 && self.machine == 243
            && self.type_ == 2 && self.version == 1
    }
}

impl ProgramHeader64 {
    /// The program header at byte `offset` of `data`; `None` where it does not fit.
    pub fn parse(data: &Vec<u8>, offset: u64) -> (r: Option<ProgramHeader64>)
        ensures
            r is Some <==> offset + 56 <= data@.len(),
            r matches Some(h) ==> h == spec_program_header(data@, offset as int),
    {
        if offset > data.len() as u64 || data.len() as u64 - offset < 56 {
            return None;
        }
        let o = offset as usize;
        Some(ProgramHeader64 {
            type_: read_le(data, o, 4) as u32,
            flags: read_le(data, o + 4, 4) as u32,
            offset: read_le(data, o + 8, 8),
            va: read_le(data, o + 16, 8),
            pa: read_le(data, o + 24, 8),
            file_size: read_le(data, o + 32, 8),
            memory_size: read_le(data, o + 40, 8),
            align: read_le(data, o + 48, 8),
        })
    }
}

/// A step of loading the kernel into guest memory.
#[derive(Copy, Clone, Debug, PartialEq, Eq, Structural)]
pub enum LoadStep {
    /// Copy `len` bytes of the image from byte `src` to guest physical address `dst`.
    Copy { dst: u64, src: u64, len: u64 },
    /// Zero `len` bytes of guest memory from guest physical address `dst`.
    Zero { dst: u64, len: u64 },
}

/// The steps that load the segment with program header `ph`: its file bytes copied to its
/// physical address, and the rest of its memory zeroed. `None` where the end of its file bytes
/// in memory overflows.
pub open spec fn segment_steps(ph: ProgramHeader64) -> Option<Seq<LoadStep>> {
    let copy: Seq<LoadStep> = if ph.file_size > 0 {
        seq![LoadStep::Copy { dst: ph.pa, src: ph.offset, len: ph.file_size }]
    } else {
        Seq::empty()
    };
    if ph.type_ != ELF_PROG_LOAD {
        Some(Seq::empty())
    } else if ph.memory_size > ph.file_size {
        if ph.pa + ph.file_size > u64::MAX {
            None
        } else {
            Some(copy.push(LoadStep::Zero { dst: (ph.pa + ph.file_size) as u64, len: (ph.memory_size - ph.file_size) as u64 }))
        }
    } else {
        Some(copy)
    }
}

/// The steps that load the segments of the first `n` program headers of the image `data` with
/// header `e`. `None` where a program header lies outside the image or a segment's end
/// overflows.
pub open spec fn load_steps_upto(data: Seq<u8>, e: Elf64, n: int) -> Option<Seq<LoadStep>>
    decreases n,
{
    if n <= 0 {
        Some(Seq::empty())
    } else {
        match load_steps_upto(data, e, n - 1) {
            None => None,
            Some(s) => {
                let off = e.phoff + (n - 1) * e.phentsize;
                if off + 56 > data.len() {
                    None
                } else {
                    match segment_steps(spec_program_header(data, off)) {
                        None => None,
                        Some(t) => Some(s + t),
                    }
                }
            },
        }
    }
}

/// The steps that load the segments of `ph`, as `segment_steps` says.
fn steps_of(ph: &ProgramHeader64, steps: &mut Vec<LoadStep>) -> (r: bool)
    ensures
        r == segment_steps(*ph) is Some,
        r ==> final(steps)@ == old(steps)@ + segment_steps(*ph)->0,
{
    if ph.type_ != ELF_PROG_LOAD {
        assert(old(steps)@ + Seq::<LoadStep>::empty() =~= old(steps)@);
        return true;
    }
    if ph.memory_size > ph.file_size && ph.pa > u64::MAX - ph.file_size {
        return false;
    }
    let ghost before = steps@;
    if ph.file_size > 0 {
        steps.push(LoadStep::Copy { dst: ph.pa, src: ph.offset, len: ph.file_size });
    }
    if ph.memory_size > ph.file_size {
        steps.push(LoadStep::Zero { dst: ph.pa + ph.file_size, len: ph.memory_size - ph.file_size });
    }
    assert(steps@ =~= before + segment_steps(*ph)->0);
    true
}

/// The entry point and the steps that load the kernel image `data` at `base_address`: the
/// entry is the header's entry field counted from `base_address`, and each step's destination
/// is an offset from `base_address`. `None` where the image is not a loadable RISC-V
/// executable, a program header lies outside it, a segment's end overflows, or the entry
/// point does not fit in 64 bits.
pub fn load_elf(data: &Vec<u8>, base_address: u64) -> (r: Option<(u64, Vec<LoadStep>)>)
    ensures
        r is Some <==> (data@.len() >= 64 && (exists|e: Elf64| is_elf_header(e, data@) && e.spec_loadable()
            && load_steps_upto(data@, e, e.phnum as int) is Some && base_address + e.entry <= u64::MAX)),
        r matches Some((entry, steps)) ==> (forall|e: Elf64| #[trigger] is_elf_header(e, data@)
            ==> entry == base_address + e.entry && load_steps_upto(data@, e, e.phnum as int) == Some(steps@)),
{
    let e = match Elf64::parse(data) {
        Some(e) => e,
        None => {
            return None;
        },
    };
    proof {
        lemma_header_unique(e, data@);
    }
    if !e.loadable() {
        return None;
    }
    let mut steps: Vec<LoadStep> = Vec::new();
    let mut i: u16 = 0;
    let dl = data.len();
    while i < e.phnum
        invariant
            dl == data@.len(),
            is_elf_header(e, data@),
            e.spec_loadable(),
            forall|f: Elf64| #[trigger] is_elf_header(f, data@) ==> f == e,
            i <= e.phnum,
            load_steps_upto(data@, e, i as int) == Some(steps@),
        decreases e.phnum - i,
    {
        assert((i as u64) * (e.phentsize as u64) <= 0xffff * 0xffff) by (nonlinear_arith)
            requires
                i <= 0xffff,
                e.phentsize <= 0xffff,
        ;
        let step = (i as u64) * (e.phentsize as u64);
        if e.phoff > u64::MAX - step {
            proof {
                lemma_load_steps_none(data@, e, i + 1, e.phnum as int);
            }
            return None;
        }
        match ProgramHeader64::parse(data, e.phoff + step) {
            None => {
                proof {
                    lemma_load_steps_none(data@, e, i + 1, e.phnum as int);
                }
                return None;
            },
            Some(ph) => {
                if !steps_of(&ph, &mut steps) {
                    proof {
                        lemma_load_steps_none(data@, e, i + 1, e.phnum as int);
                    }
                    return None;
                }
            },
        }
        i = i + 1;
    }
    if e.entry > u64::MAX - base_address {
        return None;
    }
    Some((base_address + e.entry, steps))
}

/// The header that the bytes hold is unique.
proof fn lemma_header_unique(e: Elf64, s: Seq<u8>)
    requires
        is_elf_header(e, s),
    ensures
        forall|f: Elf64| #[trigger] is_elf_header(f, s) ==> f == e,
{
    assert forall|f: Elf64| #[trigger] is_elf_header(f, s) implies f == e by {
        assert(f.ident.padding@ =~= e.ident.padding@);
        assert(f.ident.padding == e.ident.padding);
    }
}

proof fn lemma_load_steps_none(data: Seq<u8>, e: Elf64, n: int, m: int)
    requires
        0 <= n <= m,
        load_steps_upto(data, e, n) is None,
    ensures
        load_steps_upto(data, e, m) is None,
    decreases m - n,
{
    if n < m {
        lemma_load_steps_none(data, e, n, m - 1);
    }
}

/// Load step `st` comes from the program header `k` of the image `data` with header `e`: that
/// header, at byte `phoff + k * phentsize`, is a loadable segment (type 1) whose fields are
/// read little-endian from its bytes. A copy takes its file bytes (size at bytes 32..40, image
/// offset at 8..16) to its physical address (bytes 24..32); a zeroing clears the rest of its
/// memory (size at 40..48), from its physical address plus its file size on.
pub open spec fn step_from_header(data: Seq<u8>, e: Elf64, k: int, st: LoadStep) -> bool {
    let off = e.phoff + k * e.phentsize;
    let paddr = le_at(data, off + 24, 8) as u64;
    let file_size = le_at(data, off + 32, 8) as u64;
    let mem_size = le_at(data, off + 40, 8) as u64;
    &&& le_at(data, off, 4) as u32 == ELF_PROG_LOAD
    &&& match st {
        LoadStep::Copy { dst, src, len } => dst == paddr && src == le_at(data, off + 8, 8) as u64
            && len == file_size && len > 0,
        LoadStep::Zero { dst, len } => dst == paddr + file_size && len == mem_size - file_size && len > 0,
    }
}

/// Load step `st` comes from one of the first `n` program headers, as `step_from_header` says.
pub open spec fn from_some_header(data: Seq<u8>, e: Elf64, n: int, st: LoadStep) -> bool {
    exists|k: int| 0 <= k < n && #[trigger] step_from_header(data, e, k, st)
}

/// Every step that loading an image makes comes from one of its loadable program headers, and
/// places the segment at the physical address that header gives: its file bytes at that
/// address, and zeros from there plus the file size to the end of its memory size.
pub proof fn lemma_steps_from_headers(data: Seq<u8>, e: Elf64, n: int, steps: Seq<LoadStep>)
    requires
        0 <= n,
        load_steps_upto(data, e, n) == Some(steps),
    ensures
        forall|j: int| 0 <= j < steps.len() ==> #[trigger] from_some_header(data, e, n, steps[j]),
    decreases n,
{
    if n > 0 {
        let prev = load_steps_upto(data, e, n - 1)->0;
        lemma_steps_from_headers(data, e, n - 1, prev);
        let off = e.phoff + (n - 1) * e.phentsize;
        let ph = spec_program_header(data, off);
        let t = segment_steps(ph)->0;
        assert(steps == prev + t);
        assert forall|j: int| 0 <= j < steps.len() implies #[trigger] from_some_header(data, e, n, steps[j]) by {
            if j < prev.len() {
                assert(steps[j] == prev[j]);
                assert(from_some_header(data, e, n - 1, prev[j]));
                let k = choose|k: int| 0 <= k < n - 1 && #[trigger] step_from_header(data, e, k, prev[j]);
                assert(step_from_header(data, e, k, steps[j]));
            } else {
                assert(steps[j] == t[j - prev.len()]);
                assert(step_from_header(data, e, n - 1, steps[j]));
            }
        }
    } else {
        assert(steps.len() == 0);
    }
}

/// Every loadable program header among the first `n` gets its steps: a copy of its file bytes
/// to its physical address where it has any, and a zeroing of the rest of its memory from its
/// physical address plus its file size where its memory is larger.
pub proof fn lemma_headers_to_steps(data: Seq<u8>, e: Elf64, n: int, steps: Seq<LoadStep>)
    requires
        0 <= n,
        load_steps_upto(data, e, n) == Some(steps),
    ensures
        forall|k: int| 0 <= k < n && #[trigger] le_at(data, e.phoff + k * e.phentsize, 4) as u32 == ELF_PROG_LOAD ==> {
            let off = e.phoff + k * e.phentsize;
            let paddr = le_at(data, off + 24, 8) as u64;
            let file_size = le_at(data, off + 32, 8) as u64;
            let mem_size = le_at(data, off + 40, 8) as u64;
            &&& file_size > 0 ==> steps.contains(LoadStep::Copy { dst: paddr, src: le_at(data, off + 8, 8) as u64, len: file_size })
            &&& mem_size > file_size ==> steps.contains(LoadStep::Zero { dst: (paddr + file_size) as u64, len: (mem_size - file_size) as u64 })
        },
    decreases n,
{
    if n > 0 {
        let prev = load_steps_upto(data, e, n - 1)->0;
        lemma_headers_to_steps(data, e, n - 1, prev);
        let off0 = e.phoff + (n - 1) * e.phentsize;
        let ph = spec_program_header(data, off0);
        let t = segment_steps(ph)->0;
        assert(steps == prev + t);
        assert forall|k: int| 0 <= k < n && #[trigger] le_at(data, e.phoff + k * e.phentsize, 4) as u32 == ELF_PROG_LOAD implies {
            let off = e.phoff + k * e.phentsize;
            let paddr = le_at(data, off + 24, 8) as u64;
            let file_size = le_at(data, off + 32, 8) as u64;
            let mem_size = le_at(data, off + 40, 8) as u64;
            &&& file_size > 0 ==> steps.contains(LoadStep::Copy { dst: paddr, src: le_at(data, off + 8, 8) as u64, len: file_size })
            &&& mem_size > file_size ==> steps.contains(LoadStep::Zero { dst: (paddr + file_size) as u64, len: (mem_size - file_size) as u64 })
        } by {
            let off = e.phoff + k * e.phentsize;
            let paddr = le_at(data, off + 24, 8) as u64;
            let file_size = le_at(data, off + 32, 8) as u64;
            let mem_size = le_at(data, off + 40, 8) as u64;
            let c = LoadStep::Copy { dst: paddr, src: le_at(data, off + 8, 8) as u64, len: file_size };
            let z = LoadStep::Zero { dst: (paddr + file_size) as u64, len: (mem_size - file_size) as u64 };
            if k < n - 1 {
                if file_size > 0 {
                    let i = choose|i: int| 0 <= i < prev.len() && prev[i] == c;
                    assert(steps[i] == c);
                }
                if mem_size > file_size {
                    let i = choose|i: int| 0 <= i < prev.len() && prev[i] == z;
                    assert(steps[i] == z);
                }
            } else {
                if file_size > 0 {
                    assert(t[0] == c);
                    assert(steps[prev.len() as int] == c);
                }
                if mem_size > file_size {
                    let i = t.len() - 1;
                    assert(t[i] == z);
                    assert(steps[prev.len() + i] == z);
                }
            }
        }
    }
}

} // verus!
