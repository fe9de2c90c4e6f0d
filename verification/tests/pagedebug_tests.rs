use rvirt_verified::memory_region::{MemoryRegion, PageTableRegion};
use rvirt_verified::pagedebug::{
    compression_walk, debug_paging, debug_walk, flag, mode_to_str, parse_satp, print_guest_page_table, print_page_table, pwe_to_str, walk_page_table,
    walk_page_table_compressed, CompressionWalker, GuestPtLine, PageWalkError, PtLine, WalkEntry,
};
use rvirt_verified::pmap::DIRECT_MAP_OFFSET;

#[test]
fn paging_modes_and_errors_have_names() {
    assert_eq!(mode_to_str(0), "bare: no translation or protection");
    assert_eq!(mode_to_str(8), "sv39: page-based 39-bit virtual addressing");
    assert_eq!(mode_to_str(3), "reserved");
    assert_eq!(pwe_to_str(PageWalkError::ErrNone), "ok");
    assert_eq!(pwe_to_str(PageWalkError::ErrMisalignedSuperpage), "superpage is misaligned");
}

#[test]
fn satp_fields() {
    assert_eq!(parse_satp((8u64 << 60) | (5u64 << 44) | 0x8_0000), (8, 5, 0x8_0000));
}

fn entry(flags: u8, va: u64, pa: u64, len: u64, err: PageWalkError) -> WalkEntry {
    WalkEntry { flags, rsw: 0, va, pa, len, err }
}

#[test]
fn contiguous_entries_merge_into_one_run() {
    let mut w = CompressionWalker {
        haslast: false,
        lastflags: 0,
        lastrsw: 0,
        totallen: 0,
        endva: 0,
        endpa: 0,
        lasterr: PageWalkError::ErrNone,
    };
    assert!(compression_walk(0xcf, 0, 0, 0x1000, 0x1000, PageWalkError::ErrNone, &mut w).is_empty());
    assert!(compression_walk(0xcf, 0, 0x1000, 0x2000, 0x1000, PageWalkError::ErrNone, &mut w).is_empty());
    let out = compression_walk(0x0f, 0, 0x2000, 0x3000, 0x1000, PageWalkError::ErrNone, &mut w);
    assert_eq!(out, vec![entry(0xcf, 0, 0x1000, 0x2000, PageWalkError::ErrNone)]);
    let out = compression_walk(0, 0, 0xffff_ffff_ffff_f000, 0, 0x1000, PageWalkError::ErrUnmapped, &mut w);
    assert_eq!(
        out,
        vec![
            entry(0x0f, 0x2000, 0x3000, 0x1000, PageWalkError::ErrNone),
            entry(0, 0xffff_ffff_ffff_f000, 0, 0x1000, PageWalkError::ErrUnmapped),
        ]
    );
    assert!(!w.haslast);
}

fn tables() -> MemoryRegion {
    let mut mem: MemoryRegion = MemoryRegion::with_base_address(DIRECT_MAP_OFFSET + 0x8000_0000, 0x8000_0000, 0x3000);
    // Root entry 0 points to a second-level table; entries 2 to 4 are gigapages, the second
    // misaligned, the third with the reserved write-without-read pattern.
    mem.set(0x8000_0000, (0x8000_1000u64 >> 2) | 0x01);
    mem.set(0x8000_0000 + 2 * 8, (0x8000_0000u64 >> 2) | 0xcf);
    mem.set(0x8000_0000 + 3 * 8, (0x8020_0000u64 >> 2) | 0xcf);
    mem.set(0x8000_0000 + 4 * 8, (0x8000_0000u64 >> 2) | 0x05);
    mem.set(0x8000_1000, (0x8000_0000u64 >> 2) | 0xcf);
    mem
}

#[test]
fn the_walk_reports_every_entry_with_its_fault() {
    let v = walk_page_table(&tables(), 0x8000_0000).expect("tables in memory");
    assert_eq!(v.len(), 1025);
    assert_eq!(v[0], entry(0xcf, 0, 0x8000_0000, 0x20_0000, PageWalkError::ErrNone));
    assert_eq!(v[1], entry(0, 0x20_0000, 0, 0x20_0000, PageWalkError::ErrUnmapped));
    assert_eq!(v[256], entry(0, 0x40_0000_0000, 0, 0xffff_ff80_0000_0000, PageWalkError::ErrUnmapped));
    assert_eq!(v[514], entry(0xcf, 0x8000_0000, 0x8000_0000, 0x4000_0000, PageWalkError::ErrNone));
    assert_eq!(v[515].err, PageWalkError::ErrMisalignedSuperpage);
    assert_eq!(v[516].err, PageWalkError::ErrReserved);
    assert_eq!(v[769].va, 0xffff_ffc0_0000_0000);
}

#[test]
fn the_walk_needs_its_tables_in_memory() {
    assert!(walk_page_table(&tables(), 0x9000_0000).is_none());
    assert!(walk_page_table_compressed(&tables(), 0x9000_0000).is_none());
}

#[test]
fn the_compressed_walk_merges_runs() {
    let v = walk_page_table_compressed(&tables(), 0x8000_0000).expect("tables in memory");
    assert_eq!(v[0], entry(0xcf, 0, 0x8000_0000, 0x20_0000, PageWalkError::ErrNone));
    assert_eq!(v[1].va, 0x20_0000);
    assert_eq!(v[1].len, 255 * 0x20_0000);
    assert_eq!(v[1].err, PageWalkError::ErrUnmapped);
    assert_eq!(v[2], entry(0, 0x40_0000_0000, 0, 0xffff_ff80_0000_0000, PageWalkError::ErrUnmapped));
    // The unmapped root entries from the sixth on, the hole and the upper half form one run.
    let last = v[v.len() - 1];
    assert_eq!(last.va, 0x1_4000_0000);
    assert_eq!(last.len, 0u64.wrapping_sub(0x1_4000_0000));
    assert_eq!(last.err, PageWalkError::ErrUnmapped);
}

#[test]
fn hypervisor_tables_list_their_valid_entries() {
    let mut mem: MemoryRegion = MemoryRegion::new(DIRECT_MAP_OFFSET + 0x8200_0000, 0x3000);
    let pointer = (0x8200_1000u64 >> 2) | 0x01;
    let leaf = (0x8000_0000u64 >> 2) | 0xcf;
    let small = (0x8020_0000u64 >> 2) | 0x07;
    mem.set(0x8200_0000, pointer);
    mem.set(0x8200_0000 + 5 * 8, leaf);
    mem.set(0x8200_1000 + 3 * 8, small);
    let region = PageTableRegion::new(mem);
    assert_eq!(
        print_page_table(&region, 0x8200_0000, 2),
        Some(vec![
            PtLine { depth: 1, offset: 0, pte: pointer },
            PtLine { depth: 2, offset: 24, pte: small },
            PtLine { depth: 1, offset: 40, pte: leaf },
        ])
    );
    assert_eq!(print_page_table(&region, 0x8200_0000, 0), None);
    assert_eq!(print_page_table(&region, 0x8300_0000, 2), None);
}

#[test]
fn guest_tables_list_what_they_map() {
    let mut mem: MemoryRegion = MemoryRegion::with_base_address(DIRECT_MAP_OFFSET + 0x8000_0000, 0x8000_0000, 0x3000);
    let pointer = (0x8000_1000u64 >> 2) | 0x01;
    let stray = (0x9000_0000u64 >> 2) | 0x01;
    mem.set(0x8000_0000, pointer);
    mem.set(0x8000_0008, stray);
    mem.set(0x8000_0010, (0x8000_0000u64 >> 2) | 0xcf);
    mem.set(0x8000_0018, 0x2);
    mem.set(0x8000_1008, (0x8020_0000u64 >> 2) | 0xcf);
    assert_eq!(
        print_guest_page_table(&mem, 0x8000_0000, 2, 0),
        Some(vec![
            GuestPtLine::Pointer { depth: 0, addr: 0, pte: pointer },
            GuestPtLine::Leaf { depth: 1, addr: 0x20_0000, target: 0x8020_0000 },
            GuestPtLine::BadPpn { depth: 0, addr: 0x4000_0000, pte: stray },
            GuestPtLine::Leaf { depth: 0, addr: 0x8000_0000, target: 0x8000_0000 },
            GuestPtLine::NotValid { depth: 0, addr: 0xc000_0000, pte: 0x2 },
        ])
    );
    assert_eq!(print_guest_page_table(&mem, 0x9000_0000, 2, 0), Some(vec![GuestPtLine::SatpInvalid]));
}

#[test]
fn flag_columns_keep_their_width() {
    assert_eq!(flag(0x01, "VALID", 0x01), b"VALID ".to_vec());
    assert_eq!(flag(0x00, "VALID", 0x01), b"      ".to_vec());
    assert_eq!(flag(0x06, "W", 0x04), b"W ".to_vec());
}

#[test]
fn walk_lines_show_both_ranges() {
    let line = String::from_utf8(debug_walk(0xcf, 1, 0x8000_0000, 0x8000_0000, 0x4000_0000, PageWalkError::ErrNone)).unwrap();
    assert_eq!(
        line,
        "VALID R W X             ACC DIRTY  1 0x0000000080000000-0x00000000bfffffff 0x0000000080000000-0x00000000bfffffff ok\n"
    );
    let line = String::from_utf8(debug_walk(0, 0, 0x40_0000_0000, 0, 0xffff_ff80_0000_0000, PageWalkError::ErrUnmapped)).unwrap();
    assert!(line.starts_with("                                   0 0x0000004000000000-0xffffffbfffffffff "));
    assert!(line.ends_with("unmapped\n"));
    assert_eq!(line.len(), 34 + 3 + 37 + 39 + 8 + 1);
}

#[test]
fn paging_report_lists_the_compressed_walk() {
    let satp = (8u64 << 60) | (3u64 << 44) | (0x8000_0000u64 >> 12);
    let text = String::from_utf8(debug_paging(1, satp, 0x40000, &tables()).expect("tables in memory")).unwrap();
    let lines: Vec<&str> = text.lines().collect();
    assert!(lines[0].contains("PAGE TABLE STATE (hart 1)"));
    assert_eq!(lines[1], "Paging mode: sv39: page-based 39-bit virtual addressing");
    assert_eq!(lines[2], "ASID: 3");
    assert_eq!(lines[3], "Page table address: 0x80000000");
    assert_eq!(lines[4], "Supervisor: can access user memory");
    assert!(lines[5].starts_with("VALID R W X USER GLOBAL ACC DIRTY RSW"));
    assert!(lines[6].ends_with(" ok"));
    let compressed = walk_page_table_compressed(&tables(), 0x8000_0000).unwrap();
    assert_eq!(lines.len(), 5 + 1 + compressed.len() + 1 + 1);
    assert!(lines[lines.len() - 1].contains("END PAGE TABLE STATE"));
    let bare = String::from_utf8(debug_paging(0, 0, 0, &tables()).unwrap()).unwrap();
    assert!(bare.contains("Paging mode: bare: no translation or protection\n"));
    assert!(bare.contains("Supervisor: limited to supervisor memory\n"));
    assert!(bare.contains("debugging not implemented for this paging mode.\n"));
    assert!(debug_paging(0, (8u64 << 60) | 0x9_0000, 0, &tables()).is_none());
}
