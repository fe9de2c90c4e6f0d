use rvirt_verified::pmp::{
    decode_pmp_range, entry_unlocked, extract_napot_bits, install_pmp_allmem, install_pmp_napot,
    read_pmp_config, write_pmp_config, LOCK, MODE_NA4, MODE_NAPOT, MODE_TOR, READ, WRITE,
};

#[test]
fn napot_bits_count_trailing_ones() {
    assert_eq!(extract_napot_bits(0), (0, 0));
    assert_eq!(extract_napot_bits(0b1011), (2, 0b1000));
    assert_eq!(extract_napot_bits(0x2000_01ff), (9, 0x2000_0000));
}

#[test]
fn ranges_decode_by_mode() {
    assert_eq!(decode_pmp_range(0, 0x1234, 0, 0), (0, 0));
    assert_eq!(decode_pmp_range(MODE_TOR, 0x2000_0000, 0, 0x1000_0000), (0x4000_0000, 0x8000_0000));
    assert_eq!(decode_pmp_range(MODE_NA4, 0x2000_0000, 0, 0), (0x8000_0000, 0x8000_0004));
    assert_eq!(decode_pmp_range(MODE_NAPOT, 0x2000_01ff, 0, 0), (0x8000_0000, 0x8000_0000 + 0x1000));
    assert_eq!(decode_pmp_range(MODE_NAPOT, u64::MAX, 0, 0), (0, 0));
}

#[test]
fn napot_entries_round_trip() {
    let (cfg, addr) = install_pmp_napot(READ | WRITE, 0x8000_0000, 0x1000).expect("entry");
    assert_eq!(cfg, READ | WRITE | MODE_NAPOT);
    assert_eq!(addr, 0x2000_01ff);
    assert_eq!(decode_pmp_range(cfg, addr, 0, 0), (0x8000_0000, 0x8000_1000));

    let (cfg, addr) = install_pmp_napot(READ, 0x8000_0000, 4).expect("entry");
    assert_eq!(cfg, READ | MODE_NA4);
    assert_eq!(decode_pmp_range(cfg, addr, 0, 0), (0x8000_0000, 0x8000_0004));

    let (cfg, addr) = install_pmp_napot(0, 0, 8).expect("entry");
    assert_eq!(decode_pmp_range(cfg, addr, 0, 0), (0, 8));
}

#[test]
fn napot_entries_refuse_bad_ranges() {
    assert_eq!(install_pmp_napot(0, 0x8000_0002, 0x1000), None);
    assert_eq!(install_pmp_napot(0, 0x8000_0000, 0x1800), None);
    assert_eq!(install_pmp_napot(0, 0x8000_0800, 0x1000), None);
    assert_eq!(install_pmp_napot(0, 0x8000_0000, 0), None);
    assert_eq!(install_pmp_napot(0, 0x8000_0000, 2), None);
}

#[test]
fn allmem_entry_covers_everything() {
    let (cfg, addr) = install_pmp_allmem(READ);
    assert_eq!(cfg, READ | MODE_NAPOT);
    assert_eq!(addr, u64::MAX);
    assert_eq!(decode_pmp_range(cfg, addr, 0, 0), (0, 0));
}

#[test]
fn config_bytes_write_and_read_back() {
    let reg = 0x1122_3344_5566_7788u64;
    let w = write_pmp_config(reg, 2, 0x9f);
    assert_eq!(w, 0x1122_3344_559f_7788);
    assert_eq!(read_pmp_config(2, w, 0), 0x9f);
    assert_eq!(read_pmp_config(1, w, 0), 0x77);
    assert_eq!(read_pmp_config(3, w, 0), 0x55);
    let w2 = write_pmp_config(0, 9, 0x1f);
    assert_eq!(read_pmp_config(9, 0, w2), 0x1f);
    assert_eq!(read_pmp_config(8, 0, w2), 0);
    assert_eq!(read_pmp_config(15, 0, 0xab00_0000_0000_0000), 0xab);
}

#[test]
fn locked_entries_cannot_change() {
    assert!(entry_unlocked(READ | MODE_NAPOT));
    assert!(!entry_unlocked(LOCK | READ));
}

#[test]
fn protection_table_decodes_each_entry() {
    let cfg0 = (READ | WRITE | MODE_NAPOT) as u64 | ((READ | MODE_TOR) as u64) << 8 | ((MODE_NA4 | LOCK) as u64) << 16;
    let mut addresses = [0u64; 16];
    addresses[0] = 0x2000_01ff;
    addresses[1] = 0x3000_0000;
    addresses[2] = 0x4000_0000;
    addresses[3] = 0x1234;
    let rows = rvirt_verified::pmp::pmp_table(cfg0, 0, &addresses);
    assert_eq!(rows.len(), 16);
    assert_eq!(rows[0].entry, 0);
    assert_eq!(rows[0].config, READ | WRITE | MODE_NAPOT);
    assert_eq!(rows[0].range, Some((0x8000_0000, 0x8000_0fff)));
    assert_eq!(rows[1].range, Some((0x8000_07fc, 0xbfff_ffff)));
    assert_eq!(rows[2].range, Some((0x1_0000_0000, 0x1_0000_0003)));
    assert_eq!(rows[3].address, 0x1234);
    assert_eq!(rows[3].range, None);
    assert_eq!(rows[15].entry, 15);
}

#[test]
fn protection_table_skips_ranges_that_overflow() {
    let mut addresses = [0u64; 16];
    addresses[0] = u64::MAX >> 1;
    let rows = rvirt_verified::pmp::pmp_table(MODE_NA4 as u64, 0, &addresses);
    assert_eq!(rows[0].range, None);
    let rows = rvirt_verified::pmp::pmp_table(MODE_NAPOT as u64, 0, &[u64::MAX; 16]);
    assert_eq!(rows[0].range, Some((0, u64::MAX)));
}
