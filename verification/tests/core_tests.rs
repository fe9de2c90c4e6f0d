use rvirt_verified::boot::{forward_exception, guest_layout, make_boot_page_tables_array};
use rvirt_verified::sbi::{clear_ipi, send_ipi, send_ipi_to_hart, set_timer, shutdown, SbiCall};
use rvirt_verified::context::ControlRegisters;
use rvirt_verified::fdt::UartType;
use rvirt_verified::memory_region::MemoryRegion;
use rvirt_verified::plic::PlicState;
use rvirt_verified::pmap::{pa2va, va2pa, DIRECT_MAP_OFFSET};
use rvirt_verified::print::{
    initialize_ns16550a, ns16550a_has_byte, ns16550a_ready_to_send, sifive_ready_to_send, sifive_received, Receive,
    Transmit, UartWriter, UartWriterInner,
};

fn registers(sstatus: u64) -> ControlRegisters {
    ControlRegisters {
        sstatus,
        sie: 0,
        sip: 0,
        stvec: 0,
        sscratch: 0,
        sepc: 0,
        scause: 0,
        stval: 0,
        satp: 0,
        mtimecmp: 0,
    }
}

#[test]
fn interrupt_enable_is_saved_and_restored() {
    for sstatus in [0u64, 0x2, 0x20, 0x22, 0x8000_0000_0000_0102] {
        let mut c = registers(sstatus);
        c.push_sie();
        assert_eq!(c.sstatus & 0x2, 0);
        assert_eq!(c.sstatus & 0x20 != 0, sstatus & 0x2 != 0);
        c.pop_sie();
        assert_eq!(c.sstatus & 0x2, sstatus & 0x2);
        assert_ne!(c.sstatus & 0x20, 0);
        assert_eq!(c.sstatus & !0x22, sstatus & !0x22);
    }
}

#[test]
fn direct_map_round_trip() {
    let va = pa2va(0x8000_1000);
    assert_eq!(va, DIRECT_MAP_OFFSET + 0x8000_1000);
    assert_eq!(va2pa(va), 0x8000_1000);
}

#[test]
fn memory_regions_hold_words_by_address() {
    let mut r = MemoryRegion::<u64>::with_base_address(DIRECT_MAP_OFFSET + 0x8000_0000, 0x8000_0000, 64);
    assert_eq!(r.base(), 0x8000_0000);
    assert_eq!(r.len(), 64);
    assert!(r.in_region(0x8000_0038));
    assert!(!r.in_region(0x8000_0040));
    r.set(0x8000_0008, 42);
    assert_eq!(r.index(0x8000_0008), 42);
    assert_eq!(r.get(0x8000_0008), Some(42));
    assert_eq!(r.get(0x8000_0009), None);
    assert_eq!(r.get(0x8000_0040), None);
    assert_eq!(r.index(0x8000_0010), 0);
}

#[test]
fn interrupt_controller_claims_the_best_pending_source() {
    let mut p = PlicState::new();
    let mut clear = false;
    p.write_u32(0x0c00_0004, 3, &mut clear);
    p.write_u32(0x0c00_0008, 5, &mut clear);
    assert_eq!(p.read_u32(0x0c00_0008), 5);
    p.write_u32(0x0c00_2000, 0b110, &mut clear);
    p.set_pending(1, true);
    p.set_pending(2, true);
    assert!(p.interrupt_pending());
    assert_eq!(p.read_u32(0x0c20_0004), 2);
    // The claim stays until it is completed.
    assert_eq!(p.read_u32(0x0c20_0004), 2);
    p.write_u32(0x0c20_0004, 2, &mut clear);
    assert!(clear);
    assert_eq!(p.read_u32(0x0c20_0004), 1);
    let mut clear = false;
    p.write_u32(0x0c20_0004, 7, &mut clear);
    assert!(!clear);
    p.write_u32(0x0c20_0004, 1, &mut clear);
    assert!(clear);
    assert!(!p.interrupt_pending());
    assert_eq!(p.read_u32(0x0c20_0004), 0);
}

#[test]
fn guest_memory_layout() {
    assert_eq!(guest_layout(0xC000_0000, 0x8000_0000), Some((0x8000_0000, 0x3c00_0000, 0x4400_0000)));
    assert_eq!(guest_layout(0xC000_1000, 0x8000_0000), None);
    assert_eq!(guest_layout(0x4000_0000, 0x8000_0000), None);
    assert_eq!(guest_layout(0xC000_0000, 0x4000_0000), None);
}

#[test]
fn machine_mode_forwards_traps_to_the_supervisor() {
    // SIE set, previous mode S: SPIE and SPP get set, SIE is cleared, MPP becomes S.
    let (status, pc) = forward_exception(0x0802, 0x8020_0003);
    assert_eq!(status, 0x0920);
    assert_eq!(pc, 0x8020_0000);
    // SIE clear, previous mode U.
    let (status, _) = forward_exception(0x0120, 0);
    assert_eq!(status, 0x0800);
}

#[test]
fn ipi_masks_name_one_hart() {
    assert_eq!(send_ipi_to_hart(0), Some(1));
    assert_eq!(send_ipi_to_hart(5), Some(32));
    assert_eq!(send_ipi_to_hart(64), None);
}

#[test]
fn boot_page_tables_for_every_hart() {
    let tables = make_boot_page_tables_array();
    assert_eq!(tables.len(), 16);
    assert_ne!(tables[0], tables[1]);
}

#[test]
fn console_writer_follows_the_device_tree() {
    let mut w = UartWriter { pa: 0x1000_0000, va: None, inner: UartWriterInner::Ns16550a { initialized: false } };
    assert!(w.init(0x1001_0000, UartType::SiFive));
    assert_eq!(w.pa, 0x1001_0000);
    assert_eq!(w.inner, UartWriterInner::SiFive);
    assert_eq!(w.address(), 0x1001_0000);
    assert!(w.switch_to_virtual_addresses());
    assert_eq!(w.address(), DIRECT_MAP_OFFSET + 0x1001_0000);
    assert!(!w.init(0x1000_0000, UartType::Ns16550a));
    let mut ready = UartWriter { pa: 0x1000_0000, va: None, inner: UartWriterInner::Ns16550a { initialized: true } };
    assert!(ready.init(0x1000_0000, UartType::Ns16550a));
    assert!(!ready.init(0x1001_0000, UartType::Ns16550a));
}

#[test]
fn memory_ranges_read_and_resize() {
    let mut bytes = [0u8; 16];
    bytes[..8].copy_from_slice(&0x8000_0000u64.to_be_bytes());
    bytes[8..].copy_from_slice(&0x4000_0000u64.to_be_bytes());
    let mut r = rvirt_verified::fdt::MemoryRegion(bytes);
    assert_eq!(r.offset(), 0x8000_0000);
    assert_eq!(r.size(), 0x4000_0000);
    r.set_size(0x1000_0000);
    assert_eq!(r.size(), 0x1000_0000);
    assert_eq!(r.offset(), 0x8000_0000);
}

#[test]
fn the_console_is_set_up_on_first_use() {
    let mut w = UartWriter { pa: 0x1000_0000, va: None, inner: UartWriterInner::Ns16550a { initialized: false } };
    assert_eq!(w.putchar(b'a'), Transmit::Ns16550a { base: 0x1000_0000, initialize: true, ch: b'a' });
    assert_eq!(w.inner, UartWriterInner::Ns16550a { initialized: true });
    assert_eq!(w.putchar(b'b'), Transmit::Ns16550a { base: 0x1000_0000, initialize: false, ch: b'b' });
    assert!(w.switch_to_virtual_addresses());
    assert_eq!(w.getchar(), Receive::Ns16550a { base: DIRECT_MAP_OFFSET + 0x1000_0000, initialize: false });
    assert_eq!(w.mputchar(b'c'), Transmit::Ns16550a { base: 0x1000_0000, initialize: false, ch: b'c' });
}

#[test]
fn sifive_console_needs_no_set_up() {
    let mut w = UartWriter { pa: 0x1001_0000, va: Some(0x20), inner: UartWriterInner::SiFive };
    assert_eq!(w.putchar(b'x'), Transmit::SiFive { base: 0x20, ch: b'x' });
    assert_eq!(w.getchar(), Receive::SiFive { base: 0x20 });
    assert_eq!(w.inner, UartWriterInner::SiFive);
}

#[test]
fn console_status_bits() {
    assert!(ns16550a_ready_to_send(0x60));
    assert!(!ns16550a_ready_to_send(0x01));
    assert!(ns16550a_has_byte(0x61));
    assert!(!ns16550a_has_byte(0x60));
    assert!(sifive_ready_to_send(0x41));
    assert!(!sifive_ready_to_send(0x8000_0000));
    assert_eq!(sifive_received(0x8000_0141), Some(0x41));
    assert_eq!(sifive_received(0x41), None);
    assert_eq!(initialize_ns16550a(), [(1, 0x00), (3, 0x80), (0, 0x03), (1, 0x00), (3, 0x03), (2, 0xc7)]);
}

#[test]
fn firmware_calls_use_the_legacy_function_numbers() {
    assert_eq!(set_timer(1234), SbiCall { a0: 1234, a7: 0 });
    assert_eq!(clear_ipi(), SbiCall { a0: 0, a7: 3 });
    assert_eq!(send_ipi(0x8000), SbiCall { a0: 0x8000, a7: 4 });
    assert_eq!(shutdown(), SbiCall { a0: 0, a7: 8 });
}

#[test]
fn backtrace_steps_read_the_frame_through_the_guest_page_tables() {
    let mut mem: MemoryRegion = MemoryRegion::with_base_address(DIRECT_MAP_OFFSET + 0x8000_0000, 0x8000_0000, 0x20_0000);
    // The root table sits at 0x8000_0000; its entry 2 maps the gigapage at 0x8000_0000.
    mem.set(0x8000_0000 + 2 * 8, (0x8000_0000u64 >> 2) | 0xcf);
    mem.set(0x8010_0008, 0x1234);
    mem.set(0x8010_0000, 0x8010_0100);
    let ppn = 0x8000_0000u64 >> 12;
    assert_eq!(rvirt_verified::backtrace::backtrace_step(&mem, ppn, 0x8010_0010), Some((0x1234, 0x8010_0100)));
    assert_eq!(rvirt_verified::backtrace::backtrace_step(&mem, ppn, 8), None);
    assert_eq!(rvirt_verified::backtrace::backtrace_step(&mem, ppn, 0x4000_0010), None);
}

#[test]
fn strings_go_out_byte_by_byte() {
    let mut w = UartWriter { pa: 0x1000_0000, va: None, inner: UartWriterInner::Ns16550a { initialized: false } };
    let sent = w.write_str("hi");
    assert_eq!(
        sent,
        vec![
            Transmit::Ns16550a { base: 0x1000_0000, initialize: true, ch: b'h' },
            Transmit::Ns16550a { base: 0x1000_0000, initialize: false, ch: b'i' },
        ]
    );
    assert!(w.write_str("").is_empty());
    assert_eq!(w.inner, UartWriterInner::Ns16550a { initialized: true });
}

#[test]
fn plic_registers_read_back_as_written() {
    let mut p = PlicState::new();
    let mut clear = false;
    p.write_u32(0x0c00_0010, 7, &mut clear);
    assert_eq!(p.read_u32(0x0c00_0010), 7);
    p.write_u32(0x0c00_2084, 0xdead_beef, &mut clear);
    assert_eq!(p.read_u32(0x0c00_2084), 0xdead_beef);
    p.write_u32(0x0c20_1000, 4, &mut clear);
    assert_eq!(p.read_u32(0x0c20_1000), 4);
    assert!(!clear);
}
