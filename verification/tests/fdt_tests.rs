use rvirt_verified::boot::{boot_checks_hold, guest_of, host_fdt_acceptable, plan_guests, Reason};
use rvirt_verified::bits::{CSR_SATP, CSR_SEPC, CSR_SIE, CSR_SSCRATCH, CSR_STVEC};
use rvirt_verified::context::{initialize, ConsoleOutput, IrqMapping};
use rvirt_verified::fdt::{
    bytes_equal, get_string, parse_hex, round4, Fdt, FdtVisit, Property, UartType,
};
use rvirt_verified::memory_region::MemoryRegion;
use rvirt_verified::pmap::{PageTableRoot, PageTables, DIRECT_MAP_OFFSET};
use rvirt_verified::trap::{strap, TrapFrame};
use rvirt_verified::virtio::{handle_queue_access, Device, Queue};

/// Builds a flattened device tree blob node by node.
struct Blob {
    structs: Vec<u8>,
    strings: Vec<u8>,
}

impl Blob {
    fn new() -> Self {
        Blob { structs: Vec::new(), strings: Vec::new() }
    }

    fn word(&mut self, w: u32) {
        self.structs.extend_from_slice(&w.to_be_bytes());
    }

    fn pad(&mut self) {
        while self.structs.len() % 4 != 0 {
            self.structs.push(0);
        }
    }

    fn begin(&mut self, name: &str) {
        self.word(1);
        self.structs.extend_from_slice(name.as_bytes());
        self.structs.push(0);
        self.pad();
    }

    fn end(&mut self) {
        self.word(2);
    }

    fn name_offset(&mut self, name: &str) -> u32 {
        let needle: Vec<u8> = name.bytes().chain(std::iter::once(0)).collect();
        if let Some(pos) = self.strings.windows(needle.len()).position(|w| w == needle.as_slice()) {
            return pos as u32;
        }
        let pos = self.strings.len() as u32;
        self.strings.extend_from_slice(&needle);
        pos
    }

    fn prop(&mut self, name: &str, value: &[u8]) {
        let off = self.name_offset(name);
        self.word(3);
        self.word(value.len() as u32);
        self.word(off);
        self.structs.extend_from_slice(value);
        self.pad();
    }

    fn prop_u32(&mut self, name: &str, v: u32) {
        self.prop(name, &v.to_be_bytes());
    }

    fn prop_range(&mut self, name: &str, a: u64, b: u64) {
        let mut v = a.to_be_bytes().to_vec();
        v.extend_from_slice(&b.to_be_bytes());
        self.prop(name, &v);
    }

    fn finish(mut self) -> Vec<u8> {
        self.word(9);
        let off_struct = 40 + 16;
        let off_strings = off_struct + self.structs.len();
        let total = off_strings + self.strings.len();
        let mut out = Vec::new();
        for w in [
            0xd00d_feedu32,
            total as u32,
            off_struct as u32,
            off_strings as u32,
            40,
            17,
            16,
            0,
            self.strings.len() as u32,
            self.structs.len() as u32,
        ] {
            out.extend_from_slice(&w.to_be_bytes());
        }
        out.extend_from_slice(&[0u8; 16]);
        out.extend_from_slice(&self.structs);
        out.extend_from_slice(&self.strings);
        out
    }
}

/// A two-hart machine with a serial port, an interrupt controller, a timer and two virtio
/// devices.
fn machine_blob(with_plic: bool) -> Vec<u8> {
    machine_blob_with_harts(with_plic, 2)
}

fn machine_blob_with_harts(with_plic: bool, harts: u32) -> Vec<u8> {
    machine_blob_full(with_plic, harts, 1)
}

fn machine_blob_full(with_plic: bool, harts: u32, first_virtio_irq: u32) -> Vec<u8> {
    let mut b = Blob::new();
    b.begin("");
    b.begin("chosen");
    b.prop("bootargs", b"console=ttyS0\0");
    b.prop_u32("linux,initrd-start", 0x8800_0000);
    b.prop_u32("linux,initrd-end", 0x8810_0000);
    b.end();
    b.begin("memory@80000000");
    b.prop_range("reg", 0x8000_0000, 0x4000_0000);
    b.end();
    b.begin("virtio_mmio@10001000");
    b.prop_range("reg", 0x1000_1000, 0x1000);
    b.prop_u32("interrupts", first_virtio_irq);
    b.end();
    b.begin("cpus");
    b.begin("cpu@0");
    b.prop_u32("reg", 0);
    b.begin("interrupt-controller");
    b.prop_u32("phandle", 1);
    b.end();
    b.end();
    b.begin("cpu@1");
    b.prop_u32("reg", 1);
    b.begin("interrupt-controller");
    b.prop_u32("phandle", 2);
    b.end();
    b.end();
    if harts > 2 {
        b.begin("cpu@2");
        b.prop_u32("reg", 2);
        b.begin("interrupt-controller");
        b.prop_u32("phandle", 3);
        b.end();
        b.end();
    }
    b.end();
    b.begin("soc");
    b.begin("clint@2000000");
    b.prop_range("reg", 0x200_0000, 0x1_0000);
    b.end();
    if with_plic {
        b.begin("interrupt-controller@c000000");
        b.prop_range("reg", 0xc00_0000, 0x400_0000);
        let mut cells = Vec::new();
        for c in [1u32, 11, 1, 9, 2, 11, 2, 9, 3, 11, 3, 9] {
            cells.extend_from_slice(&c.to_be_bytes());
        }
        b.prop("interrupts-extended", &cells);
        b.end();
    }
    b.begin("uart@10000000");
    b.prop_range("reg", 0x1000_0000, 0x100);
    b.prop("compatible", b"ns16550a\0");
    b.end();
    b.end();
    b.begin("virtio_mmio@10002000");
    b.prop_range("reg", 0x1000_2000, 0x1000);
    b.prop_u32("interrupts", 2);
    b.end();
    b.end();
    b.finish()
}

fn fdt_of(blob: Vec<u8>) -> Fdt {
    assert!(Fdt::header_consistent(&blob));
    Fdt::new(blob)
}

#[test]
fn header_fields_are_read_big_endian() {
    let fdt = fdt_of(machine_blob(true));
    assert!(fdt.magic_valid());
    assert_eq!(fdt.version(), 17);
    assert_eq!(fdt.last_comp_version(), 16);
    assert_eq!(fdt.off_dt_struct(), 56);
    assert_eq!(fdt.off_mem_rsvmap(), 40);
    assert_eq!(fdt.boot_cpuid_phys(), 0);
    assert_eq!(fdt.total_size() as usize, fdt.into_bytes().len());
}

#[test]
fn header_consistency_rejects_short_blobs() {
    assert!(!Fdt::header_consistent(&vec![0u8; 39]));
    let mut blob = machine_blob(true);
    blob.truncate(blob.len() - 1);
    assert!(!Fdt::header_consistent(&blob));
}

#[test]
fn parse_reads_the_machine() {
    let fdt = fdt_of(machine_blob(true));
    let m = fdt.parse().expect("machine description");
    assert_eq!(m.physical_memory_offset, 0x8000_0000);
    assert_eq!(m.physical_memory_size, 0x4000_0000);
    assert_eq!(m.uart_type, Some(UartType::Ns16550a));
    assert_eq!(m.uart_address, 0x1000_0000);
    assert_eq!(m.plic_address, 0xc00_0000);
    assert_eq!(m.clint_address, 0x200_0000);
    assert_eq!(m.initrd_start, 0x8800_0000);
    assert_eq!(m.initrd_end, 0x8810_0000);
    assert_eq!(m.command_line(), b"console=ttyS0".to_vec());
    let harts = m.hart_list();
    assert_eq!(harts.len(), 2);
    assert_eq!((harts[0].hartid, harts[0].plic_context), (0, 1));
    assert_eq!((harts[1].hartid, harts[1].plic_context), (1, 3));
    let devices = m.virtio_list();
    assert_eq!(devices.len(), 2);
    assert_eq!((devices[0].base_address, devices[0].size, devices[0].irq), (0x1000_1000, 0x1000, 1));
    assert_eq!((devices[1].base_address, devices[1].size, devices[1].irq), (0x1000_2000, 0x1000, 2));
}

#[test]
fn parse_without_interrupt_controller_fails() {
    let fdt = fdt_of(machine_blob(false));
    assert!(fdt.try_parse().is_none());
}

#[test]
fn walk_visits_nodes_and_properties_in_order() {
    let fdt = fdt_of(machine_blob(true));
    let visits = fdt.walk().expect("walk");
    match &visits[0] {
        FdtVisit::Node { path, unit_addresses, .. } => {
            assert_eq!(path, &b"/".to_vec());
            assert_eq!(unit_addresses, &vec![None]);
        }
        _ => panic!("first visit is the root"),
    }
    match &visits[1] {
        FdtVisit::Node { path, .. } => assert_eq!(path, &b"/chosen".to_vec()),
        _ => panic!("second visit is /chosen"),
    }
    match &visits[2] {
        FdtVisit::Property { path, name, prop, .. } => {
            assert_eq!(path, &b"/chosen".to_vec());
            assert_eq!(name, &b"bootargs".to_vec());
            assert_eq!(prop.len(), 14);
            assert_eq!(prop.value_str(), Some(b"console=ttyS0".to_vec()));
        }
        _ => panic!("third visit is the command line"),
    }
    let cpu = visits.iter().find_map(|v| match v {
        FdtVisit::Node { path, unit_addresses, .. } if path == &b"/cpus/cpu".to_vec() => Some(unit_addresses.clone()),
        _ => None,
    });
    assert_eq!(cpu, Some(vec![None, None, Some(0)]));
    let props = visits.iter().filter(|v| matches!(v, FdtVisit::Property { .. })).count();
    let nodes = visits.len() - props;
    assert_eq!(nodes, 14);
    assert_eq!(props, 17);
}

#[test]
fn walk_fails_on_a_truncated_structure_block() {
    let mut blob = machine_blob(true);
    // Claim a structure block that ends in the middle of a property.
    let size_struct = u32::from_be_bytes([blob[36], blob[37], blob[38], blob[39]]);
    let cut = 40u32;
    blob[36..40].copy_from_slice(&cut.to_be_bytes());
    assert!(size_struct > cut);
    let fdt = fdt_of(blob);
    assert!(fdt.walk().is_none());
    assert!(fdt.parse().is_none());
}

#[test]
fn initialize_guest_rewrites_memory_size_and_command_line() {
    let mut fdt = fdt_of(machine_blob(true));
    assert!(fdt.initialize_guest(0x1000_0000, "quiet"));
    let m = fdt.parse().expect("machine description");
    assert_eq!(m.physical_memory_offset, 0x8000_0000);
    assert_eq!(m.physical_memory_size, 0x1000_0000);
    assert_eq!(m.command_line(), b"quietle=ttyS0".to_vec());
}

#[test]
fn initialize_guest_refuses_a_command_line_that_does_not_fit() {
    let mut fdt = fdt_of(machine_blob(true));
    let before = machine_blob(true);
    assert!(!fdt.initialize_guest(0x1000_0000, "a command line far longer than the property"));
    assert_eq!(fdt.into_bytes(), before);
}

#[test]
fn strings_end_at_zero() {
    let strings = b"reg\0compatible\0".to_vec();
    assert_eq!(get_string(&strings, 0), Some(b"reg".to_vec()));
    assert_eq!(get_string(&strings, 4), Some(b"compatible".to_vec()));
    assert_eq!(get_string(&strings, 15), Some(Vec::new()));
    assert_eq!(get_string(&strings, 16), None);
    assert_eq!(get_string(&vec![0xffu8, 0], 0), None);
}

#[test]
fn hex_unit_addresses() {
    let s = b"+10001000@x".to_vec();
    assert_eq!(parse_hex(&s, 0, 9), Some(0x1000_1000));
    assert_eq!(parse_hex(&s, 1, 9), Some(0x1000_1000));
    assert_eq!(parse_hex(&s, 0, 1), None);
    assert_eq!(parse_hex(&s, 3, 3), None);
    assert_eq!(parse_hex(&s, 1, 10), None);
    let big = b"1ffffffffffffffff".to_vec();
    assert_eq!(parse_hex(&big, 0, 16), Some(0x1fff_ffff_ffff_ffff));
    assert_eq!(parse_hex(&big, 0, 17), None);
    let mixed = b"aBcD".to_vec();
    assert_eq!(parse_hex(&mixed, 0, 4), Some(0xabcd));
}

#[test]
fn round4_rounds_up() {
    assert_eq!(round4(0), 0);
    assert_eq!(round4(1), 4);
    assert_eq!(round4(4), 4);
    assert_eq!(round4(13), 16);
}

#[test]
fn bytes_compare_with_strings() {
    assert!(bytes_equal(&b"/chosen".to_vec(), "/chosen"));
    assert!(!bytes_equal(&b"/chose".to_vec(), "/chosen"));
    assert!(!bytes_equal(&b"/chosex".to_vec(), "/chosen"));
}

fn property(value: &[u8]) -> Property {
    let mut b = Vec::new();
    b.extend_from_slice(&3u32.to_be_bytes());
    b.extend_from_slice(&(value.len() as u32).to_be_bytes());
    b.extend_from_slice(&7u32.to_be_bytes());
    b.extend_from_slice(value);
    while b.len() % 4 != 0 {
        b.push(0);
    }
    let end = b.len();
    Property::from_slice(&b, 0, end).expect("property")
}

#[test]
fn property_values() {
    let p = property(&0x1234u32.to_be_bytes());
    assert_eq!(p.len(), 4);
    assert_eq!(p.name_offset(), 7);
    assert_eq!(p.read_int(), Some(0x1234));
    assert_eq!(p.read_range(), None);
    assert_eq!(p.cells(), 1);
    assert_eq!(p.read_cell(0), Some(0x1234));
    assert_eq!(p.read_cell(1), None);

    let p = property(&0x1_0000_0002u64.to_be_bytes());
    assert_eq!(p.read_int(), Some(0x1_0000_0002));

    let mut v = 5u64.to_be_bytes().to_vec();
    v.extend_from_slice(&6u64.to_be_bytes());
    let p = property(&v);
    assert_eq!(p.read_range(), Some((5, 6)));
    assert_eq!(p.read_int(), None);

    let p = property(b"ns16550a\0");
    assert_eq!(p.value_str(), Some(b"ns16550a".to_vec()));
    assert_eq!(p.value_slice().len(), 12);
    let p = property(b"a\x01b\0");
    assert_eq!(p.value_str(), None);
    let p = property(b"");
    assert_eq!(p.value_str(), Some(Vec::new()));
}

#[test]
fn property_set_and_mask() {
    let mut p = property(&[0u8; 8]);
    p.set(&vec![1, 2, 3, 4, 5, 6, 7, 8]);
    assert_eq!(p.read_int(), Some(0x0102_0304_0506_0708));
    p.mask();
    assert_eq!(p.len(), 4);
}

#[test]
fn property_from_slice_checks_the_token_and_length() {
    let mut b = Vec::new();
    b.extend_from_slice(&3u32.to_be_bytes());
    b.extend_from_slice(&8u32.to_be_bytes());
    b.extend_from_slice(&0u32.to_be_bytes());
    b.extend_from_slice(&[0u8; 4]);
    assert!(Property::from_slice(&b, 0, b.len()).is_none());
    b[3] = 4;
    assert!(Property::from_slice(&b, 0, b.len()).is_none());
}

#[test]
fn host_tree_passes_the_boot_checks() {
    let fdt = fdt_of(machine_blob(true));
    assert!(host_fdt_acceptable(&fdt));
    let mut blob = machine_blob(true);
    blob[0] = 0;
    assert!(!host_fdt_acceptable(&fdt_of(blob)));
}

#[test]
fn boot_plan_starts_the_other_hart() {
    let m = fdt_of(machine_blob(true)).parse().expect("machine");
    let plan = plan_guests(&m, 0, 0x8020_0000).expect("plan");
    assert_eq!(plan.len(), 1);
    let l = &plan[0];
    let base = 0xC000_0000u64;
    assert_eq!(l.hart.hartid, 1);
    assert_eq!(l.guestid, 1);
    assert_eq!(l.hart_base_pa, base);
    assert_eq!(l.irq_mask, 0b110);
    assert_eq!(l.plic_threshold_address, 0xc20_3000);
    assert_eq!(l.plic_enable_address, 0xc00_2180);
    assert_eq!(l.ipi_address, 0x200_0004);
    assert_eq!(
        l.reason,
        Reason::EnterSupervisor {
            a0: 1,
            a1: base + 4096,
            a2: base,
            a3: u64::MAX,
            sp: base + 0x40_0000 + DIRECT_MAP_OFFSET,
            satp: (8 << 60) | (base >> 12),
            mepc: 0x8020_0000,
        }
    );
}

#[test]
fn boot_plan_needs_the_boot_hart() {
    let m = fdt_of(machine_blob(true)).parse().expect("machine");
    assert!(!boot_checks_hold(&m, 5));
    assert!(boot_checks_hold(&m, 0));
}

fn context_for(guestid: Option<u64>) -> rvirt_verified::context::Context {
    let m = fdt_of(machine_blob(true)).parse().expect("machine");
    let g = fdt_of(machine_blob(true)).parse().expect("guest machine");
    let region = MemoryRegion::new(DIRECT_MAP_OFFSET + 0x8200_0000, 0x10000);
    let tables = PageTables::new(region, 0, 0);
    let guest_memory = MemoryRegion::with_base_address(DIRECT_MAP_OFFSET + 0x8000_0000, 0x8000_0000, 0x10000);
    initialize(&m, &g, tables, guest_memory, 0, 1, guestid).expect("context")
}

#[test]
fn initial_context_routes_device_interrupts() {
    let c = context_for(Some(1));
    assert_eq!(c.irq_map[1], IrqMapping::Virtio { device_index: 0, guest_irq: 1 });
    assert_eq!(c.irq_map[2], IrqMapping::Virtio { device_index: 1, guest_irq: 2 });
    assert_eq!(c.irq_map[3], IrqMapping::Ignored);
    assert!(matches!(c.virtio.devices[0], Device::Passthrough { .. }));
    assert!(matches!(c.virtio.devices[2], Device::Unmapped));
    assert_eq!(c.csrs.mtimecmp, u64::MAX);
    assert!(c.smode);
    assert_eq!(c.uart.guestid, Some(1));
}

#[test]
fn initial_context_needs_a_listed_hart_and_a_valid_guest() {
    let m = fdt_of(machine_blob(true)).parse().expect("machine");
    let g = fdt_of(machine_blob(true)).parse().expect("guest machine");
    let region = MemoryRegion::new(DIRECT_MAP_OFFSET + 0x8200_0000, 0x10000);
    let tables = PageTables::new(region, 0, 0);
    let guest_memory = MemoryRegion::with_base_address(DIRECT_MAP_OFFSET + 0x8000_0000, 0x8000_0000, 0x10000);
    assert!(initialize(&m, &g, tables, guest_memory, 0, 7, None).is_none());
    let region = MemoryRegion::new(DIRECT_MAP_OFFSET + 0x8200_0000, 0x10000);
    let tables = PageTables::new(region, 0, 0);
    let guest_memory = MemoryRegion::with_base_address(DIRECT_MAP_OFFSET + 0x8000_0000, 0x8000_0000, 0x10000);
    assert!(initialize(&m, &g, tables, guest_memory, 0, 1, Some(0)).is_none());
}

#[test]
fn sbi_putchar_prints_and_resumes_after_the_call() {
    let mut c = context_for(None);
    c.saved_registers.set(17, 1);
    c.saved_registers.set(10, b'A' as u64);
    let trap = TrapFrame { cause: 8, sstatus: 0, sepc: 0x8000_0000, stval: 0, satp: 0 };
    strap(&mut c, &trap, None, &Vec::new());
    assert!(c.actions.halt.is_none());
    assert_eq!(c.actions.sepc, 0x8000_0004);
    assert_eq!(c.actions.console.len(), 1);
    assert!(matches!(c.actions.console[0], ConsoleOutput::HostByte(b'A')));
}

#[test]
fn csr_instructions_are_emulated() {
    let mut c = context_for(None);
    c.saved_registers.set(11, 0x1234);
    let trap = TrapFrame { cause: 2, sstatus: 0, sepc: 0x8000_0000, stval: 0, satp: 0 };
    strap(&mut c, &trap, Some((0x1405_9073, 4)), &Vec::new());
    assert!(c.actions.halt.is_none());
    assert_eq!(c.csrs.sscratch, 0x1234);
    assert_eq!(c.actions.sepc, 0x8000_0004);
    strap(&mut c, &trap, Some((0x1400_2573, 4)), &Vec::new());
    assert_eq!(c.saved_registers.get(10), 0x1234);
}

#[test]
fn unknown_sbi_calls_stop_the_hart() {
    let mut c = context_for(None);
    c.saved_registers.set(17, 99);
    let trap = TrapFrame { cause: 8, sstatus: 0, sepc: 0x8000_0000, stval: 0, satp: 0 };
    strap(&mut c, &trap, None, &Vec::new());
    assert!(matches!(c.actions.halt, Some(rvirt_verified::context::Halt::UnknownEcall(99))));
}

#[test]
fn traps_from_the_hypervisor_stop_the_hart() {
    let mut c = context_for(None);
    let trap = TrapFrame { cause: 8, sstatus: 0x100, sepc: 0x8000_0000, stval: 0, satp: 0 };
    strap(&mut c, &trap, None, &Vec::new());
    assert!(matches!(c.actions.halt, Some(rvirt_verified::context::Halt::HypervisorTrap)));
}

#[test]
fn boot_plan_gives_each_guest_its_own_segment() {
    let m = fdt_of(machine_blob_with_harts(true, 3)).parse().expect("machine");
    let harts = m.hart_list();
    assert_eq!(harts.len(), 3);
    assert_eq!((harts[2].hartid, harts[2].plic_context), (2, 5));
    let plan = plan_guests(&m, 0, 0x8020_0000).expect("plan");
    assert_eq!(plan.len(), 2);
    assert_eq!((plan[0].guestid, plan[0].hart.hartid, plan[0].hart_base_pa), (1, 1, 0xC000_0000));
    assert_eq!((plan[1].guestid, plan[1].hart.hartid, plan[1].hart_base_pa), (2, 2, 0x1_0000_0000));
    assert!(plan[0].hart_base_pa + 0x4000_0000 <= plan[1].hart_base_pa);
    assert_eq!(plan[0].irq_mask, 0b110);
    assert_eq!(plan[1].irq_mask, 0);
    match plan[1].reason {
        Reason::EnterSupervisor { a3, .. } => assert_eq!(a3, 2),
    }
}

#[test]
fn control_registers_read_back_as_written() {
    let mut c = context_for(None);
    assert!(c.set_csr(CSR_SSCRATCH, 0xdead_beef));
    assert_eq!(c.get_csr(CSR_SSCRATCH, 0), Some(0xdead_beef));
    assert!(c.set_csr(CSR_SEPC, 0x8000_1000));
    assert_eq!(c.get_csr(CSR_SEPC, 0), Some(0x8000_1000));
    assert!(c.set_csr(CSR_STVEC, 0x8000_0003));
    assert_eq!(c.get_csr(CSR_STVEC, 0), Some(0x8000_0001));
    assert!(c.set_csr(CSR_SIE, 0xffff));
    assert_eq!(c.get_csr(CSR_SIE, 0), Some(0x222));
    assert!(c.set_csr(CSR_SATP, (8 << 60) | (5 << 44) | 0x8_0000));
    assert_eq!(c.get_csr(CSR_SATP, 0), Some((8 << 60) | 0x8_0000));
    assert_eq!(c.get_csr(0x7c0, 0), None);
}

fn shape(fdt: &Fdt) -> Vec<(Vec<u8>, Vec<Option<u64>>, Option<(Vec<u8>, usize)>)> {
    fdt.walk()
        .expect("walk")
        .into_iter()
        .map(|v| match v {
            FdtVisit::Node { path, unit_addresses, .. } => (path, unit_addresses, None),
            FdtVisit::Property { path, unit_addresses, name, offset, .. } => (path, unit_addresses, Some((name, offset))),
        })
        .collect()
}

#[test]
fn initialize_guest_keeps_the_tree_structure() {
    let before = shape(&fdt_of(machine_blob(true)));
    let mut fdt = fdt_of(machine_blob(true));
    assert!(fdt.initialize_guest(0x2000_0000, "root=/dev/vda"));
    assert_eq!(shape(&fdt), before);
}

#[test]
fn listing_shows_each_property_with_its_path() {
    let fdt = fdt_of(machine_blob(true));
    let text = String::from_utf8(fdt.print().expect("listing")).expect("ascii");
    let lines: Vec<&str> = text.lines().collect();
    assert_eq!(lines.len(), 17);
    assert_eq!(lines[0], "/chosen:bootargs=\"console=ttyS0\"");
    assert_eq!(lines[1], "/chosen:linux,initrd-start=0x88000000");
    assert!(lines.contains(&"/memory@80000000:reg=80000000:40000000"));
    assert!(lines.contains(&"/cpus/cpu@0:reg=0x0"));
    assert!(lines.contains(&"/cpus/cpu@1/interrupt-controller:phandle=0x2"));
    assert!(lines.contains(&"/soc/interrupt-controller@c000000:interrupts-extended (value_len=48)"));
    assert!(lines.contains(&"/soc/uart@10000000:compatible=\"ns16550a\""));
    assert!(text.ends_with('\n'));
}

#[test]
fn listing_of_a_truncated_tree_is_refused() {
    let mut blob = machine_blob(true);
    blob[36..40].copy_from_slice(&40u32.to_be_bytes());
    assert!(fdt_of(blob).print().is_none());
}

#[test]
fn hexadecimal_digits_are_lowercase_without_leading_zeros() {
    assert_eq!(rvirt_verified::fdt_listing::hex(0), b"0".to_vec());
    assert_eq!(rvirt_verified::fdt_listing::hex(0xc00_0000), b"c000000".to_vec());
    assert_eq!(rvirt_verified::fdt_listing::hex(u64::MAX), b"ffffffffffffffff".to_vec());
}

#[test]
fn launched_harts_read_back_their_guest() {
    let m = fdt_of(machine_blob_with_harts(true, 3)).parse().expect("machine");
    for l in plan_guests(&m, 0, 0x8020_0000).expect("plan") {
        match l.reason {
            Reason::EnterSupervisor { a3, .. } => assert_eq!(guest_of(a3), Some(l.guestid)),
        }
    }
    let single = fdt_of(machine_blob(true)).parse().expect("machine");
    for l in plan_guests(&single, 0, 0x8020_0000).expect("plan") {
        match l.reason {
            Reason::EnterSupervisor { a3, .. } => assert_eq!(guest_of(a3), None),
        }
    }
}

#[test]
fn initial_context_keeps_large_guest_interrupts() {
    let m = fdt_of(machine_blob(true)).parse().expect("machine");
    let g = fdt_of(machine_blob_full(true, 2, 600)).parse().expect("guest machine");
    let region = MemoryRegion::new(DIRECT_MAP_OFFSET + 0x8200_0000, 0x10000);
    let tables = PageTables::new(region, 0, 0);
    let guest_memory = MemoryRegion::with_base_address(DIRECT_MAP_OFFSET + 0x8000_0000, 0x8000_0000, 0x10000);
    let c = initialize(&m, &g, tables, guest_memory, 0, 1, Some(1)).expect("context");
    assert_eq!(c.irq_map[1], IrqMapping::Virtio { device_index: 0, guest_irq: 600 });
}

#[test]
fn masked_nodes_drop_out_of_the_walk() {
    let mut fdt = fdt_of(machine_blob(true));
    let visits = fdt.walk().expect("walk");
    let offset = visits
        .iter()
        .find_map(|v| match v {
            FdtVisit::Node { path, unit_addresses, offset } if path == &b"/cpus/cpu".to_vec() && unit_addresses[2] == Some(1) => Some(*offset),
            _ => None,
        })
        .expect("cpu@1");
    assert!(!fdt.mask_node(offset + 4));
    assert!(fdt.mask_node(offset));
    let after = fdt.walk().expect("walk");
    assert_eq!(after.len(), visits.len() - 4);
    assert!(after.iter().all(|v| !matches!(v, FdtVisit::Node { unit_addresses, .. } if unit_addresses.len() == 3 && unit_addresses[2] == Some(1))));
    let m = fdt.parse().expect("machine");
    assert_eq!(m.hart_list().len(), 1);
}

#[test]
fn leaves_may_not_map_the_tables_themselves() {
    let region = MemoryRegion::new(DIRECT_MAP_OFFSET + 0x8200_0000, 0x10000);
    let mut tables = PageTables::new(region, 0, 0);
    // A leaf whose page lies inside the region holding the tables is refused.
    assert!(!tables.leaf_allowed(((0x8200_1000u64 >> 12) << 10) | 0xf));
    // A table pointer is never a leaf.
    assert!(!tables.leaf_allowed(((0x9000_0000u64 >> 12) << 10) | 0x1));
    let leaf = ((0x9000_0000u64 >> 12) << 10) | 0xf;
    assert!(tables.leaf_allowed(leaf));
    assert_eq!(tables.rmw_mapping(PageTableRoot::UVA, 0x4000_0000, leaf), 0);
    // Mapping the address again hands back what the first call stored.
    let other = ((0x9000_1000u64 >> 12) << 10) | 0xf;
    assert_eq!(tables.rmw_mapping(PageTableRoot::UVA, 0x4000_0000, other), leaf);
    assert_eq!(tables.rmw_mapping(PageTableRoot::UVA, 0x4000_0000, leaf), other);
}

#[test]
fn queue_entry_addresses_read_back_as_written() {
    let mut c = context_for(Some(1));
    if let Device::Passthrough { queues, .. } = &mut c.virtio.devices[0] {
        queues[0] = Queue { guest_pa: 0x8000_1000, host_pa: 0x8000_1000, size: 4 };
    }
    let shift = c.guest_shift;
    c.saved_registers.set(5, 0x8000_2000);
    // sd x5, 0(x6)
    assert!(handle_queue_access(&mut c, 0x8000_1010, 0x8000_1010, 0x0053_3023));
    assert!(c.actions.halt.is_none());
    // The guest address is held as the host address.
    assert_eq!(c.guest_memory.get(0x8000_1010), Some(0x8000_2000u64.wrapping_add(shift)));
    // ld x7, 0(x6)
    assert!(handle_queue_access(&mut c, 0x8000_1010, 0x8000_1010, 0x0003_3383));
    assert_eq!(c.saved_registers.get(7), 0x8000_2000);
}

#[test]
fn page_tables_stay_out_of_the_initrd() {
    let region = MemoryRegion::new(DIRECT_MAP_OFFSET + 0x8200_0000, 0x10000);
    let tables = PageTables::new(region, 0x8200_c000, 0x8201_0000);
    assert_eq!(tables.root_pa(PageTableRoot::MPA), 0x8200_b000);
    assert_eq!(tables.root_pa(PageTableRoot::UVA), 0x8200_a000);
    assert_eq!(tables.root_pa(PageTableRoot::KVA), 0x8200_9000);
    assert_eq!(tables.root_pa(PageTableRoot::MVA), 0x8200_8000);
}

#[test]
fn property_set_then_read_range() {
    let mut p = property(&[0u8; 16]);
    let mut v = 0x8000_0000u64.to_be_bytes().to_vec();
    v.extend_from_slice(&0x4000_0000u64.to_be_bytes());
    p.set(&v);
    assert_eq!(p.read_range(), Some((0x8000_0000, 0x4000_0000)));
    assert_eq!(p.len(), 16);
    assert_eq!(p.name_offset(), 7);
}
