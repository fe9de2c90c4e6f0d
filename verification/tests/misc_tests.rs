use rvirt_verified::elf::{load_elf, Elf64, LoadStep, ProgramHeader64};
use rvirt_verified::htif::{putchar, fields, from_host, FromHost};
use rvirt_verified::print::{decimal, guest_println};

#[test]
fn decimal_digits() {
    assert_eq!(decimal(0), b"0".to_vec());
    assert_eq!(decimal(7), b"7".to_vec());
    assert_eq!(decimal(1234), b"1234".to_vec());
    assert_eq!(decimal(u64::MAX), u64::MAX.to_string().into_bytes());
}

#[test]
fn guest_printlns_carry_the_guest_tag() {
    assert_eq!(guest_println(1, &b"hello".to_vec()), b"\x1b[32m\x1b[1m[1] \x1b[0mhello\n".to_vec());
    assert_eq!(guest_println(2, &b"".to_vec()), b"\x1b[34m\x1b[1m[2] \x1b[0m\n".to_vec());
    assert_eq!(guest_println(12, &b"x".to_vec()), b"\x1b[33m\x1b[1m[12] \x1b[0mx\n".to_vec());
}

#[test]
fn host_target_words() {
    assert_eq!(putchar(b'A'), 0x0101_0000_0000_0041);
    assert_eq!(fields(0x0102_0000_0000_0041), (1, 2, 0x41));
    assert_eq!(from_host(0), FromHost::Nothing);
    assert_eq!(from_host(0x0100_0000_0000_0061), FromHost::Console(0x61));
    assert_eq!(from_host(0x0101_0000_0000_0000), FromHost::Ack);
    assert_eq!(from_host(0x0105_0000_0000_0000), FromHost::Halt);
}

fn push(v: &mut Vec<u8>, bytes: &[u8]) {
    v.extend_from_slice(bytes);
}

/// A RISC-V executable with one loadable segment of 8 file bytes and 24 bytes of memory, and
/// one note segment.
fn image(machine: u16) -> Vec<u8> {
    let mut v = Vec::new();
    push(&mut v, &0x464C_457Fu32.to_le_bytes());
    push(&mut v, &[2, 1, 1, 0, 0]);
    push(&mut v, &[0; 7]);
    push(&mut v, &2u16.to_le_bytes());
    push(&mut v, &machine.to_le_bytes());
    push(&mut v, &1u32.to_le_bytes());
    push(&mut v, &0x8000_0000u64.to_le_bytes());
    push(&mut v, &64u64.to_le_bytes());
    push(&mut v, &0u64.to_le_bytes());
    push(&mut v, &0u32.to_le_bytes());
    push(&mut v, &64u16.to_le_bytes());
    push(&mut v, &56u16.to_le_bytes());
    push(&mut v, &2u16.to_le_bytes());
    push(&mut v, &64u16.to_le_bytes());
    push(&mut v, &0u16.to_le_bytes());
    push(&mut v, &0u16.to_le_bytes());
    assert_eq!(v.len(), 64);
    for (ty, offset, pa, file, mem) in [(1u32, 176u64, 0x8000_0000u64, 8u64, 24u64), (4, 0, 0, 0, 0)] {
        push(&mut v, &ty.to_le_bytes());
        push(&mut v, &5u32.to_le_bytes());
        push(&mut v, &offset.to_le_bytes());
        push(&mut v, &pa.to_le_bytes());
        push(&mut v, &pa.to_le_bytes());
        push(&mut v, &file.to_le_bytes());
        push(&mut v, &mem.to_le_bytes());
        push(&mut v, &4096u64.to_le_bytes());
    }
    push(&mut v, &[0x13, 0, 0, 0, 0x13, 0, 0, 0]);
    v
}

#[test]
fn elf_headers_parse() {
    let v = image(243);
    let e = Elf64::parse(&v).expect("header");
    assert_eq!(e.ident.magic, 0x464C_457F);
    assert_eq!(e.phnum, 2);
    assert_eq!(e.phoff, 64);
    assert_eq!(e.entry, 0x8000_0000);
    assert!(e.loadable());
    let ph = ProgramHeader64::parse(&v, 64).expect("program header");
    assert_eq!(ph.type_, 1);
    assert_eq!(ph.file_size, 8);
    assert_eq!(ph.memory_size, 24);
    assert!(ProgramHeader64::parse(&v, v.len() as u64 - 8).is_none());
    assert!(Elf64::parse(&v[..63].to_vec()).is_none());
}

#[test]
fn elf_segments_load_with_zeroed_tails() {
    let (entry, steps) = load_elf(&image(243), 0x1000).expect("loadable");
    // The header's entry field, counted from where the image is loaded.
    assert_eq!(entry, 0x8000_1000);
    assert_eq!(
        steps,
        vec![
            LoadStep::Copy { dst: 0x8000_0000, src: 176, len: 8 },
            LoadStep::Zero { dst: 0x8000_0008, len: 16 },
        ]
    );
}

#[test]
fn elf_for_another_machine_is_refused() {
    assert!(load_elf(&image(62), 0).is_none());
    let mut v = image(243);
    v.truncate(100);
    assert!(load_elf(&v, 0).is_none());
    // An entry point past the end of the address space.
    assert!(load_elf(&image(243), u64::MAX - 0x1000).is_none());
}
