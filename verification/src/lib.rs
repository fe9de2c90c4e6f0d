//! A trap-and-emulate hypervisor core for RISC-V: the guest-visible state machines
//! (control registers, interrupt controller, serial port, virtio passthrough), the
//! shadow page tables, and the device tree reader, each with its contract.

pub mod bits;
pub mod memory_region;
pub mod pmap;
pub mod plic;
pub mod outside;
pub mod context;
pub mod virtio;
pub mod trap;
pub mod pfault;
pub mod fdt;
pub mod boot;
pub mod pmp;
pub mod drivers;
pub mod print;
pub mod elf;
pub mod htif;
pub mod sbi;
pub mod backtrace;
pub mod pagedebug;
pub mod fdt_laws;
pub mod fdt_listing;
pub mod fdt_reading;
