# rvirt_verified

The core of a RISC-V trap-and-emulate hypervisor, written in Verus: each function carries a
contract, and Verus proves the code against it.

## Layout

- `src/` — the verified library.
  - `context`, `trap`, `pfault`, `virtio`, `plic`: the guest-visible state (control registers,
    interrupt controller, serial port, virtio passthrough) and what a trap from the guest does
    to it.
  - `pmap`, `memory_region`, `backtrace`, `pagedebug`: guest memory, the shadow page tables,
    Sv39 walks and the debugging views of page tables.
  - `fdt`, `fdt_listing`, `fdt_laws`, `fdt_reading`: the flattened device tree reader, the
    guest's copy of it, its text listing, what preparing the guest's copy keeps, and which
    property each machine fact is read from.
  - `boot`, `elf`, `pmp`, `sbi`, `htif`, `print`, `drivers`: planning how the guests start,
    loading the guest kernel, physical memory protection, firmware calls, the simulator's host
    interface, the console, and the network card behind a virtio device.
  - `outside`: the calls into `arrayvec`, `byteorder` and `riscv-decode`, each with the
    contract the library relies on.
- `tests/` — tests of the library on concrete values.
- `app/` — a host tool around the library: it reads a device tree (and optionally a guest
  kernel) and prints what the hypervisor learns from them, how it would start each guest and
  how the kernel image would be loaded. It runs no guest; `carry_out` there is the console and
  stop side of a trap, for a loop that would run one.
