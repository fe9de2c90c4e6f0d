//! A virtio device that the hypervisor itself implements for the guest, on top of a host
//! device driver: the virtio MMIO register file, and the Cadence GEM Ethernet driver behind it.
use vstd::prelude::*;
use crate::memory_region::MemoryRegion;

verus! {

pub const VENDOR_ID: u32 = 0x1af4;
pub const MAGIC_VALUE: u32 = 0x74726976;

pub const REG_MAGIC_VALUE: u64 = 0x0;
pub const REG_VERSION: u64 = 0x004;
pub const REG_DEVICE_ID: u64 = 0x008;
pub const REG_VENDOR_ID: u64 = 0x00c;
pub const REG_HOST_FEATURES: u64 = 0x010;
pub const REG_HOST_FEATURES_SEL: u64 = 0x014;
pub const REG_GUEST_FEATURES: u64 = 0x020;
pub const REG_GUEST_FEATURES_SEL: u64 = 0x024;
pub const REG_GUEST_PAGE_SIZE: u64 = 0x028;
pub const REG_QUEUE_SEL: u64 = 0x030;
pub const REG_QUEUE_NUM_MAX: u64 = 0x034;
pub const REG_QUEUE_NUM: u64 = 0x038;
pub const REG_QUEUE_ALIGN: u64 = 0x03c;
pub const REG_QUEUE_PFN: u64 = 0x040;
pub const REG_QUEUE_NOTIFY: u64 = 0x050;
pub const REG_INTERRUPT_STATUS: u64 = 0x060;
pub const REG_INTERRUPT_ACK: u64 = 0x064;
pub const REG_STATUS: u64 = 0x070;

pub const STATUS_ACKNOWLEDGE: u32 = 1;
pub const STATUS_DRIVER: u32 = 2;
pub const STATUS_FAILED: u32 = 128;
pub const STATUS_FEATURES_OK: u32 = 8;
pub const STATUS_DRIVER_OK: u32 = 4;
pub const STATUS_NEEDS_RESET: u32 = 64;

pub const VIRTIO_NET_F_MTU: u64 = 0x8;
pub const VIRTIO_NET_F_MAC: u64 = 0x20;

pub const VIRTQ_DESC_F_NEXT: u16 = 1;
pub const VIRTQ_DESC_F_WRITE: u16 = 2;

pub const MAX_QUEUES: usize = 4;

/// A host device driver that backs a virtio device of the guest.
pub trait Driver: Sized {
    /// The virtio device id the guest sees.
    spec fn spec_device_id() -> u32;

    /// The feature bits the device offers.
    spec fn spec_features() -> u64;

    /// The largest queue the device accepts.
    spec fn spec_queue_num_max() -> u32;

    /// Byte `offset` of the device's configuration space.
    spec fn config_byte(&self, offset: u64) -> u8;

    /// Whether the driver supports a write of configuration byte `offset`.
    spec fn config_write_supported(offset: u64) -> bool;

    /// The driver's internal consistency, which its operations keep.
    spec fn inv(&self) -> bool;

    /// The driver once the guest has written `value` to configuration byte `offset`.
    spec fn after_config_write(&self, offset: u64, value: u8) -> Self;

    /// The driver once it has handled an interrupt of its host device.
    spec fn after_interrupt(&self) -> Self;

    /// Whether handling an interrupt of the host device forwards it to the guest.
    spec fn forwards_interrupt(&self) -> bool;

    fn device_id() -> (r: u32)
        ensures
            r == Self::spec_device_id(),
    ;

    fn features() -> (r: u64)
        ensures
            r == Self::spec_features(),
    ;

    fn queue_num_max() -> (r: u32)
        ensures
            r == Self::spec_queue_num_max(),
    ;

    /// Handles an interrupt of the host device; whether it must be forwarded to the guest.
    fn interrupt(&mut self) -> (r: bool)
        requires
            old(self).inv(),
        ensures
            final(self).inv(),
            *final(self) == old(self).after_interrupt(),
            r == old(self).forwards_interrupt(),
    ;

    /// The guest notified queue `queue`.
    fn doorbell(&mut self, queue: u32)
        requires
            old(self).inv(),
        ensures
            final(self).inv(),
    ;

    fn read_config_u8(&self, offset: u64) -> (r: u8)
        ensures
            r == self.config_byte(offset),
    ;

    /// The little-endian 32-bit word at `offset` of the configuration space.
    fn read_config_u32(&self, offset: u64) -> (r: u32)
        requires
            offset + 3 <= u64::MAX,
        ensures
            r == self.config_byte(offset) as u32 | (self.config_byte((offset + 1) as u64) as u32) << 8u32
                | (self.config_byte((offset + 2) as u64) as u32) << 16u32 | (self.config_byte((offset + 3) as u64) as u32) << 24u32,
    {
        let b0 = self.read_config_u8(offset);
        let b1 = self.read_config_u8(offset + 1);
        let b2 = self.read_config_u8(offset + 2);
        let b3 = self.read_config_u8(offset + 3);
        (b0 as u32) | ((b1 as u32) << 8u32) | ((b2 as u32) << 16u32) | ((b3 as u32) << 24u32)
    }

    fn write_config_u8(&mut self, offset: u64, value: u8)
        requires
            old(self).inv(),
            Self::config_write_supported(offset),
        ensures
            final(self).inv(),
            *final(self) == old(self).after_config_write(offset, value),
    ;

    /// Writes the little-endian 32-bit word `value` at `offset` of the configuration space,
    /// byte by byte.
    fn write_config_u32(&mut self, offset: u64, value: u32)
        requires
            old(self).inv(),
            offset + 3 <= u64::MAX,
            forall|k: u64| offset <= k <= offset + 3 ==> #[trigger] Self::config_write_supported(k),
        ensures
            final(self).inv(),
            *final(self) == old(self).after_config_write(offset, (value & 0xff) as u8)
                .after_config_write((offset + 1) as u64, ((value >> 8u32) & 0xff) as u8)
                .after_config_write((offset + 2) as u64, ((value >> 16u32) & 0xff) as u8)
                .after_config_write((offset + 3) as u64, ((value >> 24u32) & 0xff) as u8),
    {
        self.write_config_u8(offset, (value & 0xff) as u8);
        self.write_config_u8(offset + 1, ((value >> 8u32) & 0xff) as u8);
        self.write_config_u8(offset + 2, ((value >> 16u32) & 0xff) as u8);
        self.write_config_u8(offset + 3, ((value >> 24u32) & 0xff) as u8);
    }

    /// Resets the host device.
    fn reset(&mut self)
        requires
            old(self).inv(),
        ensures
            final(self).inv(),
    ;
}

/// The virtio MMIO register file of a device the hypervisor implements, over host driver `D`.
pub struct GuestDevice<D: Driver> {
    pub host_features_sel: u32,
    pub guest_features_sel: u32,
    pub guest_features: u64,
    pub guest_page_size: u32,
    pub queue_sel: u32,
    pub queue_num: [u32; 4],
    pub queue_align: [u32; 4],
    pub queue_pfn: [u32; 4],
    pub interrupt_status: u32,
    pub status: u32,
    pub host_driver: D,
}

/// The value a 32-bit read of register `offset` (within the register file) gives.
pub open spec fn register_value<D: Driver>(dev: &GuestDevice<D>, offset: u64) -> u32 {
    if offset == REG_MAGIC_VALUE {
        MAGIC_VALUE
    } else if offset == REG_VERSION {
        1
    } else if offset == REG_DEVICE_ID {
        D::spec_device_id()
    } else if offset == REG_VENDOR_ID {
        VENDOR_ID
    } else if offset == REG_HOST_FEATURES {
        if dev.host_features_sel == 0 {
            (D::spec_features() & 0xffff_ffff) as u32
        } else if dev.host_features_sel == 1 {
            ((D::spec_features() >> 32u64) & 0xffff_ffff) as u32
        } else {
            0
        }
    } else if offset == REG_HOST_FEATURES_SEL {
        dev.host_features_sel
    } else if offset == REG_GUEST_FEATURES_SEL {
        dev.guest_features_sel
    } else if offset == REG_GUEST_PAGE_SIZE {
        dev.guest_page_size
    } else if offset == REG_QUEUE_SEL {
        dev.queue_sel
    } else if offset == REG_QUEUE_NUM_MAX {
        D::spec_queue_num_max()
    } else if offset == REG_QUEUE_NUM {
        dev.queue_num[dev.queue_sel as int]
    } else if offset == REG_QUEUE_ALIGN {
        dev.queue_align[dev.queue_sel as int]
    } else if offset == REG_QUEUE_PFN {
        dev.queue_pfn[dev.queue_sel as int]
    } else if offset == REG_STATUS {
        dev.status
    } else {
        0
    }
}

/// Whether `new` is `old` with every register in its reset state (the status and the driver
/// aside).
pub open spec fn registers_reset<D: Driver>(new: &GuestDevice<D>, old: &GuestDevice<D>) -> bool {
    &&& new.host_features_sel == 0
    &&& new.guest_features_sel == 0
    &&& new.guest_features == 0
    &&& new.guest_page_size == 4096
    &&& new.queue_sel == 0
    &&& new.queue_num@ == seq![0u32, 0u32, 0u32, 0u32]
    &&& new.queue_align@ == seq![0u32, 0u32, 0u32, 0u32]
    &&& new.queue_pfn@ == seq![0u32, 0u32, 0u32, 0u32]
    &&& new.interrupt_status == 0
    &&& new.status == old.status
}

/// Whether `new` is `old` with its registers, but not its driver, unchanged.
pub open spec fn same_registers<D: Driver>(new: &GuestDevice<D>, old: &GuestDevice<D>) -> bool {
    &&& new.host_features_sel == old.host_features_sel
    &&& new.guest_features_sel == old.guest_features_sel
    &&& new.guest_features == old.guest_features
    &&& new.guest_page_size == old.guest_page_size
    &&& new.queue_sel == old.queue_sel
    &&& new.queue_num == old.queue_num
    &&& new.queue_align == old.queue_align
    &&& new.queue_pfn == old.queue_pfn
    &&& new.interrupt_status == old.interrupt_status
    &&& new.status == old.status
}

/// What a 32-bit write of `value` to register `offset` (within the register file) does to
/// the registers: `new` is `old` with that register set (the 32-bit half of the guest features
/// that the selector names, the queue settings of the selected queue, the acknowledged
/// interrupt bits cleared, the status set, or all reset by a zero status).
pub open spec fn register_written<D: Driver>(new: &GuestDevice<D>, old: &GuestDevice<D>, offset: u64, value: u32) -> bool {
    if offset == REG_HOST_FEATURES_SEL {
        same_registers(new, &GuestDevice { host_features_sel: value, ..*old })
    } else if offset == REG_GUEST_FEATURES && old.guest_features_sel == 0 {
        same_registers(new, &GuestDevice { guest_features: (old.guest_features & !0xffff_ffffu64) | value as u64, ..*old })
    } else if offset == REG_GUEST_FEATURES && old.guest_features_sel == 1 {
        same_registers(new, &GuestDevice { guest_features: (old.guest_features & 0xffff_ffffu64) | ((value as u64) << 32u64), ..*old })
    } else if offset == REG_GUEST_FEATURES_SEL {
        same_registers(new, &GuestDevice { guest_features_sel: value, ..*old })
    } else if offset == REG_GUEST_PAGE_SIZE {
        same_registers(new, &GuestDevice { guest_page_size: value, ..*old })
    } else if offset == REG_QUEUE_SEL {
        same_registers(new, &GuestDevice { queue_sel: value, ..*old })
    } else if offset == REG_QUEUE_NUM {
        &&& new.queue_num@ == old.queue_num@.update(old.queue_sel as int, value)
        &&& same_registers(new, &GuestDevice { queue_num: new.queue_num, ..*old })
    } else if offset == REG_QUEUE_ALIGN {
        &&& new.queue_align@ == old.queue_align@.update(old.queue_sel as int, value)
        &&& same_registers(new, &GuestDevice { queue_align: new.queue_align, ..*old })
    } else if offset == REG_QUEUE_PFN {
        &&& new.queue_pfn@ == old.queue_pfn@.update(old.queue_sel as int, value)
        &&& same_registers(new, &GuestDevice { queue_pfn: new.queue_pfn, ..*old })
    } else if offset == REG_INTERRUPT_ACK {
        same_registers(new, &GuestDevice { interrupt_status: old.interrupt_status & !value, ..*old })
    } else if offset == REG_STATUS {
        if value == 0 {
            registers_reset(new, old)
        } else {
            same_registers(new, &GuestDevice { status: value, ..*old })
        }
    } else {
        same_registers(new, old)
    }
}

impl<D: Driver> GuestDevice<D> {
    /// The driver is consistent.
    pub open spec fn wf(&self) -> bool {
        self.host_driver.inv()
    }

    /// The register file of a device over `host_driver`, in its reset state with status 0.
    pub fn new(host_driver: D) -> (r: Self)
        ensures
            r.host_features_sel == 0,
            r.guest_features_sel == 0,
            r.guest_features == 0,
            r.guest_page_size == 4096,
            r.queue_sel == 0,
            r.queue_num@ == seq![0u32, 0u32, 0u32, 0u32],
            r.queue_align@ == seq![0u32, 0u32, 0u32, 0u32],
            r.queue_pfn@ == seq![0u32, 0u32, 0u32, 0u32],
            r.interrupt_status == 0,
            r.status == 0,
            r.host_driver == host_driver,
    {
        let r = GuestDevice {
            host_features_sel: 0,
            guest_features_sel: 0,
            guest_features: 0,
            guest_page_size: 4096,
            queue_sel: 0,
            queue_num: [0u32; 4],
            queue_align: [0u32; 4],
            queue_pfn: [0u32; 4],
            interrupt_status: 0,
            status: 0,
            host_driver,
        };
        assert(r.queue_num@ =~= seq![0u32, 0u32, 0u32, 0u32]);
        assert(r.queue_align@ =~= seq![0u32, 0u32, 0u32, 0u32]);
        assert(r.queue_pfn@ =~= seq![0u32, 0u32, 0u32, 0u32]);
        r
    }

    /// A byte read at `offset`: the configuration space above 0x100, else 0.
    pub fn read_u8(&mut self, offset: u64) -> (r: u8)
        ensures
            *final(self) == *old(self),
            r == (if offset > 0x100 { old(self).host_driver.config_byte(offset) } else { 0 }),
    {
        if offset > 0x100 {
            self.host_driver.read_config_u8(offset)
        } else {
            0
        }
    }

    /// A 32-bit read at `offset`: 0 where misaligned; the configuration space above 0x100; else
    /// the register's value.
    pub fn read_u32(&mut self, offset: u64) -> (r: u32)
        requires
            offset + 3 <= u64::MAX,
            offset == REG_QUEUE_NUM || offset == REG_QUEUE_ALIGN || offset == REG_QUEUE_PFN ==> old(self).queue_sel < 4,
        ensures
            *final(self) == *old(self),
            r == (if offset % 4 != 0 {
                0
            } else if offset > 0x100 {
                old(self).host_driver.config_byte(offset) as u32
                    | (old(self).host_driver.config_byte((offset + 1) as u64) as u32) << 8u32
                    | (old(self).host_driver.config_byte((offset + 2) as u64) as u32) << 16u32
                    | (old(self).host_driver.config_byte((offset + 3) as u64) as u32) << 24u32
            } else {
                register_value(old(self), offset)
            }),
    {
        if offset % 4 != 0 {
            return 0;
        }
        if offset > 0x100 {
            return self.host_driver.read_config_u32(offset);
        }
        if offset == REG_MAGIC_VALUE {
            MAGIC_VALUE
        } else if offset == REG_VERSION {
            1
        } else if offset == REG_DEVICE_ID {
            D::device_id()
        } else if offset == REG_VENDOR_ID {
            VENDOR_ID
        } else if offset == REG_HOST_FEATURES {
            if self.host_features_sel == 0 {
                (D::features() & 0xffff_ffff) as u32
            } else if self.host_features_sel == 1 {
                ((D::features() >> 32u64) & 0xffff_ffff) as u32
            } else {
                0
            }
        } else if offset == REG_HOST_FEATURES_SEL {
            self.host_features_sel
        } else if offset == REG_GUEST_FEATURES_SEL {
            self.guest_features_sel
        } else if offset == REG_GUEST_PAGE_SIZE {
            self.guest_page_size
        } else if offset == REG_QUEUE_SEL {
            self.queue_sel
        } else if offset == REG_QUEUE_NUM_MAX {
            D::queue_num_max()
        } else if offset == REG_QUEUE_NUM {
            self.queue_num[self.queue_sel as usize]
        } else if offset == REG_QUEUE_ALIGN {
            self.queue_align[self.queue_sel as usize]
        } else if offset == REG_QUEUE_PFN {
            self.queue_pfn[self.queue_sel as usize]
        } else if offset == REG_STATUS {
            self.status
        } else {
            0
        }
    }

    /// A byte write at `offset`: to the configuration space above 0x100, else ignored.
    pub fn write_u8(&mut self, offset: u64, value: u8)
        requires
            old(self).wf(),
            offset > 0x100 ==> D::config_write_supported(offset),
        ensures
            final(self).wf(),
            offset > 0x100 ==> *final(self) == (GuestDevice {
                host_driver: old(self).host_driver.after_config_write(offset, value),
                ..*old(self)
            }),
            offset <= 0x100 ==> *final(self) == *old(self),
    {
        if offset > 0x100 {
            self.host_driver.write_config_u8(offset, value);
        }
    }

    /// Resets the registers (the status aside).
    fn reset(&mut self)
        ensures
            registers_reset(final(self), old(self)),
            final(self).host_driver == old(self).host_driver,
    {
        self.host_features_sel = 0;
        self.guest_features_sel = 0;
        self.guest_features = 0;
        self.guest_page_size = 4096;
        self.queue_sel = 0;
        self.queue_num = [0u32; 4];
        self.queue_align = [0u32; 4];
        self.queue_pfn = [0u32; 4];
        self.interrupt_status = 0;
        assert(self.queue_num@ =~= seq![0u32, 0u32, 0u32, 0u32]);
        assert(self.queue_align@ =~= seq![0u32, 0u32, 0u32, 0u32]);
        assert(self.queue_pfn@ =~= seq![0u32, 0u32, 0u32, 0u32]);
    }

    /// A 32-bit write of `value` at `offset`: ignored where misaligned; to the configuration
    /// space above 0x100 (little-endian, byte by byte); else to the register, as
    /// `register_written` says, with a queue notification passed on to the driver and a zero
    /// status resetting the driver too.
    pub fn write_u32(&mut self, offset: u64, value: u32)
        requires
            old(self).wf(),
            offset + 3 <= u64::MAX,
            offset == REG_QUEUE_NUM || offset == REG_QUEUE_ALIGN || offset == REG_QUEUE_PFN ==> old(self).queue_sel < 4,
            offset % 4 == 0 && offset > 0x100 ==> forall|k: u64| offset <= k <= offset + 3
                ==> #[trigger] D::config_write_supported(k),
        ensures
            final(self).wf(),
            offset % 4 != 0 ==> *final(self) == *old(self),
            offset % 4 == 0 && offset > 0x100 ==> same_registers(final(self), old(self)),
            offset % 4 == 0 && offset <= 0x100 ==> register_written(final(self), old(self), offset, value),
    {
        if offset % 4 != 0 {
            return;
        }
        if offset > 0x100 {
            self.host_driver.write_config_u32(offset, value);
            return;
        }
        if offset == REG_HOST_FEATURES_SEL {
            self.host_features_sel = value;
        } else if offset == REG_GUEST_FEATURES && self.guest_features_sel == 0 {
            self.guest_features = (self.guest_features & !0xffff_ffffu64) | value as u64;
        } else if offset == REG_GUEST_FEATURES && self.guest_features_sel == 1 {
            self.guest_features = (self.guest_features & 0xffff_ffffu64) | ((value as u64) << 32u64);
        } else if offset == REG_GUEST_FEATURES_SEL {
            self.guest_features_sel = value;
        } else if offset == REG_GUEST_PAGE_SIZE {
            self.guest_page_size = value;
        } else if offset == REG_QUEUE_SEL {
            self.queue_sel = value;
        } else if offset == REG_QUEUE_NUM {
            let q = self.queue_sel as usize;
            self.queue_num[q] = value;
        } else if offset == REG_QUEUE_ALIGN {
            let q = self.queue_sel as usize;
            self.queue_align[q] = value;
        } else if offset == REG_QUEUE_PFN {
            let q = self.queue_sel as usize;
            self.queue_pfn[q] = value;
        } else if offset == REG_QUEUE_NOTIFY {
            self.host_driver.doorbell(value);
        } else if offset == REG_INTERRUPT_ACK {
            self.interrupt_status = self.interrupt_status & !value;
        } else if offset == REG_STATUS {
            if value == 0 {
                self.reset();
                self.host_driver.reset();
            } else {
                self.status = value;
            }
        }
    }

    /// Handles an interrupt of the host device; whether it must be forwarded to the guest.
    pub fn interrupt(&mut self) -> (r: bool)
        requires
            old(self).wf(),
        ensures
            final(self).wf(),
            *final(self) == (GuestDevice { host_driver: old(self).host_driver.after_interrupt(), ..*old(self) }),
            r == old(self).host_driver.forwards_interrupt(),
    {
        self.host_driver.interrupt()
    }
}


/// A register the guest writes reads back as written: the feature selectors, the page size, the
/// queue selector, a nonzero status, and the selected queue's size, alignment and page number.
pub proof fn lemma_register_write_read<D: Driver>(new: &GuestDevice<D>, old: &GuestDevice<D>, offset: u64, value: u32)
    requires
        register_written(new, old, offset, value),
        offset == REG_HOST_FEATURES_SEL || offset == REG_GUEST_FEATURES_SEL || offset == REG_GUEST_PAGE_SIZE
            || offset == REG_QUEUE_SEL || (offset == REG_STATUS && value != 0)
            || ((offset == REG_QUEUE_NUM || offset == REG_QUEUE_ALIGN || offset == REG_QUEUE_PFN) && old.queue_sel < 4),
    ensures
        register_value(new, offset) == value,
{
}

/// Writing a zero status resets the device: every register but the status reads as after
/// construction.
pub proof fn lemma_status_zero_resets<D: Driver>(new: &GuestDevice<D>, old: &GuestDevice<D>)
    requires
        register_written(new, old, REG_STATUS, 0),
    ensures
        register_value(new, REG_QUEUE_SEL) == 0,
        register_value(new, REG_GUEST_PAGE_SIZE) == 4096,
        register_value(new, REG_HOST_FEATURES_SEL) == 0,
        register_value(new, REG_GUEST_FEATURES_SEL) == 0,
        register_value(new, REG_QUEUE_NUM) == 0,
        register_value(new, REG_QUEUE_ALIGN) == 0,
        register_value(new, REG_QUEUE_PFN) == 0,
        new.guest_features == 0,
        new.interrupt_status == 0,
        new.status == old.status,
{
}

pub const GEM_DMACFG: u64 = 0x0000_0010;
pub const GEM_RXQBASE: u64 = 0x0000_0018;
pub const GEM_TXQBASE: u64 = 0x0000_001C;
pub const GEM_TBQPH: u64 = 0x0000_04C8;
pub const GEM_RBQPH: u64 = 0x0000_04D4;
pub const GEM_DMACFG_ADDR_64B: u32 = 0x4000_0000;

pub const DESC_1_USED: u32 = 0x8000_0000;
pub const DESC_1_LENGTH: u32 = 0x0000_1FFF;
pub const DESC_1_TX_WRAP: u32 = 0x4000_0000;
pub const DESC_1_TX_LAST: u32 = 0x0000_8000;
pub const DESC_0_RX_WRAP: u32 = 0x0000_0002;
pub const DESC_0_RX_OWNERSHIP: u32 = 0x0000_0001;

pub const QUEUE_LENGTH: usize = 1024;
pub const VIRTIO_MTU: u16 = 2048;

/// A receive descriptor of the Ethernet device: buffer address (low word), status, buffer
/// address (high word), reserved.
#[derive(Copy, Clone, Debug)]
pub struct RxDesc(pub [u32; 4]);

impl RxDesc {
    /// A descriptor for the buffer at `addr`.
    pub fn new(addr: u64) -> (r: Self)
        ensures
            r.0@ == seq![addr as u32, 0u32, (addr >> 32u64) as u32, 0u32],
    {
        let r = RxDesc([addr as u32, 0, (addr >> 32u64) as u32, 0]);
        assert(r.0@ =~= seq![addr as u32, 0u32, (addr >> 32u64) as u32, 0u32]);
        r
    }
}

/// A transmit descriptor of the Ethernet device.
#[derive(Copy, Clone, Debug)]
pub struct TxDesc(pub [u32; 4]);

/// Driver for the Cadence GEM Ethernet device, which backs the guest's network device.
pub struct MacbDriver {
    control_registers: MemoryRegion<u32>,
    mac: [u8; 6],
    rx_queues: [[RxDesc; 1024]; 4],
    tx_queue: [TxDesc; 1024],
    tx_tail: usize,
    /// The physical addresses of the first receive queue and of the transmit queue.
    rx_queue_pa: u64,
    tx_queue_pa: u64,
}

impl MacbDriver {
    /// The device's register file.
    pub closed spec fn registers(&self) -> MemoryRegion<u32> {
        self.control_registers
    }

    /// The physical addresses of the first receive queue and of the transmit queue.
    pub closed spec fn queue_addresses(&self) -> (u64, u64) {
        (self.rx_queue_pa, self.tx_queue_pa)
    }

    /// The device's MAC address.
    pub closed spec fn spec_mac(&self) -> Seq<u8> {
        self.mac@
    }

    /// The last descriptor of the first receive queue, and of the transmit queue.
    pub closed spec fn last_descriptors(&self) -> (RxDesc, TxDesc) {
        (self.rx_queues[0][1023], self.tx_queue[1023])
    }

    /// A driver for the device whose register file is `control_registers` (from address 0),
    /// whose first receive queue and transmit queue lie at physical addresses `rx_queue_pa`
    /// and `tx_queue_pa`; its MAC address is zero and its queues empty.
    pub fn new(control_registers: MemoryRegion<u32>, rx_queue_pa: u64, tx_queue_pa: u64) -> (r: Self)
        requires
            control_registers.wf(),
            control_registers.spec_base() == 0,
            control_registers.spec_len() >= 0x1000,
        ensures
            r.registers() == control_registers,
            r.spec_mac() == seq![0u8, 0u8, 0u8, 0u8, 0u8, 0u8],
            r.queue_addresses() == (rx_queue_pa, tx_queue_pa),
            r.inv(),
    {
        let r = MacbDriver {
            control_registers,
            mac: [0u8; 6],
            rx_queues: [[RxDesc([0u32; 4]); 1024]; 4],
            tx_queue: [TxDesc([0u32; 4]); 1024],
            tx_tail: 0,
            rx_queue_pa,
            tx_queue_pa,
        };
        assert(r.mac@ =~= seq![0u8, 0u8, 0u8, 0u8, 0u8, 0u8]);
        r
    }
}

impl Driver for MacbDriver {
    open spec fn spec_device_id() -> u32 {
        1
    }

    open spec fn spec_features() -> u64 {
        VIRTIO_NET_F_MAC | VIRTIO_NET_F_MTU
    }

    open spec fn spec_queue_num_max() -> u32 {
        2
    }

    /// Bytes 0 to 5 are the MAC address, bytes 10 and 11 the MTU (little-endian), the rest 0.
    open spec fn config_byte(&self, offset: u64) -> u8 {
        if offset <= 5 {
            self.spec_mac()[offset as int]
        } else if offset == 10 {
            (VIRTIO_MTU % 256) as u8
        } else if offset == 11 {
            (VIRTIO_MTU / 256) as u8
        } else {
            0
        }
    }

    /// The MAC address cannot be changed.
    open spec fn config_write_supported(offset: u64) -> bool {
        offset > 5
    }

    /// The device's registers cover its register file from address 0.
    open spec fn inv(&self) -> bool {
        &&& self.registers().wf()
        &&& self.registers().spec_base() == 0
        &&& self.registers().spec_len() >= 0x1000
    }

    /// Configuration writes change nothing: the MAC address cannot be changed, and the
    /// other bytes are read-only.
    open spec fn after_config_write(&self, offset: u64, value: u8) -> Self {
        *self
    }

    /// Interrupts need no handling.
    open spec fn after_interrupt(&self) -> Self {
        *self
    }

    /// No interrupt is forwarded.
    open spec fn forwards_interrupt(&self) -> bool {
        false
    }

    fn device_id() -> (r: u32) {
        1
    }

    fn features() -> (r: u64) {
        VIRTIO_NET_F_MAC | VIRTIO_NET_F_MTU
    }

    fn queue_num_max() -> (r: u32) {
        2
    }

    fn interrupt(&mut self) -> (r: bool)
        ensures
            !r,
    {
        false
    }

    fn doorbell(&mut self, queue: u32) {
    }

    fn read_config_u8(&self, offset: u64) -> (r: u8) {
        if offset <= 5 {
            self.mac[offset as usize]
        } else if offset == 10 {
            (VIRTIO_MTU % 256) as u8
        } else if offset == 11 {
            (VIRTIO_MTU / 256) as u8
        } else {
            0
        }
    }

    fn write_config_u8(&mut self, offset: u64, value: u8) {
    }

    /// Points the device at the driver's queues with 64-bit descriptors, and marks the last
    /// descriptor of each queue as the one that wraps around.
    fn reset(&mut self)
        ensures
            final(self).registers().at(GEM_DMACFG) == GEM_DMACFG_ADDR_64B,
            final(self).registers().at(GEM_RXQBASE) == old(self).queue_addresses().0 as u32,
            final(self).registers().at(GEM_RBQPH) == (old(self).queue_addresses().0 >> 32u64) as u32,
            final(self).registers().at(GEM_TXQBASE) == old(self).queue_addresses().1 as u32,
            final(self).registers().at(GEM_TBQPH) == (old(self).queue_addresses().1 >> 32u64) as u32,
            final(self).last_descriptors().0.0[1] == old(self).last_descriptors().0.0[1] | DESC_1_TX_WRAP,
            final(self).last_descriptors().1.0[0] == old(self).last_descriptors().1.0[0] | DESC_0_RX_WRAP,
    {
        let rx = self.rx_queue_pa;
        let tx = self.tx_queue_pa;
        assert(self.control_registers.slot(GEM_DMACFG) == 4 && self.control_registers.slot(GEM_RXQBASE) == 6
            && self.control_registers.slot(GEM_TXQBASE) == 7 && self.control_registers.slot(GEM_TBQPH) == 306
            && self.control_registers.slot(GEM_RBQPH) == 309);
        assert(0u32 | GEM_DMACFG_ADDR_64B == GEM_DMACFG_ADDR_64B) by (bit_vector);
        proof {
            self.control_registers.lemma_wf();
        }
        self.control_registers.set(GEM_DMACFG, 0);
        let cfg = self.control_registers.index(GEM_DMACFG);
        self.control_registers.set(GEM_DMACFG, cfg | GEM_DMACFG_ADDR_64B);
        let ghost r1 = self.control_registers@;
        assert(r1[4] == GEM_DMACFG_ADDR_64B);
        self.control_registers.set(GEM_RXQBASE, rx as u32);
        self.control_registers.set(GEM_RBQPH, (rx >> 32u64) as u32);
        self.control_registers.set(GEM_TXQBASE, tx as u32);
        self.control_registers.set(GEM_TBQPH, (tx >> 32u64) as u32);

        let mut rxd = self.rx_queues[0][QUEUE_LENGTH - 1];
        rxd.0[1] = rxd.0[1] | DESC_1_TX_WRAP;
        let mut q0 = self.rx_queues[0];
        q0[QUEUE_LENGTH - 1] = rxd;
        self.rx_queues[0] = q0;
        let mut txd = self.tx_queue[QUEUE_LENGTH - 1];
        txd.0[0] = txd.0[0] | DESC_0_RX_WRAP;
        self.tx_queue[QUEUE_LENGTH - 1] = txd;
    }
}

} // verus!
