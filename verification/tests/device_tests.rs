use rvirt_verified::drivers::{
    Driver, GuestDevice, MacbDriver, MAGIC_VALUE, REG_DEVICE_ID, REG_GUEST_FEATURES,
    REG_GUEST_FEATURES_SEL, REG_GUEST_PAGE_SIZE, REG_HOST_FEATURES, REG_HOST_FEATURES_SEL,
    REG_INTERRUPT_ACK, REG_MAGIC_VALUE, REG_QUEUE_ALIGN, REG_QUEUE_NUM, REG_QUEUE_NUM_MAX,
    REG_QUEUE_PFN, REG_QUEUE_SEL, REG_STATUS, REG_VENDOR_ID, REG_VERSION, VENDOR_ID,
    VIRTIO_NET_F_MAC, VIRTIO_NET_F_MTU,
};
use rvirt_verified::memory_region::MemoryRegion;

fn device() -> GuestDevice<MacbDriver> {
    let regs = MemoryRegion::<u32>::with_base_address(0xffff_fffc_1000_0000, 0, 0x1000);
    GuestDevice::new(MacbDriver::new(regs, 0x8100_0000, 0x8200_0000))
}

#[test]
fn identification_registers() {
    let mut d = device();
    assert_eq!(d.read_u32(REG_MAGIC_VALUE), MAGIC_VALUE);
    assert_eq!(d.read_u32(REG_VERSION), 1);
    assert_eq!(d.read_u32(REG_DEVICE_ID), 1);
    assert_eq!(d.read_u32(REG_VENDOR_ID), VENDOR_ID);
    assert_eq!(d.read_u32(REG_QUEUE_NUM_MAX), 2);
    assert_eq!(d.read_u32(REG_GUEST_PAGE_SIZE), 4096);
    assert_eq!(d.read_u32(REG_MAGIC_VALUE + 1), 0);
}

#[test]
fn host_features_by_selector() {
    let mut d = device();
    assert_eq!(d.read_u32(REG_HOST_FEATURES) as u64, VIRTIO_NET_F_MAC | VIRTIO_NET_F_MTU);
    d.write_u32(REG_HOST_FEATURES_SEL, 1);
    assert_eq!(d.read_u32(REG_HOST_FEATURES_SEL), 1);
    assert_eq!(d.read_u32(REG_HOST_FEATURES), 0);
    d.write_u32(REG_HOST_FEATURES_SEL, 2);
    assert_eq!(d.read_u32(REG_HOST_FEATURES), 0);
}

#[test]
fn guest_features_are_written_by_halves() {
    let mut d = device();
    d.write_u32(REG_GUEST_FEATURES, 0xdead_beef);
    d.write_u32(REG_GUEST_FEATURES_SEL, 1);
    d.write_u32(REG_GUEST_FEATURES, 0x1234_5678);
    assert_eq!(d.guest_features, 0x1234_5678_dead_beef);
    assert_eq!(d.read_u32(REG_GUEST_FEATURES), 0);
    assert_eq!(d.read_u32(REG_GUEST_FEATURES_SEL), 1);
}

#[test]
fn queue_registers_follow_the_selector() {
    let mut d = device();
    d.write_u32(REG_QUEUE_SEL, 1);
    d.write_u32(REG_QUEUE_NUM, 256);
    d.write_u32(REG_QUEUE_ALIGN, 4096);
    d.write_u32(REG_QUEUE_PFN, 0x8_0000);
    assert_eq!(d.read_u32(REG_QUEUE_NUM), 256);
    assert_eq!(d.read_u32(REG_QUEUE_ALIGN), 4096);
    assert_eq!(d.read_u32(REG_QUEUE_PFN), 0x8_0000);
    d.write_u32(REG_QUEUE_SEL, 0);
    assert_eq!(d.read_u32(REG_QUEUE_NUM), 0);
    assert_eq!(d.queue_num, [0, 256, 0, 0]);
}

#[test]
fn zero_status_resets_the_registers() {
    let mut d = device();
    d.write_u32(REG_STATUS, 7);
    assert_eq!(d.read_u32(REG_STATUS), 7);
    d.write_u32(REG_QUEUE_SEL, 2);
    d.write_u32(REG_GUEST_PAGE_SIZE, 8192);
    d.interrupt_status = 3;
    d.write_u32(REG_INTERRUPT_ACK, 1);
    assert_eq!(d.interrupt_status, 2);
    d.write_u32(REG_STATUS, 0);
    assert_eq!(d.read_u32(REG_QUEUE_SEL), 0);
    assert_eq!(d.read_u32(REG_GUEST_PAGE_SIZE), 4096);
    assert_eq!(d.interrupt_status, 0);
    assert_eq!(d.read_u32(REG_STATUS), 7);
}

#[test]
fn misaligned_accesses_are_ignored() {
    let mut d = device();
    d.write_u32(REG_QUEUE_SEL + 2, 3);
    assert_eq!(d.read_u32(REG_QUEUE_SEL), 0);
}

#[test]
fn configuration_space_holds_mac_and_mtu() {
    let mut d = device();
    assert_eq!(d.read_u8(0x101), 0);
    assert_eq!(d.read_u8(0x10), 0);
    assert_eq!(d.host_driver.read_config_u8(10), 0);
    assert_eq!(d.host_driver.read_config_u8(11), 8);
    assert_eq!(d.host_driver.read_config_u32(8), 0x0800_0000);
    d.write_u8(0x106, 1);
    d.write_u32(0x104, 5);
    assert!(!d.interrupt());
}

#[test]
fn driver_reset_points_the_device_at_its_queues() {
    let regs = MemoryRegion::<u32>::with_base_address(0xffff_fffc_1000_0000, 0, 0x1000);
    let mut m = MacbDriver::new(regs, 0x1_8100_0000, 0x8200_0000);
    m.reset();
    assert_eq!(MacbDriver::device_id(), 1);
}
