use samanthi::drivers::network::get_virtio_network_device;
use samanthi::drivers::pci::{
    search_device, PCIConfigRegister, PCIDevice, PCIDeviceProber, PCIDeviceQuery,
};
use samanthi::drivers::virtio::VirtioBlockDevice;
use samanthi::interrupts::InterruptIndex;
use samanthi::QemuExitCode;

fn device(vendor_id: u16, device_id: u16, bars: [u32; 6]) -> PCIDevice {
    PCIDevice { bus: 0, dev: 1, func: 0, vendor_id, device_id, bars }
}

#[test]
fn config_register_addresses_compose() {
    let reg = PCIConfigRegister::new(1, 2, 3, 0x47);
    assert_eq!(reg.dev_addr, 0x8001_1344);
    let reg0 = PCIConfigRegister::new(0, 0, 0, 0);
    assert_eq!(reg0.dev_addr, 0x8000_0000);
}

#[test]
fn queries_decode_their_fields() {
    assert_eq!(PCIDeviceQuery::VendorID.decode(0x1234_5678), 0x5678);
    assert_eq!(PCIDeviceQuery::DeviceID.decode(0x1234_5678), 0x1234);
    assert_eq!(PCIDeviceQuery::HeaderType.decode(0x00AB_0000), 0xAB);
    assert_eq!(PCIDeviceQuery::VendorID.register_offset(), 0x00);
    assert_eq!(PCIDeviceQuery::HeaderType.register_offset(), 0x0C);
}

#[test]
fn device_search_finds_the_first_match() {
    let devices = vec![
        device(0x8086, 0x1111, [0; 6]),
        device(0x1af4, 0x1000, [7, 0, 0, 0, 0, 0]),
        device(0x1af4, 0x1000, [9, 0, 0, 0, 0, 0]),
    ];
    let found = search_device(0x1af4, 0x1000, &devices).expect("present");
    assert_eq!(found.bars[0], 7);
    assert!(search_device(0x1af4, 0x1041, &devices).is_none());
    let handle = get_virtio_network_device(&devices).expect("network device present");
    assert_eq!(handle.device.bars[0], 7);
    assert_eq!(handle.bar, 0);
    assert!(get_virtio_network_device(&vec![]).is_none());
}

#[test]
fn bus_mastering_returns_the_record_unchanged() {
    let d = device(0x1af4, 0x1000, [1, 2, 3, 4, 5, 6]);
    let d2 = d.set_bus_mastering();
    assert_eq!(d2.vendor_id, d.vendor_id);
    assert_eq!(d2.bars, d.bars);
}

#[test]
fn prober_predicates() {
    assert!(PCIDeviceProber::is_empty(0xFFFF));
    assert!(!PCIDeviceProber::is_empty(0x1af4));
    assert!(PCIDeviceProber::is_multi_function(0x80));
    assert!(PCIDeviceProber::is_multi_function(0x81));
    assert!(!PCIDeviceProber::is_multi_function(0x7F));
}

#[test]
fn bar_addresses_assemble_by_type() {
    // A 64-bit memory bar spans the first two registers.
    let wide = VirtioBlockDevice::new(device(0x1af4, 0x1000, [0xFE00_0000, 0x1, 0, 0, 0, 0]));
    assert_eq!(wide.bar_address(), 0x1_FE00_0000);
    // A 32-bit memory bar uses only the first.
    let narrow = VirtioBlockDevice::new(device(0x1af4, 0x1000, [0xABCD_0004, 0, 0, 0, 0, 0]));
    assert_eq!(narrow.bar_address(), 0xABCD_0000);
    // An I/O bar is unsupported.
    let io = VirtioBlockDevice::new(device(0x1af4, 0x1000, [0x0000_0002, 0, 0, 0, 0, 0]));
    assert_eq!(io.bar_address(), 0);
}

#[test]
fn interrupt_vectors_follow_the_controller_offset() {
    assert_eq!(InterruptIndex::Timer.as_u8(), 32);
    assert_eq!(InterruptIndex::Keyboard.as_u8(), 33);
    assert_eq!(InterruptIndex::Timer.as_usize(), 32);
    assert_eq!(InterruptIndex::Keyboard.as_usize(), 33);
}

#[test]
fn qemu_exit_codes() {
    assert_eq!(QemuExitCode::Success.as_u32(), 0x10);
    assert_eq!(QemuExitCode::Failed.as_u32(), 0x11);
}
