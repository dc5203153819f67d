//! Locating the virtio network interface among the enumerated PCI
//! devices.
use vstd::prelude::*;

use super::pci::{find_device, search_device, PCIDevice};
use super::virtio::VirtioBlockDevice;

verus! {

/// Vendor id of the virtio network interface.
pub const VIRTIO_NET_VENDOR_ID: u16 = 0x1af4;

/// Device id of the virtio network interface.
pub const VIRTIO_NET_DEVICE_ID: u16 = 0x1000;

/// A network device record wrapping the PCI identity it was probed with.
pub struct VirtioNetworkDevice {
    pub pci_device: PCIDevice,
}

/// Find the virtio network interface in the device registry and wrap it
/// as a block device handle.
pub fn get_virtio_network_device(devices: &Vec<PCIDevice>) -> (r: Option<VirtioBlockDevice>)
    ensures
        r is Some <==> find_device(devices@, VIRTIO_NET_VENDOR_ID, VIRTIO_NET_DEVICE_ID) is Some,
        r is Some ==> r->0.device == find_device(
            devices@,
            VIRTIO_NET_VENDOR_ID,
            VIRTIO_NET_DEVICE_ID,
        )->0 && r->0.bar == 0,
{
    let device = match search_device(VIRTIO_NET_VENDOR_ID, VIRTIO_NET_DEVICE_ID, devices) {
        Some(d) => d,
        None => {
            return None;
        },
    };
    Some(VirtioBlockDevice::new(device))
}

} // verus!
