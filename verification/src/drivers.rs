//! Device-facing logic: PCI configuration decoding, the virtio device
//! records, and locating the network interface.
pub mod network;
pub mod pci;
pub mod virtio;
