//! PCI configuration-space addressing and record keeping.  The port reads
//! and writes themselves are bus I/O and live with the machine-facing
//! code; here stand the address computation, the field decoding, and the
//! device registry logic.
use vstd::prelude::*;

use bit_field::BitField;

verus! {

/// Base address which is ORed with the device-specific id, bus and
/// function.
pub const PCI_BASE_ADDR: u32 = 0x8000_0000;

/// Number of bus lines.
pub const MAX_BUS: u16 = 256;

/// Number of devices per bus.
pub const MAX_DEVICES_PER_BUS: u8 = 32;

/// Number of functions per device.
pub const MAX_FUNCTIONS_PER_DEVICE: u8 = 8;

/// If this flag is set, the device is a multi-function device.
pub const FLAG_MULTIFUNCTION_DEVICE: u16 = 0x80;

/// The configuration-space address of one register of one function.
pub open spec fn config_address(bus: u8, dev: u8, func: u8, offset: u8) -> u32 {
    ((PCI_BASE_ADDR | ((bus as u32) << 16)) | (((dev as u32) << 11) | ((func as u32) << 8))) | (
    (offset as u32) & 0xFC)
}

/// Extract bits `low..high` of a configuration value.
///
/// Relies on bit_field's `BitField` implementation for `u32`: `get_bits`
/// shifts the value right by the range start and masks it to the range
/// width.  The range must be non-empty and within the 32 bits, or the
/// callee would panic.
#[verifier::external_body]
fn get_bits_u32(value: u32, low: usize, high: usize) -> (r: u32)
    requires
        low < high,
        high <= 32,
    ensures
        r == (value >> (low as u32)) & (if high - low == 32 {
            0xFFFF_FFFFu32
        } else {
            ((1u32 << ((high - low) as u32)) - 1) as u32
        }),
{
    value.get_bits(low..high)
}

/// Selector for one register of PCI config space; the ports that carry
/// the actual bus transaction are the machine's.
#[derive(Clone, Copy, PartialEq, Eq, Structural, Debug)]
pub struct PCIConfigRegister {
    pub dev_addr: u32,
}

impl PCIConfigRegister {
    /// Compose the configuration-space address for the register.
    pub fn new(bus: u8, dev: u8, func: u8, offset: u8) -> (r: Self)
        ensures
            r.dev_addr == config_address(bus, dev, func, offset),
    {
        PCIConfigRegister {
            dev_addr: ((PCI_BASE_ADDR | ((bus as u32) << 16u32)) | (((dev as u32) << 11u32) | ((
            func as u32) << 8u32))) | ((offset as u32) & 0xFC),
        }
    }
}

/// The queries the prober makes of a device function.
#[derive(Clone, Copy, PartialEq, Eq, Structural, Debug)]
pub enum PCIDeviceQuery {
    DeviceID,
    VendorID,
    HeaderType,
}

/// What each query decodes out of the 32-bit register it reads.
pub open spec fn query_decode_spec(q: PCIDeviceQuery, value: u32) -> u16 {
    match q {
        PCIDeviceQuery::VendorID => (value & 0xFFFFu32) as u16,
        PCIDeviceQuery::DeviceID => (value >> 16u32) as u16,
        PCIDeviceQuery::HeaderType => ((value >> 16u32) & 0xFFu32) as u16,
    }
}

impl PCIDeviceQuery {
    /// The register offset this query reads.
    pub fn register_offset(&self) -> (r: u8)
        ensures
            r == match *self {
                PCIDeviceQuery::VendorID => 0x00u8,
                PCIDeviceQuery::DeviceID => 0x00u8,
                PCIDeviceQuery::HeaderType => 0x0Cu8,
            },
    {
        match *self {
            PCIDeviceQuery::VendorID => 0x00,
            PCIDeviceQuery::DeviceID => 0x00,
            PCIDeviceQuery::HeaderType => 0x0C,
        }
    }

    /// Decode the queried field out of the register value the bus
    /// returned.
    pub fn decode(&self, value: u32) -> (r: u16)
        ensures
            r == query_decode_spec(*self, value),
    {
        match *self {
            PCIDeviceQuery::VendorID => {
                let bits = get_bits_u32(value, 0, 16);
                proof {
                    assert((value >> 0u32) & (((1u32 << 16u32) - 1) as u32) == (value & 0xFFFF) && (value
                        & 0xFFFF) < 0x10000) by (bit_vector);
                }
                bits as u16
            },
            PCIDeviceQuery::DeviceID => {
                let bits = get_bits_u32(value, 16, 32);
                proof {
                    assert((value >> 16u32) & (((1u32 << 16u32) - 1) as u32) == (value >> 16u32)
                        && (value >> 16u32) < 0x10000) by (bit_vector);
                }
                bits as u16
            },
            PCIDeviceQuery::HeaderType => {
                let bits = get_bits_u32(value, 16, 24);
                proof {
                    assert((value >> 16u32) & (((1u32 << 8u32) - 1) as u32) == ((value >> 16) & 0xFF) && ((
                    value >> 16) & 0xFF) < 0x10000) by (bit_vector);
                }
                bits as u16
            },
        }
    }
}

/// One enumerated PCI device: its location, identity, and base address
/// registers as read at probe time.
#[derive(Clone, Copy, Debug)]
pub struct PCIDevice {
    pub bus: u8,
    pub dev: u8,
    pub func: u8,
    pub vendor_id: u16,
    pub device_id: u16,
    pub bars: [u32; 6],
}

impl PCIDevice {
    /// Bus mastering is recorded elsewhere; the device record itself is
    /// returned unchanged.
    pub fn set_bus_mastering(&self) -> (r: Self)
        ensures
            r == *self,
    {
        *self
    }
}

/// First registered device with the given identity.
pub open spec fn find_device(devices: Seq<PCIDevice>, vendor_id: u16, device_id: u16) -> Option<
    PCIDevice,
>
    decreases devices.len(),
{
    if devices.len() == 0 {
        None
    } else if devices[0].vendor_id == vendor_id && devices[0].device_id == device_id {
        Some(devices[0])
    } else {
        find_device(devices.drop_first(), vendor_id, device_id)
    }
}

/// Search the device registry for the first device with the given vendor
/// and device identity.
pub fn search_device(vendor_id: u16, device_id: u16, devices: &Vec<PCIDevice>) -> (r: Option<
    PCIDevice,
>)
    ensures
        r == find_device(devices@, vendor_id, device_id),
{
    let ghost s = devices@;
    proof {
        assert(s.skip(0) =~= s);
    }
    let mut i: usize = 0;
    while i < devices.len()
        invariant
            s == devices@,
            i <= s.len(),
            find_device(s, vendor_id, device_id) == find_device(
                s.skip(i as int),
                vendor_id,
                device_id,
            ),
        decreases s.len() - i,
    {
        proof {
            assert(s.skip(i as int)[0] == s[i as int]);
            assert(s.skip(i as int).drop_first() =~= s.skip(i + 1));
        }
        let d = devices[i];
        if d.vendor_id == vendor_id && d.device_id == device_id {
            return Some(d);
        }
        i = i + 1;
    }
    proof {
        assert(s.skip(s.len() as int) =~= Seq::<PCIDevice>::empty());
    }
    None
}

/// Walks every bus, device and function; the probing reads themselves are
/// bus I/O and live with the machine-facing code.
pub struct PCIDeviceProber;

impl PCIDeviceProber {
    /// An all-ones vendor id marks an empty slot.
    pub fn is_empty(vendor_id: u16) -> (r: bool)
        ensures
            r == (vendor_id == 0xFFFF),
    {
        vendor_id == 0xFFFF
    }

    /// Whether the header type marks a multi-function device.
    pub fn is_multi_function(header_type: u16) -> (r: bool)
        ensures
            r == (header_type & FLAG_MULTIFUNCTION_DEVICE != 0),
    {
        header_type & FLAG_MULTIFUNCTION_DEVICE != 0
    }
}

} // verus!
