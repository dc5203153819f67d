//! The virtio block-device record: base-address-register assembly and the
//! identity mapping of its registers.  The volatile register reads stay
//! with the machine-facing code.
use vstd::prelude::*;

use crate::memory::{
    create_mapping, frames_unused, translate_addr, FrameAllocator, MemoryError, Page,
    PageTableHierarchy, PhysAddr, PhysFrame, VirtAddr,
};
use super::pci::PCIDevice;

verus! {

/// A virtio device as handed over by the PCI prober.
pub struct VirtioBlockDevice {
    pub device: PCIDevice,
    pub bar: u64,
}

/// The device-register base address assembled from the first two base
/// address registers: a 64-bit memory bar spans both, a 32-bit one only
/// the first, and anything else is unsupported and yields no address.
pub open spec fn bar_address_spec(bar0: u32, bar1: u32) -> u64 {
    let t = (bar0 >> 1) & 0x3;
    if t == 0 {
        ((((bar0 as u64) & 0xFFFF_FFF0) + (((bar1 as u64) & 0xFFFF_FFFF) << 32)) as u64)
    } else if t == 2 {
        (bar0 as u64) & 0xFFFF_FFF0
    } else {
        0
    }
}

impl VirtioBlockDevice {
    /// Wrap an enumerated PCI device.
    pub fn new(device: PCIDevice) -> (r: Self)
        ensures
            r.device == device,
            r.bar == 0,
    {
        Self { device, bar: 0 }
    }

    /// Assemble the device-register base address from the first two base
    /// address registers.
    pub fn bar_address(&self) -> (r: u64)
        ensures
            r == bar_address_spec(self.device.bars[0], self.device.bars[1]),
    {
        let bar0 = self.device.bars[0];
        let bar1 = self.device.bars[1];
        let typ = (bar0 >> 1u32) & 0x3;
        if typ == 0 {
            proof {
                assert(((bar0 as u64) & 0xFFFF_FFF0) + (((bar1 as u64) & 0xFFFF_FFFF) << 32u64)
                    <= 0xFFFF_FFFF_FFFF_FFFF) by (bit_vector);
            }
            ((bar0 as u64) & 0xFFFF_FFF0) + (((bar1 as u64) & 0xFFFF_FFFF) << 32u64)
        } else if typ == 2 {
            (bar0 as u64) & 0xFFFF_FFF0
        } else {
            0
        }
    }

    /// Identity-map every non-zero base address register, and then the
    /// assembled register window, skipping addresses that are already
    /// mapped.  Fails only when physical memory for an intermediate table
    /// runs out.
    pub fn map_bars_to_virtual_addresses<A: FrameAllocator>(
        &self,
        mapper: &mut PageTableHierarchy,
        frame_allocator: &mut A,
    ) -> (r: Result<(), MemoryError>)
        requires
            old(mapper).wf(),
            old(frame_allocator).wf(),
            frames_unused(old(mapper).tables@, old(frame_allocator).avail()),
        ensures
            final(mapper).wf(),
            final(frame_allocator).wf(),
            frames_unused(final(mapper).tables@, final(frame_allocator).avail()),
            r is Err ==> r == Err::<(), MemoryError>(MemoryError::FrameAllocationFailed),
    {
        let mut i: usize = 0;
        while i < 6
            invariant
                mapper.wf(),
                frame_allocator.wf(),
                frames_unused(mapper.tables@, frame_allocator.avail()),
            decreases 6 - i,
        {
            let bar = self.device.bars[i];
            if bar != 0 {
                match Self::identity_map_register(bar as u64, mapper, frame_allocator) {
                    Ok(()) => {},
                    Err(e) => {
                        return Err(e);
                    },
                }
            }
            i = i + 1;
        }
        let assembled = self.bar_address();
        if assembled != 0 {
            proof {
                let b0 = self.device.bars[0];
                let b1 = self.device.bars[1];
                assert(bar_address_spec(b0, b1) < 0x10_0000_0000_0000 || bar_address_spec(b0, b1)
                    >= 0x10_0000_0000_0000);
            }
            if assembled < 0x10_0000_0000_0000 {
                match Self::identity_map_register(assembled, mapper, frame_allocator) {
                    Ok(()) => {},
                    Err(e) => {
                        return Err(e);
                    },
                }
            }
        }
        Ok(())
    }

    /// Identity-map the page holding one register address, unless its
    /// virtual page is already in use.
    fn identity_map_register<A: FrameAllocator>(
        address: u64,
        mapper: &mut PageTableHierarchy,
        frame_allocator: &mut A,
    ) -> (r: Result<(), MemoryError>)
        requires
            old(mapper).wf(),
            old(frame_allocator).wf(),
            frames_unused(old(mapper).tables@, old(frame_allocator).avail()),
            address < 0x10_0000_0000_0000,
        ensures
            final(mapper).wf(),
            final(frame_allocator).wf(),
            frames_unused(final(mapper).tables@, final(frame_allocator).avail()),
            r is Err ==> r == Err::<(), MemoryError>(MemoryError::FrameAllocationFailed),
    {
        let virt_addr = VirtAddr { value: address };
        let page = Page::containing_address(virt_addr);
        proof {
            crate::memory::lemma_page_base(address);
        }
        if translate_addr(page.start_address(), mapper).is_some() {
            // The virtual address is already in use; leave it alone.
            return Ok(());
        }
        let phys_frame = PhysFrame::containing_address(PhysAddr { value: address });
        match create_mapping(page, phys_frame, mapper, frame_allocator) {
            Ok(()) => Ok(()),
            Err(MemoryError::FrameAllocationFailed) => Err(MemoryError::FrameAllocationFailed),
            Err(_) => {
                proof {
                    assert(false);
                }
                Err(MemoryError::FrameAllocationFailed)
            },
        }
    }
}

} // verus!
