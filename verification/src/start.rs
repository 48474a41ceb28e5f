//! What the boot loader hands to the kernel, and what the kernel takes from it.

use vstd::prelude::*;
use crate::frame::Frame;
use crate::paging::{PhysicalAddress, PAGE_SIZE};

verus! {

/// The arguments of the first processor's entry.
#[derive(Clone, Copy, Debug)]
pub struct KernelArgs {
    pub kernel_base: usize,
    pub kernel_size: usize,
    pub stack_base: usize,
    pub stack_size: usize,
    pub env_base: usize,
    pub env_size: usize,
    pub dtb_base: usize,
    pub dtb_size: usize,
    pub areas_base: usize,
    pub areas_size: usize,
    /// The physical base of the contiguous bootstrap image.
    pub bootstrap_base: usize,
    /// Size of the bootstrap image, not necessarily a whole number of pages.
    pub bootstrap_size: usize,
    /// Entry point that the kernel will jump to.
    pub bootstrap_entry: usize,
}

/// The arguments of another processor's entry.
#[derive(Clone, Copy, Debug)]
pub struct KernelArgsAp {
    pub cpu_id: u64,
    pub page_table: u64,
    pub stack_start: u64,
    pub stack_end: u64,
}

/// The bootstrap image as the kernel keeps it: its first frame, the number
/// of whole pages it holds, and its entry point.
#[derive(Clone, Copy, Debug, PartialEq, Eq, Structural)]
pub struct Bootstrap {
    pub base: Frame,
    pub page_count: usize,
    pub entry: usize,
}

impl KernelArgs {
    /// The device tree as it is seen through the mapping of physical memory
    /// at `phys_offset`: its address there and its size. There is none where
    /// the base is zero.
    pub fn device_tree(&self, phys_offset: usize) -> (r: Option<(usize, usize)>)
        requires
            phys_offset + self.dtb_base <= usize::MAX,
        ensures
            r == if self.dtb_base != 0 {
                Some(((phys_offset + self.dtb_base) as usize, self.dtb_size))
            } else {
                None
            },
    {
        if self.dtb_base != 0 {
            Some((phys_offset + self.dtb_base, self.dtb_size))
        } else {
            None
        }
    }

    /// The bootstrap image: the frame that holds its base, and its size in
    /// whole pages, rounded down.
    pub fn bootstrap(&self) -> (r: Bootstrap)
        ensures
            r.base.number == self.bootstrap_base / PAGE_SIZE,
            r.page_count == self.bootstrap_size / PAGE_SIZE,
            r.entry == self.bootstrap_entry,
    {
        Bootstrap {
            base: Frame::containing_address(PhysicalAddress::new(self.bootstrap_base)),
            page_count: self.bootstrap_size / PAGE_SIZE,
            entry: self.bootstrap_entry,
        }
    }
}

} // verus!
