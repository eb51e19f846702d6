//! Memory management: page tables, the memory map, and the allocators.

use vstd::prelude::*;

pub mod inplace_list;
pub mod paging;
pub mod memory_map;
pub mod buddy;
pub mod slab;
pub mod general_allocator;

verus! {

/// The virtual address at which physical memory is mapped (`2^64 - 2^47`).
pub const MEMORY_START: u64 = 0xffff_8000_0000_0000;

/// The highest physical address plus one that is mapped at `MEMORY_START`.
pub const PHYS_LIMIT: u64 = 0x8000_0000_0000;

/// The virtual address of physical address `phys_address`.
pub fn get_mut_ptr(phys_address: u64) -> (r: u64)
    requires
        phys_address < PHYS_LIMIT,
    ensures
        r == phys_address + MEMORY_START,
{
    phys_address + MEMORY_START
}

} // verus!
