//! Verified core of a small x86_64 kernel: integer helpers, page tables,
//! interrupt descriptors, the memory map, and the buddy and slab allocators.

pub mod utility;
pub mod boot_info;
pub mod mem;
pub mod ioports;
pub mod interrupts;
pub mod fmt;
pub mod sync;
pub mod test_lib;
