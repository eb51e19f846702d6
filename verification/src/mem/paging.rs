//! Four-level x86_64 page tables: entries with flag bits and a physical address.

use vstd::prelude::*;

verus! {

/// log2 of the page size.
pub const PAGE_SIZE_POWER: usize = 12;

/// The size of a page in bytes.
pub const PAGE_SIZE: usize = 4096;

/// The number of entries of a table.
pub const TABLE_SIZE: usize = 512;

/// One gigabyte.
pub const GB: u64 = 0x4000_0000;

/// The virtual address of the kernel's image.
pub const KERNEL_START: u64 = 0xffff_ffff_8000_0000;

/// The level of the tables that map pages.
pub const LAST_LEVEL: usize = 4;

pub const PRESENT: u64 = 1;

pub const WRITABLE: u64 = 2;

pub const USER_ACCESSIBLE: u64 = 4;

pub const ACCESSED: u64 = 32;

pub const HUGE_PAGE: u64 = 128;

pub const NO_EXECUTE: u64 = 0x8000_0000_0000_0000;

/// The flags of an entry that maps a huge page.
pub const PAGE_FLAGS: u64 = 135;

/// The flags of an entry that points to a table of the next level.
pub const TABLE_FLAGS: u64 = 7;

/// The bound on physical addresses an entry can hold.
pub const PHYS_ADDR_LIMIT: u64 = 0x1_0000_0000_0000;

/// A page-table entry: flag bits and a page-aligned physical address.
#[derive(Clone, Copy)]
pub struct Entry {
    bits: u64,
}

impl Default for Entry {
    fn default() -> (r: Self)
        ensures
            r.spec_bits() == 0,
    {
        Entry { bits: 0 }
    }
}

/// An address that an entry can hold: page aligned and below `2^48`.
pub open spec fn valid_phys(phys: u64) -> bool {
    phys % 4096 == 0 && phys < PHYS_ADDR_LIMIT
}

impl Entry {
    /// The bits of the entry.
    pub closed spec fn spec_bits(&self) -> u64 {
        self.bits
    }

    /// An entry with no bit set.
    pub fn new_empty() -> (r: Self)
        ensures
            r.spec_bits() == 0,
    {
        Entry { bits: 0 }
    }

    /// The bits of the entry.
    pub fn bits(&self) -> (r: u64)
        ensures
            r == self.spec_bits(),
    {
        self.bits
    }

    /// Sets the bits of `flags`.
    pub fn insert(&mut self, flags: u64)
        ensures
            final(self).spec_bits() == old(self).spec_bits() | flags,
    {
        self.bits = self.bits | flags;
    }

    /// Clears the bits of `flags`.
    pub fn remove(&mut self, flags: u64)
        ensures
            final(self).spec_bits() == old(self).spec_bits() & !flags,
    {
        self.bits = self.bits & !flags;
    }

    /// Maps a huge page at physical address `start`: present, writable, user accessible.
    pub fn set_page_phys(&mut self, start: u64)
        requires
            valid_phys(start),
        ensures
            final(self).spec_bits() == start | PAGE_FLAGS,
    {
        self.clear_and_set_phys_address(start);
        assert(1u64 | 128u64 | 2u64 | 4u64 == 135u64) by (bit_vector);
        self.insert(PRESENT | HUGE_PAGE | WRITABLE | USER_ACCESSIBLE);
    }

    /// Points to the table of the next level at physical address `phys_addr`.
    pub fn set_next_level_phys(&mut self, phys_addr: u64)
        requires
            valid_phys(phys_addr),
        ensures
            final(self).spec_bits() == phys_addr | TABLE_FLAGS,
    {
        self.clear_and_set_phys_address(phys_addr);
        assert(1u64 | 2u64 | 4u64 == 7u64) by (bit_vector);
        self.insert(PRESENT | WRITABLE | USER_ACCESSIBLE);
    }

    /// Clears the flags and sets the physical address.
    fn clear_and_set_phys_address(&mut self, phys_addr: u64)
        requires
            valid_phys(phys_addr),
        ensures
            final(self).spec_bits() == phys_addr,
    {
        self.bits = phys_addr;
    }
}

/// A table of `TABLE_SIZE` entries.
pub struct PagingTable {
    entries: Vec<Entry>,
}

impl PagingTable {
    /// The entries of the table.
    pub closed spec fn view(&self) -> Seq<Entry> {
        self.entries@
    }

    /// A table whose entries are all empty.
    pub fn new_empty() -> (r: Self)
        ensures
            r@.len() == TABLE_SIZE,
            forall|i: int| 0 <= i < TABLE_SIZE ==> (#[trigger] r@[i]).spec_bits() == 0,
    {
        let mut entries: Vec<Entry> = Vec::new();
        let mut i: usize = 0;
        while i < TABLE_SIZE
            invariant
                i <= TABLE_SIZE,
                entries@.len() == i,
                forall|k: int| 0 <= k < i ==> (#[trigger] entries@[k]).spec_bits() == 0,
            decreases TABLE_SIZE - i,
        {
            entries.push(Entry::new_empty());
            i += 1;
        }
        PagingTable { entries }
    }

    /// Entry `index`.
    pub fn index(&self, index: usize) -> (r: &Entry)
        requires
            index < self@.len(),
        ensures
            *r == self@[index as int],
    {
        &self.entries[index]
    }

    /// Mutable access to entry `index`.
    pub fn index_mut(&mut self, index: usize) -> (r: &mut Entry)
        requires
            index < old(self)@.len(),
        ensures
            *r == old(self)@[index as int],
            final(self)@ == old(self)@.update(index as int, *final(r)),
    {
        &mut self.entries[index]
    }
}

/// The mapping the kernel starts with: physical memory identically at 0 and
/// again at `-2^47` through one table of the next level, `pml3`, which is also
/// reached from the last entry for the kernel's image; `pml3` maps the first
/// 510 gigabytes with huge pages, and its last two entries map the first two
/// gigabytes (where the kernel's image is).
pub fn fill_default(pml4: &mut PagingTable, pml3: &mut PagingTable, pml3_phys: u64)
    requires
        old(pml4)@.len() == TABLE_SIZE,
        old(pml3)@.len() == TABLE_SIZE,
        valid_phys(pml3_phys),
    ensures
        final(pml4)@.len() == TABLE_SIZE,
        final(pml3)@.len() == TABLE_SIZE,
        final(pml4)@[0].spec_bits() == pml3_phys | TABLE_FLAGS,
        final(pml4)@[256].spec_bits() == pml3_phys | TABLE_FLAGS,
        final(pml4)@[511].spec_bits() == pml3_phys | TABLE_FLAGS,
        forall|i: int|
            0 <= i < TABLE_SIZE && i != 0 && i != 256 && i != 511 ==> #[trigger] final(pml4)@[i]
                == old(pml4)@[i],
        forall|i: int| 0 <= i < 510 ==> (#[trigger] final(pml3)@[i]).spec_bits() == (i * GB) as u64 | PAGE_FLAGS,
        final(pml3)@[510].spec_bits() == 0 | PAGE_FLAGS,
        final(pml3)@[511].spec_bits() == GB | PAGE_FLAGS,
{
    pml4.index_mut(0).set_next_level_phys(pml3_phys);
    pml4.index_mut(TABLE_SIZE / 2).set_next_level_phys(pml3_phys);
    pml4.index_mut(TABLE_SIZE - 1).set_next_level_phys(pml3_phys);
    let mut i: usize = 0;
    while i < TABLE_SIZE - 2
        invariant
            i <= TABLE_SIZE - 2,
            pml3@.len() == TABLE_SIZE,
            forall|k: int| 0 <= k < i ==> (#[trigger] pml3@[k]).spec_bits() == (k * GB) as u64 | PAGE_FLAGS,
        decreases TABLE_SIZE - 2 - i,
    {
        let phys = (i as u64) * GB;
        proof {
            assert(phys % 4096 == 0) by (nonlinear_arith)
                requires
                    phys == i * 0x4000_0000,
            ;
        }
        pml3.index_mut(i).set_page_phys(phys);
        i += 1;
    }
    pml3.index_mut(TABLE_SIZE - 2).set_page_phys(0);
    pml3.index_mut(TABLE_SIZE - 1).set_page_phys(GB);
}

} // verus!
