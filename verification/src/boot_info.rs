//! The information record a multiboot loader hands to the kernel: which of its
//! fields are present, and where the memory map lies.

use vstd::prelude::*;
use vstd::bytes::{spec_u32_from_le_bytes, u32_from_le_bytes};
use vstd::slice::slice_subrange;
use crate::mem::memory_map::{MemoryMap, MemoryMapPtr, decode_entries, loadable, loaded_entries, loads, MMAP_SLOTS};
use crate::utility::{get_bit, bit_of};

verus! {

/// The size of the loader's record in bytes.
pub const MULTIBOOT_INFO_BYTES: usize = 88;

/// The offset of the memory map's length in the record; its address follows.
pub const MMAP_PTR_OFFSET: usize = 44;

/// The flags of the record whose bytes are `raw`.
pub open spec fn info_flags(raw: Seq<u8>) -> u32 {
    spec_u32_from_le_bytes(raw.subrange(0, 4))
}

/// Where the memory map of the record whose bytes are `raw` lies.
pub open spec fn info_mmap_ptr(raw: Seq<u8>) -> MemoryMapPtr {
    MemoryMapPtr {
        length: spec_u32_from_le_bytes(raw.subrange(MMAP_PTR_OFFSET as int, MMAP_PTR_OFFSET + 4)),
        addr: spec_u32_from_le_bytes(raw.subrange(MMAP_PTR_OFFSET + 4, MMAP_PTR_OFFSET + 8)),
    }
}

/// The flags say the memory map is present (bit 6), and do not claim both of
/// the mutually exclusive bits 4 and 5.
pub open spec fn flags_ok(flags: u32) -> bool {
    bit_of(flags as int, 6) && !(bit_of(flags as int, 4) && bit_of(flags as int, 5))
}

/// What `flags_ok` asks of the flags, as masks: bit 6 (`0x40`) set, and bits
/// 4 and 5 (`0x30`) not both set.
proof fn lemma_flags_ok_masks(flags: u32)
    ensures
        flags_ok(flags) <==> (flags & 0x40 != 0 && flags & 0x30 != 0x30),
{
    vstd::arithmetic::power2::lemma2_to64();
    let f = flags;
    assert(((f / 64u32) % 2u32 == 1u32) == (f & 0x40u32 != 0u32)) by (bit_vector);
    assert(((f / 16u32) % 2u32 == 1u32 && (f / 32u32) % 2u32 == 1u32) == (f & 0x30u32 == 0x30u32)) by (bit_vector);
    assert((f as int / 64) % 2 == (f / 64u32) % 2u32);
    assert((f as int / 16) % 2 == (f / 16u32) % 2u32);
    assert((f as int / 32) % 2 == (f / 32u32) % 2u32);
}

/// The loader's record is accepted on bits 4, 5 and 6 of its flags alone:
/// exactly when the memory map is announced (bit 6) and bits 4 and 5 are not
/// both set. Every other bit, such as bit 0 (memory sizes present), is ignored.
pub proof fn lemma_flags_ok_bits(flags: u32)
    ensures
        flags_ok(flags) <==> (flags & 0x40 != 0 && flags & 0x30 != 0x30),
        flags_ok(flags) <==> flags_ok(flags & 0x70),
{
    lemma_flags_ok_masks(flags);
    lemma_flags_ok_masks(flags & 0x70);
    let f = flags;
    assert((f & 0x70u32) & 0x40u32 == f & 0x40u32 && (f & 0x70u32) & 0x30u32 == f & 0x30u32) by (bit_vector);
}

/// The fields of the loader's record that the kernel reads.
pub struct MultibootInfo {
    flags: u32,
    mmap_ptr: MemoryMapPtr,
}

impl MultibootInfo {
    /// Which fields of the record are present.
    pub closed spec fn spec_flags(&self) -> u32 {
        self.flags
    }

    /// Where the memory map lies.
    pub closed spec fn spec_mmap_ptr(&self) -> MemoryMapPtr {
        self.mmap_ptr
    }

    /// Reads the record from its bytes `raw`; `None` unless its flags are
    /// consistent and announce a memory map.
    pub fn load(raw: &[u8]) -> (r: Option<MultibootInfo>)
        requires
            raw@.len() >= MULTIBOOT_INFO_BYTES,
        ensures
            match r {
                Some(info) => {
                    &&& flags_ok(info_flags(raw@))
                    &&& info.spec_flags() == info_flags(raw@)
                    &&& info.spec_mmap_ptr() == info_mmap_ptr(raw@)
                },
                None => !flags_ok(info_flags(raw@)),
            },
            r is Some <==> (info_flags(raw@) & 0x40 != 0 && info_flags(raw@) & 0x30 != 0x30),
    {
        let flags = u32_from_le_bytes(slice_subrange(raw, 0, 4));
        proof {
            lemma_flags_ok_bits(flags);
        }
        let length = u32_from_le_bytes(slice_subrange(raw, MMAP_PTR_OFFSET, MMAP_PTR_OFFSET + 4));
        let addr = u32_from_le_bytes(slice_subrange(raw, MMAP_PTR_OFFSET + 4, MMAP_PTR_OFFSET + 8));
        if !get_bit(flags, 6) {
            return None;
        }
        if get_bit(flags, 4) && get_bit(flags, 5) {
            return None;
        }
        Some(MultibootInfo { flags, mmap_ptr: MemoryMapPtr { length, addr } })
    }

    /// Which fields of the record are present.
    pub fn flags(&self) -> (r: u32)
        ensures
            r == self.spec_flags(),
    {
        self.flags
    }

    /// Where the memory map lies.
    pub fn mmap_ptr(&self) -> (r: MemoryMapPtr)
        ensures
            r == self.spec_mmap_ptr(),
    {
        self.mmap_ptr
    }

    /// The memory map, read from `region`, the bytes the record points at, with
    /// the kernel's image `kernel_start..kernel_end` as a range of its own;
    /// `None` if the entries cannot be read or do not make a map.
    pub fn memory_map(&self, region: &[u8], kernel_start: u64, kernel_end: u64) -> (r: Option<MemoryMap>)
        requires
            region@.len() == self.spec_mmap_ptr().length,
        ensures
            match decode_entries(region@, 0) {
                None => r is None,
                Some(es) => if loadable(es, kernel_start, kernel_end) && loaded_entries(es, kernel_start, kernel_end).len()
                    <= MMAP_SLOTS {
                    r is Some && r.unwrap().wf() && r.unwrap()@ == loaded_entries(es, kernel_start, kernel_end)
                } else {
                    r is None
                },
            },
    {
        let entries = match self.mmap_ptr.iter(region) {
            Some(es) => es,
            None => {
                return None;
            },
        };
        if !loads(entries.as_slice(), kernel_start, kernel_end) {
            return None;
        }
        Some(MemoryMap::load(entries.as_slice(), kernel_start, kernel_end))
    }
}

} // verus!
