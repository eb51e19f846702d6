//! The buddy allocator: one buddy region per usable memory-map entry.
//! A request goes to the regions in order until one of them can serve it.

use vstd::prelude::*;
use crate::mem::memory_map::{MemoryMap, Entry, MMAP_MAX_LEN};
use crate::mem::paging::PAGE_SIZE;
use crate::utility::{log2_ceil, is_log2_ceil};
use crate::mem::{PHYS_LIMIT, MEMORY_START};
use crate::utility::{lemma_round_down_facts, lemma_round_up_facts};
use vstd::arithmetic::div_mod::lemma_fundamental_div_mod;
use vstd::arithmetic::power2::pow2;

pub mod single;

use self::single::{
    Single,
    fully_merged,
    no_free_block_from,
    allocated_from,
    can_release,
    released_from,
    fresh_region,
    region_usable,
    region_pages,
    held_levels_kept,
    split_lists,
    MAX_HEIGHT,
};

verus! {

/// The most regions the allocator keeps.
pub const MAX_FRAMES_CNT: usize = MMAP_MAX_LEN;

/// An allocation: the region that served it and the address of its first page.
#[derive(PartialEq, Eq, Structural)]
pub struct BuddyRaw {
    pub single_num: usize,
    pub pointer: u64,
}

/// An allocation owned by its holder.
#[derive(PartialEq, Eq, Structural)]
pub struct BuddyBox {
    raw: BuddyRaw,
}

impl BuddyBox {
    /// The allocation it holds.
    pub closed spec fn spec_raw(&self) -> BuddyRaw {
        self.raw
    }

    /// The address of the first page.
    pub fn get(&self) -> (r: u64)
        ensures
            r == self.spec_raw().pointer,
    {
        self.raw.pointer
    }
}

/// The memory-map entries a region is made for, in order.
pub open spec fn usable_entries(es: Seq<Entry>) -> Seq<Entry>
    decreases es.len(),
{
    if es.len() == 0 {
        Seq::empty()
    } else if region_usable(es.last()) {
        usable_entries(es.drop_last()).push(es.last())
    } else {
        usable_entries(es.drop_last())
    }
}

/// Every entry ends within the address space, every usable entry can be turned
/// into a region below `PHYS_LIMIT`, fewer than `MAX_FRAMES_CNT` entries are
/// usable, and the usable entries do not overlap.
pub open spec fn mmap_fits(es: Seq<Entry>) -> bool {
    &&& forall|i: int|
        0 <= i < es.len() ==> #[trigger] es[i].spec_start() + es[i].spec_len() <= u64::MAX && (region_usable(
            es[i],
        ) ==> es[i].spec_start() + es[i].spec_len() < PHYS_LIMIT)
    &&& forall|i: int|
        0 <= i < es.len() && region_usable(#[trigger] es[i]) ==> region_pages(es[i]) < 0x8000_0000
    &&& usable_entries(es).len() < MAX_FRAMES_CNT
    &&& forall|j: int, k: int|
        #![trigger usable_entries(es)[j], usable_entries(es)[k]]
        0 <= j < k < usable_entries(es).len() ==> entries_disjoint(usable_entries(es)[j], usable_entries(es)[k])
}

/// The address ranges of two memory-map entries do not overlap.
pub open spec fn entries_disjoint(a: Entry, b: Entry) -> bool {
    a.spec_start() + a.spec_len() <= b.spec_start() || b.spec_start() + b.spec_len() <= a.spec_start()
}

/// The pages of two regions do not overlap.
pub open spec fn regions_disjoint(a: Single, b: Single) -> bool {
    a.spec_first_page() + a.cnt() * single::PAGE_BYTES <= b.spec_first_page()
        || b.spec_first_page() + b.cnt() * single::PAGE_BYTES <= a.spec_first_page()
}

/// The number of pages that serve a request of `size` bytes.
pub open spec fn pages_for(size: int) -> int {
    (size + PAGE_SIZE - 1) / (PAGE_SIZE as int)
}

/// No region has a free block at or above `level`.
pub open spec fn none_free_from(rs: Seq<Single>, level: int) -> bool {
    forall|k: int| 0 <= k < rs.len() ==> no_free_block_from(#[trigger] rs[k], level)
}

/// `new` is `old` after the first region with a free block at or above `level`
/// served a block of that level at `pointer`.
pub open spec fn level_allocated(old: Seq<Single>, new: Seq<Single>, level: int, single_num: usize, pointer: u64) -> bool {
    let k = single_num as int;
    &&& 0 <= k < old.len()
    &&& forall|j: int| 0 <= j < k ==> no_free_block_from(#[trigger] old[j], level)
    &&& allocated_from(old[k], new[k], level, pointer)
    &&& new[k].wf()
    &&& new == old.update(k, new[k])
}

/// `new` is `old` after region `single_num` released the block at `pointer`.
pub open spec fn raw_released(old: Seq<Single>, new: Seq<Single>, single_num: usize, pointer: u64) -> bool {
    let k = single_num as int;
    &&& released_from(old[k], new[k], pointer)
    &&& new == old.update(k, new[k])
}

/// The buddy allocator over all usable memory.
pub struct BuddyAllocator {
    singles: Vec<Single>,
}

impl BuddyAllocator {
    /// The regions, in order.
    pub closed spec fn view(&self) -> Seq<Single> {
        self.singles@
    }

    pub closed spec fn wf(&self) -> bool {
        &&& self.singles@.len() < MAX_FRAMES_CNT
        &&& forall|k: int| 0 <= k < self.singles@.len() ==> #[trigger] self.singles@[k].wf()
        &&& forall|k: int|
            0 <= k < self.singles@.len() ==> fully_merged(
                #[trigger] self.singles@[k].lists_view(),
                self.singles@[k].cnt(),
            )
        &&& forall|j: int, k: int|
            #![trigger self.singles@[j], self.singles@[k]]
            0 <= j < k < self.singles@.len() ==> regions_disjoint(self.singles@[j], self.singles@[k])
    }

    /// An allocator with no regions.
    pub fn uninitialized() -> (r: Self)
        ensures
            r.wf(),
            r@ == Seq::<Single>::empty(),
    {
        BuddyAllocator { singles: Vec::new() }
    }

    /// The allocator over the memory map: one fresh region per usable entry, in order.
    pub fn init_default(mmap: &MemoryMap) -> (r: Self)
        requires
            mmap.wf(),
            mmap_fits(mmap@),
        ensures
            r.wf(),
            r@.len() == usable_entries(mmap@).len(),
            forall|k: int| 0 <= k < r@.len() ==> fresh_region(#[trigger] r@[k], usable_entries(mmap@)[k]),
    {
        let entries = mmap.iter();
        let mut singles: Vec<Single> = Vec::new();
        let mut i: usize = 0;
        while i < entries.len()
            invariant
                entries@ == mmap@,
                mmap_fits(mmap@),
                i <= entries@.len(),
                usable_entries(entries@.subrange(0, i as int)) .len() == singles@.len(),
                forall|k: int| 0 <= k < singles@.len() ==> fresh_region(#[trigger] singles@[k], usable_entries(entries@.subrange(0, i as int))[k]),
                singles@.len() <= usable_entries(entries@).len(),
            decreases entries@.len() - i,
        {
            let entry = entries[i];
            proof {
                assert(entries@.subrange(0, i as int + 1).drop_last() =~= entries@.subrange(0, i as int));
                assert(entries@.subrange(0, i as int + 1).last() == entry);
                lemma_usable_mono(entries@, i as int + 1);
            }
            match Single::new(&entry) {
                Some(s) => {
                    singles.push(s);
                },
                None => {},
            }
            i += 1;
        }
        proof {
            assert(entries@.subrange(0, entries@.len() as int) =~= entries@);
            let ue = usable_entries(mmap@);
            assert forall|j: int, k: int|
                #![trigger singles@[j], singles@[k]]
                0 <= j < k < singles@.len() implies regions_disjoint(singles@[j], singles@[k]) by {
                lemma_usable_entry(mmap@, j);
                lemma_usable_entry(mmap@, k);
                lemma_fresh_region_within(singles@[j], ue[j]);
                lemma_fresh_region_within(singles@[k], ue[k]);
                assert(entries_disjoint(ue[j], ue[k]));
            }
        }
        BuddyAllocator { singles }
    }

    /// Whether the allocator can be made over the memory map: every entry ends
    /// within the address space, every usable entry lies below `PHYS_LIMIT`
    /// and makes a region of fewer than `2^31` pages, fewer than
    /// `MAX_FRAMES_CNT` entries are usable, and the usable entries do not overlap.
    pub fn fits(mmap: &MemoryMap) -> (r: bool)
        requires
            mmap.wf(),
        ensures
            r == mmap_fits(mmap@),
    {
        let es = mmap.iter();
        let mut usable: Vec<Entry> = Vec::new();
        let mut i: usize = 0;
        while i < es.len()
            invariant
                es@ == mmap@,
                i <= es@.len(),
                usable@ == usable_entries(es@.subrange(0, i as int)),
                usable@.len() < MAX_FRAMES_CNT,
                forall|j: int|
                    0 <= j < i ==> #[trigger] es@[j].spec_start() + es@[j].spec_len() <= u64::MAX && (region_usable(
                        es@[j],
                    ) ==> es@[j].spec_start() + es@[j].spec_len() < PHYS_LIMIT),
                forall|j: int|
                    0 <= j < i && region_usable(#[trigger] es@[j]) ==> region_pages(es@[j]) < 0x8000_0000,
            decreases es@.len() - i,
        {
            let e = es[i];
            proof {
                assert(es@.subrange(0, i as int + 1).drop_last() =~= es@.subrange(0, i as int));
                assert(es@.subrange(0, i as int + 1).last() == e);
                lemma_usable_mono(es@, i as int + 1);
                lemma_usable_prefix(es@, i as int + 1);
            }
            if e.len64() > u64::MAX - e.start() {
                proof {
                    assert(!mmap_fits(mmap@)) by {
                        assert(es@[i as int] == e);
                    }
                }
                return false;
            }
            match region_size(&e) {
                Some(pages) => {
                    if e.start() + e.len64() >= PHYS_LIMIT || pages >= 0x8000_0000 {
                        proof {
                            assert(!mmap_fits(mmap@)) by {
                                assert(es@[i as int] == e);
                            }
                        }
                        return false;
                    }
                    if usable.len() + 1 >= MAX_FRAMES_CNT {
                        proof {
                            assert(!mmap_fits(mmap@));
                        }
                        return false;
                    }
                    usable.push(e);
                },
                None => {},
            }
            i += 1;
        }
        proof {
            assert(es@.subrange(0, es@.len() as int) =~= es@);
        }
        let mut j: usize = 0;
        while j < usable.len()
            invariant
                usable@ == usable_entries(mmap@),
                j <= usable@.len(),
                forall|a: int, b: int|
                    #![trigger usable@[a], usable@[b]]
                    0 <= a < b < usable@.len() && a < j ==> entries_disjoint(usable@[a], usable@[b]),
            decreases usable@.len() - j,
        {
            let mut k: usize = j + 1;
            while k < usable.len()
                invariant
                    usable@ == usable_entries(mmap@),
                    j < usable@.len(),
                    j + 1 <= k <= usable@.len(),
                    forall|a: int, b: int|
                        #![trigger usable@[a], usable@[b]]
                        0 <= a < b < usable@.len() && a < j ==> entries_disjoint(usable@[a], usable@[b]),
                    forall|b: int| j < b < k ==> entries_disjoint(usable@[j as int], #[trigger] usable@[b]),
                decreases usable@.len() - k,
            {
                let x = usable[j];
                let y = usable[k];
                let x_end = x.start() as u128 + x.len64() as u128;
                let y_end = y.start() as u128 + y.len64() as u128;
                if !(x_end <= y.start() as u128 || y_end <= x.start() as u128) {
                    proof {
                        assert(!entries_disjoint(usable@[j as int], usable@[k as int]));
                    }
                    return false;
                }
                k += 1;
            }
            j += 1;
        }
        true
    }

    /// Allocates `2^level` pages from the first region that can serve them.
    pub fn allocate_level_raw(&mut self, level: usize) -> (r: Option<BuddyRaw>)
        requires
            old(self).wf(),
        ensures
            final(self).wf(),
            final(self)@.len() == old(self)@.len(),
            match r {
                None => final(self)@ == old(self)@ && none_free_from(old(self)@, level as int),
                Some(raw) => level_allocated(old(self)@, final(self)@, level as int, raw.single_num, raw.pointer),
            },
    {
        let mut num: usize = 0;
        while num < self.singles.len()
            invariant
                self.wf(),
                self@ == old(self)@,
                num <= self.singles@.len(),
                forall|j: int| 0 <= j < num ==> no_free_block_from(#[trigger] self.singles@[j], level as int),
            decreases self.singles@.len() - num,
        {
            let ghost before = self.singles@;
            proof {
                assert(before[num as int].wf());
            }
            match self.singles[num].allocate(level) {
                Some(address) => {
                    proof {
                        assert forall|k: int| 0 <= k < self.singles@.len() implies #[trigger] self.singles@[k].wf() by {
                            if k != num {
                                assert(self.singles@[k] == before[k]);
                            }
                        }
                        assert(self.singles@ =~= before.update(num as int, self.singles@[num as int]));
                        assert forall|j: int, k: int|
                            #![trigger self.singles@[j], self.singles@[k]]
                            0 <= j < k < self.singles@.len() implies regions_disjoint(self.singles@[j], self.singles@[k]) by {
                            assert(regions_disjoint(before[j], before[k]));
                        }
                    }
                    return Some(BuddyRaw { pointer: address, single_num: num });
                },
                None => {
                    proof {
                        assert(self.singles@ =~= before);
                    }
                },
            }
            num += 1;
        }
        None
    }

    /// Allocates `2^level` pages.
    pub fn allocate_level(&mut self, level: usize) -> (r: Option<BuddyBox>)
        requires
            old(self).wf(),
        ensures
            final(self).wf(),
            final(self)@.len() == old(self)@.len(),
            match r {
                None => final(self)@ == old(self)@ && none_free_from(old(self)@, level as int),
                Some(b) => level_allocated(old(self)@, final(self)@, level as int, b.spec_raw().single_num, b.spec_raw().pointer),
            },
    {
        match self.allocate_level_raw(level) {
            Some(x) => Some(BuddyBox { raw: x }),
            None => None,
        }
    }

    /// Allocates at least `size` bytes: the smallest block of a power-of-two
    /// number of pages that holds them.
    pub fn allocate_raw(&mut self, size: usize) -> (r: Option<BuddyRaw>)
        requires
            old(self).wf(),
            size > 0,
            size + PAGE_SIZE - 1 <= usize::MAX,
        ensures
            final(self).wf(),
            final(self)@.len() == old(self)@.len(),
            exists|level: int|
                {
                    &&& is_log2_ceil(#[trigger] pages_for(size as int), level)
                    &&& match r {
                        None => final(self)@ == old(self)@ && none_free_from(old(self)@, level),
                        Some(raw) => level_allocated(old(self)@, final(self)@, level, raw.single_num, raw.pointer),
                    }
                },
    {
        let level = Self::size_to_level(size);
        self.allocate_level_raw(level)
    }

    /// Allocates at least `size` bytes.
    pub fn allocate(&mut self, size: usize) -> (r: Option<BuddyBox>)
        requires
            old(self).wf(),
            size > 0,
            size + PAGE_SIZE - 1 <= usize::MAX,
        ensures
            final(self).wf(),
            final(self)@.len() == old(self)@.len(),
            exists|level: int|
                {
                    &&& is_log2_ceil(#[trigger] pages_for(size as int), level)
                    &&& match r {
                        None => final(self)@ == old(self)@ && none_free_from(old(self)@, level),
                        Some(b) => level_allocated(old(self)@, final(self)@, level, b.spec_raw().single_num, b.spec_raw().pointer),
                    }
                },
    {
        match self.allocate_raw(size) {
            Some(x) => Some(BuddyBox { raw: x }),
            None => None,
        }
    }

    /// The level of the smallest block that holds `size` bytes.
    pub fn size_to_level(size: usize) -> (r: usize)
        requires
            size > 0,
            size + PAGE_SIZE - 1 <= usize::MAX,
        ensures
            is_log2_ceil(pages_for(size as int), r as int),
    {
        let pages = (size - 1) / PAGE_SIZE + 1;
        assert(pages == pages_for(size as int));
        log2_ceil(pages)
    }

    /// Releases the allocation `raw`.
    pub fn deallocate_raw(&mut self, raw: &BuddyRaw)
        requires
            old(self).wf(),
            raw.single_num < old(self)@.len(),
            can_release(old(self)@[raw.single_num as int], raw.pointer),
        ensures
            final(self).wf(),
            final(self)@.len() == old(self)@.len(),
            raw_released(old(self)@, final(self)@, raw.single_num, raw.pointer),
    {
        let ghost before = self.singles@;
        self.singles[raw.single_num].deallocate(raw.pointer);
        proof {
            assert forall|k: int| 0 <= k < self.singles@.len() implies #[trigger] self.singles@[k].wf() by {
                if k != raw.single_num {
                    assert(self.singles@[k] == before[k]);
                }
            }
            assert(self.singles@ =~= before.update(raw.single_num as int, self.singles@[raw.single_num as int]));
            assert forall|j: int, k: int|
                #![trigger self.singles@[j], self.singles@[k]]
                0 <= j < k < self.singles@.len() implies regions_disjoint(self.singles@[j], self.singles@[k]) by {
                assert(regions_disjoint(before[j], before[k]));
            }
        }
    }

    /// Releases the allocation held by `bbox`.
    pub fn deallocate(&mut self, bbox: &BuddyBox)
        requires
            old(self).wf(),
            bbox.spec_raw().single_num < old(self)@.len(),
            can_release(old(self)@[bbox.spec_raw().single_num as int], bbox.spec_raw().pointer),
        ensures
            final(self).wf(),
            final(self)@.len() == old(self)@.len(),
            raw_released(old(self)@, final(self)@, bbox.spec_raw().single_num, bbox.spec_raw().pointer),
    {
        self.deallocate_raw(&bbox.raw);
    }

    /// Releases the allocation at `ptr` in every region that holds the address.
    pub fn deallocate_unknown(&mut self, ptr: u64)
        requires
            old(self).wf(),
            ptr != 0,
            forall|k: int|
                0 <= k < old(self)@.len() && #[trigger] old(self)@[k].spec_first_page() <= ptr <= old(self)@[k].spec_first_page() + old(self)@[k].cnt() * single::PAGE_BYTES
                    ==> can_release(old(self)@[k], ptr),
        ensures
            final(self).wf(),
            final(self)@.len() == old(self)@.len(),
            forall|k: int|
                0 <= k < old(self)@.len() ==> if old(self)@[k].spec_first_page() <= ptr <= old(self)@[k].spec_first_page() + old(self)@[k].cnt() * single::PAGE_BYTES {
                    released_from(old(self)@[k], #[trigger] final(self)@[k], ptr)
                } else {
                    final(self)@[k] == old(self)@[k]
                },
    {
        let ghost start = old(self)@;
        let mut k: usize = 0;
        while k < self.singles.len()
            invariant
                self.wf(),
                ptr != 0,
                self.singles@.len() == start.len(),
                k <= start.len(),
                forall|j: int| k <= j < start.len() ==> #[trigger] self.singles@[j] == start[j],
                forall|j: int|
                    0 <= j < start.len() && #[trigger] start[j].spec_first_page() <= ptr <= start[j].spec_first_page() + start[j].cnt() * single::PAGE_BYTES
                        ==> can_release(start[j], ptr),
                forall|j: int|
                    0 <= j < k ==> if start[j].spec_first_page() <= ptr <= start[j].spec_first_page() + start[j].cnt() * single::PAGE_BYTES {
                        released_from(start[j], #[trigger] self.singles@[j], ptr)
                    } else {
                        self.singles@[j] == start[j]
                    },
            decreases start.len() - k,
        {
            let ghost before = self.singles@;
            proof {
                assert(before[k as int].wf());
            }
            if self.singles[k].contains_addr(ptr) {
                self.singles[k].deallocate(ptr);
                proof {
                    assert forall|j: int| 0 <= j < self.singles@.len() implies #[trigger] self.singles@[j].wf() by {
                        if j != k {
                            assert(self.singles@[j] == before[j]);
                        }
                    }
                    assert forall|i: int, j: int|
                        #![trigger self.singles@[i], self.singles@[j]]
                        0 <= i < j < self.singles@.len() implies regions_disjoint(self.singles@[i], self.singles@[j]) by {
                        assert(regions_disjoint(before[i], before[j]));
                    }
                }
            }
            k += 1;
        }
    }
}

/// Releasing an allocation right after making it restores every region's
/// free lists and allocated blocks.
pub proof fn lemma_deallocate_undoes_allocate(
    old: BuddyAllocator,
    mid: BuddyAllocator,
    new: BuddyAllocator,
    level: int,
    single_num: usize,
    pointer: u64,
)
    requires
        old.wf(),
        level_allocated(old@, mid@, level, single_num, pointer),
        raw_released(mid@, new@, single_num, pointer),
    ensures
        new@.len() == old@.len(),
        forall|k: int|
            0 <= k < old@.len() ==> (#[trigger] new@[k]).lists_view() == old@[k].lists_view()
                && new@[k].allocated_set() == old@[k].allocated_set(),
{
    let n = single_num as int;
    assert(old@[n].wf());
    assert(fully_merged(old@[n].lists_view(), old@[n].cnt()));
    Single::lemma_deallocate_undoes_allocate(old@[n], mid@[n], new@[n], level, pointer);
}

/// A block the allocator hands out starts on a page boundary at or above
/// `MEMORY_START` (so it is never null) and is allocated afterwards; it does
/// not overlap any block allocated before, and those stay allocated.
pub proof fn lemma_allocated_block(
    old: BuddyAllocator,
    new: BuddyAllocator,
    level: int,
    single_num: usize,
    pointer: u64,
)
    requires
        old.wf(),
        0 <= level,
        level_allocated(old@, new@, level, single_num, pointer),
    ensures
        pointer % single::PAGE_BYTES == 0,
        MEMORY_START <= pointer,
        pointer + single::PAGE_BYTES <= u64::MAX,
        can_release(new@[single_num as int], pointer),
        forall|k: int, q: u64|
            0 <= k < old@.len() && #[trigger] can_release(old@[k], q) ==> q != pointer && can_release(new@[k], q),
        forall|k: int, q: u64|
            0 <= k < old@.len() && #[trigger] can_release(old@[k], q) ==> pointer + pow2(level as nat)
                * single::PAGE_BYTES <= q || q + pow2(old@[k].level_of(old@[k].page_index(q)) as nat)
                * single::PAGE_BYTES <= pointer,
{
    let n = single_num as int;
    assert(old@[n].wf());
    Single::lemma_allocated_block(old@[n], new@[n], level, pointer);
    Single::lemma_held_block(new@[n], pointer);
    assert forall|k: int, q: u64|
        0 <= k < old@.len() && #[trigger] can_release(old@[k], q) implies q != pointer && can_release(new@[k], q)
            && (pointer + pow2(level as nat) * single::PAGE_BYTES <= q || q + pow2(
            old@[k].level_of(old@[k].page_index(q)) as nat,
        ) * single::PAGE_BYTES <= pointer) by {
        if k != n {
            assert(old@[k].wf());
            Single::lemma_held_block(old@[k], q);
            if k < n {
                assert(regions_disjoint(old@[k], old@[n]));
            } else {
                assert(regions_disjoint(old@[n], old@[k]));
            }
        }
    }
}

/// Region by region, `a` and `b` stand over the same number of pages and hold
/// the same allocated blocks, each at the same level.
pub open spec fn same_holdings(a: Seq<Single>, b: Seq<Single>) -> bool {
    &&& a.len() == b.len()
    &&& forall|k: int|
        #![trigger a[k], b[k]]
        0 <= k < a.len() ==> {
            &&& a[k].cnt() == b[k].cnt()
            &&& a[k].allocated_set() == b[k].allocated_set()
            &&& forall|g: int| #[trigger] a[k].allocated_set().contains(g) ==> a[k].level_of(g) == b[k].level_of(g)
        }
}

/// Region by region and level by level, the free lists of `a` and `b` are
/// equally long.
pub open spec fn same_list_lengths(a: Seq<Single>, b: Seq<Single>) -> bool {
    &&& a.len() == b.len()
    &&& forall|k: int, l: int|
        #![trigger a[k].lists_view()[l], b[k].lists_view()[l]]
        0 <= k < a.len() && 0 <= l < single::MAX_HEIGHT ==> a[k].lists_view()[l].len() == b[k].lists_view()[l].len()
}

/// What is free depends only on what is held: two allocators over the same
/// regions that hold the same blocks have the same free blocks on every list
/// of every region, so their lists are equally long.
pub proof fn lemma_free_blocks_determined(a: BuddyAllocator, b: BuddyAllocator)
    requires
        a.wf(),
        b.wf(),
        same_holdings(a@, b@),
    ensures
        forall|k: int, l: int, h: usize|
            0 <= k < a@.len() && 0 <= l < single::MAX_HEIGHT ==> (#[trigger] a@[k].lists_view()[l].contains(h)
                <==> b@[k].lists_view()[l].contains(h)),
        same_list_lengths(a@, b@),
{
    assert forall|k: int| #![trigger a@[k]] 0 <= k < a@.len() implies {
        &&& forall|l: int, h: usize|
            0 <= l < single::MAX_HEIGHT ==> (#[trigger] a@[k].lists_view()[l].contains(h) <==> b@[k].lists_view()[l].contains(h))
        &&& forall|l: int|
            0 <= l < single::MAX_HEIGHT ==> #[trigger] a@[k].lists_view()[l].len() == b@[k].lists_view()[l].len()
    } by {
        assert(a@[k].wf() && b@[k].wf());
        assert(fully_merged(a@[k].lists_view(), a@[k].cnt()));
        assert(fully_merged(b@[k].lists_view(), b@[k].cnt()));
        a@[k].lemma_lists_sound();
        Single::lemma_free_blocks_determined(a@[k], b@[k]);
    }
}

/// Allocators whose free lists are equally long, region by region and level
/// by level, refuse a request of any level alike.
pub proof fn lemma_same_lengths_same_answers(a: BuddyAllocator, b: BuddyAllocator)
    requires
        a.wf(),
        b.wf(),
        same_list_lengths(a@, b@),
    ensures
        forall|level: int| 0 <= level ==> (#[trigger] none_free_from(a@, level) <==> none_free_from(b@, level)),
{
    assert forall|level: int| 0 <= level implies (#[trigger] none_free_from(a@, level) <==> none_free_from(b@, level)) by {
        assert forall|k: int| 0 <= k < a@.len() implies (no_free_block_from(#[trigger] a@[k], level) <==> no_free_block_from(b@[k], level)) by {
            Single::lemma_region_answers_alike(a@[k], b@[k], level);
        }
        if none_free_from(a@, level) {
            assert forall|k: int| 0 <= k < b@.len() implies no_free_block_from(#[trigger] b@[k], level) by {
                assert(no_free_block_from(a@[k], level));
            }
        }
        if none_free_from(b@, level) {
            assert forall|k: int| 0 <= k < a@.len() implies no_free_block_from(#[trigger] a@[k], level) by {
                assert(no_free_block_from(b@[k], level));
            }
        }
    }
}

/// When no region has a free block above `level`, a request of `level` takes
/// the first block of that list whole: it is served by the same region in
/// two allocators whose free lists are equally long, and leaves their lists
/// equally long. So a run of requests, each of the highest level that can
/// still be served, obtains the same levels from both.
pub proof fn lemma_top_request_keeps_lengths(
    a: BuddyAllocator,
    a2: BuddyAllocator,
    b: BuddyAllocator,
    b2: BuddyAllocator,
    level: int,
    ka: usize,
    pa: u64,
    kb: usize,
    pb: u64,
)
    requires
        a.wf(),
        b.wf(),
        same_list_lengths(a@, b@),
        0 <= level,
        none_free_from(a@, level + 1),
        level_allocated(a@, a2@, level, ka, pa),
        level_allocated(b@, b2@, level, kb, pb),
    ensures
        none_free_from(b@, level + 1),
        ka == kb,
        same_list_lengths(a2@, b2@),
{
    lemma_same_lengths_same_answers(a, b);
    let k = ka as int;
    assert(a@[k].wf() && b@[kb as int].wf());
    Single::lemma_top_request_takes_first(a@[k], a2@[k], level, pa);
    Single::lemma_top_request_takes_first(b@[kb as int], b2@[kb as int], level, pb);
    if ka < kb {
        assert(no_free_block_from(b@[k], level));
        Single::lemma_region_answers_alike(a@[k], b@[k], level);
        assert(a@[k].lists_view()[level].len() > 0);
        assert(false);
    }
    if kb < ka {
        assert(no_free_block_from(a@[kb as int], level));
        Single::lemma_region_answers_alike(a@[kb as int], b@[kb as int], level);
        assert(b@[kb as int].lists_view()[level].len() > 0);
        assert(false);
    }
    assert forall|j: int, l: int|
        0 <= j < a2@.len() && 0 <= l < MAX_HEIGHT implies #[trigger] a2@[j].lists_view()[l].len()
            == #[trigger] b2@[j].lists_view()[l].len() by {
        if j != k {
            assert(a2@[j] == a@[j]);
            assert(b2@[j] == b@[j]);
            assert(a@[j].lists_view()[l].len() == b@[j].lists_view()[l].len());
        } else {
            assert(a@[k].lists_view()[l].len() == b@[k].lists_view()[l].len());
        }
    }
}

/// One allocation or one release.
pub open spec fn one_step(old: Seq<Single>, new: Seq<Single>) -> bool {
    ||| exists|level: int, k: usize, p: u64| #[trigger] level_allocated(old, new, level, k, p)
    ||| exists|k: usize, p: u64| (k as int) < old.len() && #[trigger] raw_released(old, new, k, p)
}

/// Through a run of allocations and releases that keeps holding every block
/// held at its start, those blocks keep their levels.
proof fn lemma_run_keeps_held_levels(run: Seq<BuddyAllocator>, i: int)
    requires
        0 <= i < run.len(),
        forall|j: int| 0 <= j < run.len() - 1 ==> one_step(#[trigger] run[j]@, run[j + 1]@),
        forall|j: int, k: int, g: int|
            0 <= j < run.len() && 0 <= k < run[0]@.len() && run[0]@[k].allocated_set().contains(g)
                ==> #[trigger] run[j]@[k].allocated_set().contains(g),
    ensures
        run[i]@.len() == run[0]@.len(),
        forall|k: int| 0 <= k < run[0]@.len() ==> #[trigger] run[i]@[k].cnt() == run[0]@[k].cnt(),
        forall|k: int, g: int|
            0 <= k < run[0]@.len() && #[trigger] run[0]@[k].allocated_set().contains(g)
                ==> run[i]@[k].level_of(g) == run[0]@[k].level_of(g),
    decreases i,
{
    if i > 0 {
        lemma_run_keeps_held_levels(run, i - 1);
        let old = run[i - 1]@;
        let new = run[i]@;
        assert(one_step(old, new));
        assert forall|k: int| 0 <= k < old.len() implies #[trigger] new[k].cnt() == old[k].cnt()
            && held_levels_kept(old[k], new[k]) by {
            if exists|level: int, n: usize, p: u64| #[trigger] level_allocated(old, new, level, n, p) {
                let (level, n, p) = choose|level: int, n: usize, p: u64| #[trigger] level_allocated(old, new, level, n, p);
                if k != n {
                    assert(new[k] == old[k]);
                }
            } else {
                let (n, p) = choose|n: usize, p: u64| (n as int) < old.len() && #[trigger] raw_released(old, new, n, p);
                if k != n {
                    assert(new[k] == old[k]);
                }
            }
        }
        assert forall|k: int, g: int|
            0 <= k < run[0]@.len() && #[trigger] run[0]@[k].allocated_set().contains(g)
                implies run[i]@[k].level_of(g) == run[0]@[k].level_of(g) by {
            assert(old[k].allocated_set().contains(g));
            assert(new[k].allocated_set().contains(g));
            assert(held_levels_kept(old[k], new[k]));
        }
    }
}

/// A run of allocations and releases that keeps holding every block held at
/// its start, and at its end holds just those, ends holding the same blocks at
/// the same levels; so it ends with the same free blocks it started with, and
/// lists as long.
pub proof fn lemma_run_restores_free_blocks(run: Seq<BuddyAllocator>)
    requires
        run.len() >= 1,
        forall|j: int| 0 <= j < run.len() ==> #[trigger] run[j].wf(),
        forall|j: int| 0 <= j < run.len() - 1 ==> one_step(#[trigger] run[j]@, run[j + 1]@),
        forall|j: int, k: int, g: int|
            0 <= j < run.len() && 0 <= k < run[0]@.len() && run[0]@[k].allocated_set().contains(g)
                ==> #[trigger] run[j]@[k].allocated_set().contains(g),
        forall|k: int|
            0 <= k < run[0]@.len() ==> #[trigger] run[run.len() - 1]@[k].allocated_set() == run[0]@[k].allocated_set(),
    ensures
        same_holdings(run[0]@, run[run.len() - 1]@),
        forall|k: int, l: int, h: usize|
            0 <= k < run[0]@.len() && 0 <= l < MAX_HEIGHT ==> (#[trigger] run[0]@[k].lists_view()[l].contains(h)
                <==> run[run.len() - 1]@[k].lists_view()[l].contains(h)),
        same_list_lengths(run[0]@, run[run.len() - 1]@),
{
    let last = run.len() - 1;
    lemma_run_keeps_held_levels(run, last);
    assert forall|k: int| #![trigger run[0]@[k], run[last]@[k]] 0 <= k < run[0]@.len() implies {
        &&& run[0]@[k].cnt() == run[last]@[k].cnt()
        &&& run[0]@[k].allocated_set() == run[last]@[k].allocated_set()
        &&& forall|g: int| #[trigger] run[0]@[k].allocated_set().contains(g) ==> run[0]@[k].level_of(g)
            == run[last]@[k].level_of(g)
    } by {
        assert(run[last]@[k].cnt() == run[0]@[k].cnt());
    }
    assert(same_holdings(run[0]@, run[last]@));
    lemma_free_blocks_determined(run[0], run[last]);
}

/// `new` is `old` after one greedy request: the highest level that any region
/// can still serve was requested and served (`level >= 0`), or no level could
/// be served and nothing changed (`level == -1`).
pub open spec fn greedy_step(old: Seq<Single>, new: Seq<Single>, level: int) -> bool {
    if level < 0 {
        level == -1 && new == old && none_free_from(old, 0)
    } else {
        &&& level < MAX_HEIGHT
        &&& none_free_from(old, level + 1)
        &&& exists|k: usize, p: u64| #[trigger] level_allocated(old, new, level, k, p)
    }
}

/// `run` is a sequence of allocator states, each reached from the one before
/// by a greedy request of the level given in `levels`.
pub open spec fn greedy_run(run: Seq<BuddyAllocator>, levels: Seq<int>) -> bool {
    &&& run.len() == levels.len() + 1
    &&& forall|j: int| 0 <= j < run.len() ==> #[trigger] run[j].wf()
    &&& forall|j: int| 0 <= j < levels.len() ==> greedy_step(#[trigger] run[j]@, run[j + 1]@, levels[j])
}

/// A request that was served was refused by no region at its level.
proof fn lemma_served_means_free(old: Seq<Single>, new: Seq<Single>, level: int, k: usize, p: u64)
    requires
        level_allocated(old, new, level, k, p),
    ensures
        !none_free_from(old, level),
{
    let n = k as int;
    let lvl = choose|lvl: int|
        {
            &&& level <= lvl < old[n].spec_height()
            &&& #[trigger] old[n].lists_view()[lvl].len() > 0
            &&& forall|l: int| level <= l < lvl ==> #[trigger] old[n].lists_view()[l].len() == 0
            &&& {
                let m = old[n].lists_view()[lvl][0] as int;
                &&& p == old[n].page_addr(m)
                &&& m % (pow2(level as nat) as int) == 0
                &&& m + pow2(level as nat) <= old[n].cnt()
                &&& new[n].lists_view() == split_lists(old[n].lists_view(), m, lvl, level)
                &&& new[n].allocated_set() == old[n].allocated_set().insert(m)
                &&& new[n].level_of(m) == level
            }
        };
    assert(!no_free_block_from(old[n], level));
}

/// Two greedy runs from allocators whose free lists are equally long obtain
/// the same levels, step by step, and keep the lists equally long.
proof fn lemma_greedy_runs_agree(ra: Seq<BuddyAllocator>, la: Seq<int>, rb: Seq<BuddyAllocator>, lb: Seq<int>, i: int)
    requires
        greedy_run(ra, la),
        greedy_run(rb, lb),
        la.len() == lb.len(),
        same_list_lengths(ra[0]@, rb[0]@),
        0 <= i <= la.len(),
    ensures
        same_list_lengths(ra[i]@, rb[i]@),
        forall|j: int| 0 <= j < i ==> #[trigger] la[j] == lb[j],
    decreases i,
{
    if i > 0 {
        let j = i - 1;
        lemma_greedy_runs_agree(ra, la, rb, lb, j);
        let (a, a2, b, b2) = (ra[j], ra[j + 1], rb[j], rb[j + 1]);
        assert(a.wf() && a2.wf() && b.wf() && b2.wf());
        assert(greedy_step(a@, a2@, la[j]) && greedy_step(b@, b2@, lb[j]));
        lemma_same_lengths_same_answers(a, b);
        if la[j] >= 0 {
            let (ka, pa) = choose|k: usize, p: u64| #[trigger] level_allocated(a@, a2@, la[j], k, p);
            lemma_served_means_free(a@, a2@, la[j], ka, pa);
        }
        if lb[j] >= 0 {
            let (kb, pb) = choose|k: usize, p: u64| #[trigger] level_allocated(b@, b2@, lb[j], k, p);
            lemma_served_means_free(b@, b2@, lb[j], kb, pb);
        }
        if la[j] >= 0 && lb[j] >= 0 && la[j] != lb[j] {
            if la[j] < lb[j] {
                assert(none_free_from(a@, lb[j])) by {
                    assert forall|k: int| 0 <= k < a@.len() implies no_free_block_from(#[trigger] a@[k], lb[j]) by {
                        assert(no_free_block_from(a@[k], la[j] + 1));
                    }
                }
            } else {
                assert(none_free_from(b@, la[j])) by {
                    assert forall|k: int| 0 <= k < b@.len() implies no_free_block_from(#[trigger] b@[k], la[j]) by {
                        assert(no_free_block_from(b@[k], lb[j] + 1));
                    }
                }
            }
        }
        if la[j] < 0 && lb[j] >= 0 {
            assert(none_free_from(b@, lb[j])) by {
                assert forall|k: int| 0 <= k < b@.len() implies no_free_block_from(#[trigger] b@[k], lb[j]) by {
                    assert(no_free_block_from(b@[k], 0));
                }
            }
        }
        if lb[j] < 0 && la[j] >= 0 {
            assert(none_free_from(a@, la[j])) by {
                assert forall|k: int| 0 <= k < a@.len() implies no_free_block_from(#[trigger] a@[k], la[j]) by {
                    assert(no_free_block_from(a@[k], 0));
                }
            }
        }
        assert(la[j] == lb[j]);
        if la[j] >= 0 {
            let (ka, pa) = choose|k: usize, p: u64| #[trigger] level_allocated(a@, a2@, la[j], k, p);
            let (kb, pb) = choose|k: usize, p: u64| #[trigger] level_allocated(b@, b2@, lb[j], k, p);
            lemma_top_request_keeps_lengths(a, a2, b, b2, la[j], ka, pa, kb, pb);
        }
    }
}

/// Greedy rounds repeat: `ra` takes the largest blocks the allocator can
/// give, round after round. `back` is the history from the state before the
/// rounds to a later state (the rounds' own requests and the releases that
/// give their blocks back, in any order, among its steps); through it every
/// block held before the rounds stays held, and at its end just those are
/// held. From that later state, the same number of greedy rounds `rb` obtains
/// the same levels again.
pub proof fn lemma_greedy_rounds_repeat(
    ra: Seq<BuddyAllocator>,
    la: Seq<int>,
    back: Seq<BuddyAllocator>,
    rb: Seq<BuddyAllocator>,
    lb: Seq<int>,
)
    requires
        greedy_run(ra, la),
        greedy_run(rb, lb),
        la.len() == lb.len(),
        back.len() >= 1,
        back[0] == ra[0],
        back[back.len() - 1] == rb[0],
        forall|j: int| 0 <= j < back.len() ==> #[trigger] back[j].wf(),
        forall|j: int| 0 <= j < back.len() - 1 ==> one_step(#[trigger] back[j]@, back[j + 1]@),
        forall|j: int, k: int, g: int|
            0 <= j < back.len() && 0 <= k < back[0]@.len() && back[0]@[k].allocated_set().contains(g)
                ==> #[trigger] back[j]@[k].allocated_set().contains(g),
        forall|k: int|
            0 <= k < back[0]@.len() ==> #[trigger] back[back.len() - 1]@[k].allocated_set() == back[0]@[k].allocated_set(),
    ensures
        la == lb,
{
    lemma_run_restores_free_blocks(back);
    lemma_greedy_runs_agree(ra, la, rb, lb, la.len() as int);
    assert(la =~= lb);
}

/// A prefix has no more usable entries than the whole.
proof fn lemma_usable_mono(es: Seq<Entry>, k: int)
    requires
        0 <= k <= es.len(),
    ensures
        usable_entries(es.subrange(0, k)).len() <= usable_entries(es).len(),
        k > 0 ==> usable_entries(es.subrange(0, k)) == if region_usable(es[k - 1]) {
            usable_entries(es.subrange(0, k - 1)).push(es[k - 1])
        } else {
            usable_entries(es.subrange(0, k - 1))
        },
    decreases es.len() - k,
{
    if k > 0 {
        assert(es.subrange(0, k).drop_last() =~= es.subrange(0, k - 1));
    }
    if k < es.len() {
        lemma_usable_mono(es, k + 1);
        assert(es.subrange(0, k + 1).drop_last() =~= es.subrange(0, k));
    } else {
        assert(es.subrange(0, k) =~= es);
    }
}

/// Whether a region is made for `e`, and then the number of its pages.
fn region_size(e: &Entry) -> (r: Option<u64>)
    requires
        e.spec_start() + e.spec_len() <= u64::MAX,
    ensures
        r is Some <==> single::region_usable(*e),
        r matches Some(n) ==> n == single::region_pages(*e),
{
    proof {
        lemma_round_up_facts(e.spec_start() as int, single::PADDING as int);
        lemma_round_down_facts(e.spec_start() + e.spec_len(), single::PAGE_BYTES as int);
    }
    let end = crate::utility::round_down(e.end(), single::PAGE_BYTES);
    if e.start() > u64::MAX - single::MIN_SIZE - single::PADDING {
        // no region fits between such a start and the end of the address space
        return None;
    }
    let begin = crate::utility::round_up(e.start(), single::PADDING);
    if !e.is_available() || begin + single::MIN_SIZE > end {
        return None;
    }
    Some((end - begin - single::REGION_HEADER_BYTES) / (single::PAGE_BYTES + single::NODE_BYTES))
}

/// The usable entries of a prefix of `es` grow one entry at a time.
proof fn lemma_usable_prefix(es: Seq<Entry>, k: int)
    requires
        0 < k <= es.len(),
    ensures
        usable_entries(es.subrange(0, k)) == if region_usable(es[k - 1]) {
            usable_entries(es.subrange(0, k - 1)).push(es[k - 1])
        } else {
            usable_entries(es.subrange(0, k - 1))
        },
{
    assert(es.subrange(0, k).drop_last() =~= es.subrange(0, k - 1));
}

/// Every entry that the allocator makes a region for is usable.
proof fn lemma_usable_entry(es: Seq<Entry>, k: int)
    requires
        0 <= k < usable_entries(es).len(),
    ensures
        region_usable(usable_entries(es)[k]),
    decreases es.len(),
{
    if es.len() > 0 {
        let rest = usable_entries(es.drop_last());
        if k < rest.len() {
            lemma_usable_entry(es.drop_last(), k);
        }
    }
}

/// The pages of a fresh region over `e` lie inside `e`'s addresses, as mapped
/// at `MEMORY_START`.
proof fn lemma_fresh_region_within(s: Single, e: Entry)
    requires
        fresh_region(s, e),
        region_usable(e),
    ensures
        e.spec_start() + MEMORY_START <= s.spec_first_page(),
        s.spec_first_page() + s.cnt() * single::PAGE_BYTES <= e.spec_start() + e.spec_len() + MEMORY_START,
{
    lemma_round_down_facts(e.spec_start() + e.spec_len(), single::PAGE_BYTES as int);
    lemma_round_up_facts(e.spec_start() as int, single::PADDING as int);
    let x = single::region_end(e) - single::region_begin(e) - single::REGION_HEADER_BYTES;
    let d = (single::PAGE_BYTES + single::NODE_BYTES) as int;
    lemma_fundamental_div_mod(x, d);
    assert(s.cnt() == x / d);
    assert(s.cnt() * single::PAGE_BYTES <= x) by (nonlinear_arith)
        requires
            x == d * (x / d) + x % d,
            x % d >= 0,
            x / d >= 0,
            d == 4120,
            s.cnt() == x / d,
    ;
}

} // verus!
