//! The kernel heap: a request of up to `MAX_FRAME_SIZE` bytes goes to the slab
//! allocator of the smallest frame size that holds it, a larger one goes to the
//! buddy allocator.

use vstd::prelude::*;
use vstd::arithmetic::power2::{pow2, lemma2_to64, lemma_pow2_strictly_increases};
use crate::mem::buddy::{BuddyAllocator, BuddyRaw, level_allocated, none_free_from, pages_for};
use crate::mem::buddy::single::{Single, can_release, released_from, PAGE_BYTES};
use crate::mem::paging::PAGE_SIZE;
use crate::mem::slab::{
    SlabAllocator,
    MAX_FRAME_SIZE,
    valid_frame_size,
    frame_taken,
    frame_released,
    lemma_holds_after_allocation,
    lemma_holds_after_release,
};
use crate::utility::{log2_ceil, is_log2_ceil};

verus! {

/// The number of slab allocators.
pub const SLAB_CNT: usize = 8;

/// The frame size of slab allocator `num`: 16 bytes doubled `num` times, and
/// the largest frame for the last one.
pub open spec fn slab_size(num: int) -> int {
    if num < SLAB_CNT - 1 {
        pow2((num + 4) as nat) as int
    } else {
        MAX_FRAME_SIZE as int
    }
}

/// Slab allocator `n` serves requests of `size` bytes: its frames hold them,
/// and those of the one before do not.
pub open spec fn size_class(size: int, n: int) -> bool {
    &&& 0 <= n < SLAB_CNT
    &&& size <= slab_size(n)
    &&& (n == 0 || slab_size(n - 1) < size)
}

/// The frame sizes of the slab allocators grow with their number.
proof fn lemma_slab_size_grows(a: int, b: int)
    requires
        0 <= a < b < SLAB_CNT,
    ensures
        slab_size(a) < slab_size(b),
{
    lemma2_to64();
    if b < SLAB_CNT - 1 {
        lemma_pow2_strictly_increases((a + 4) as nat, (b + 4) as nat);
    } else if a < SLAB_CNT - 2 {
        lemma_pow2_strictly_increases((a + 4) as nat, 10);
    }
}

/// Every request size up to `MAX_FRAME_SIZE` has exactly one slab allocator.
pub proof fn lemma_size_class_unique(size: int, n1: int, n2: int)
    requires
        size_class(size, n1),
        size_class(size, n2),
    ensures
        n1 == n2,
{
    if n1 < n2 {
        if n1 < n2 - 1 {
            lemma_slab_size_grows(n1, n2 - 1);
        }
    } else if n2 < n1 {
        if n2 < n1 - 1 {
            lemma_slab_size_grows(n2, n1 - 1);
        }
    }
}

/// The slab allocator for a request of `size` bytes: the one with the smallest
/// frames that hold `size` bytes.
pub fn get_slub_num(size: usize) -> (r: usize)
    requires
        size <= MAX_FRAME_SIZE,
    ensures
        r < SLAB_CNT,
        size <= 16 ==> r == 0,
        size > 16 ==> is_log2_ceil(size as int, r + 4),
        size_class(size as int, r as int),
{
    proof {
        lemma2_to64();
    }
    if size <= 16 {
        0
    } else {
        let l = log2_ceil(size);
        proof {
            let ln = l as nat;
            if ln <= 4 {
                if ln < 4 {
                    lemma_pow2_strictly_increases(ln, 4);
                }
            }
            if ln >= 12 {
                if ln > 12 {
                    lemma_pow2_strictly_increases(11, (ln - 1) as nat);
                }
            }
            assert(5 <= l <= 11);
        }
        l - 4
    }
}

/// The heap over the buddy allocator: one slab allocator per frame size.
pub struct GeneralAllocator {
    slabs: Vec<SlabAllocator>,
    buddy: BuddyAllocator,
}

impl GeneralAllocator {
    /// The slab allocators, by frame size.
    pub closed spec fn slabs_view(&self) -> Seq<SlabAllocator> {
        self.slabs@
    }

    /// The buddy allocator.
    pub closed spec fn buddy_view(&self) -> BuddyAllocator {
        self.buddy
    }

    /// Each slab allocator is consistent, has its frame size, and holds pages
    /// the buddy allocator counts as allocated.
    pub closed spec fn wf(&self) -> bool {
        &&& self.buddy.wf()
        &&& self.slabs@.len() == SLAB_CNT
        &&& forall|i: int|
            0 <= i < SLAB_CNT ==> {
                &&& (#[trigger] self.slabs@[i]).wf()
                &&& self.slabs@[i].spec_frame_size() == slab_size(i)
                &&& self.slabs@[i].holds(self.buddy@)
            }
    }

    /// The heap over `buddy`, with slab allocators that have no page yet.
    pub fn new(buddy: BuddyAllocator) -> (r: GeneralAllocator)
        requires
            buddy.wf(),
        ensures
            r.wf(),
            r.buddy_view() == buddy,
            forall|i: int| 0 <= i < SLAB_CNT ==> (#[trigger] r.slabs_view()[i]).page_starts().len() == 0,
    {
        let mut slabs: Vec<SlabAllocator> = Vec::new();
        let mut size: usize = 16;
        let mut i: usize = 0;
        proof {
            lemma2_to64();
        }
        while i < SLAB_CNT
            invariant
                i <= SLAB_CNT,
                slabs@.len() == i,
                i < SLAB_CNT ==> size == slab_size(i as int) || i == SLAB_CNT - 1,
                i < SLAB_CNT - 1 ==> size == pow2((i + 4) as nat),
                forall|j: int|
                    0 <= j < i ==> {
                        &&& (#[trigger] slabs@[j]).wf()
                        &&& slabs@[j].spec_frame_size() == slab_size(j)
                        &&& slabs@[j].holds(buddy@)
                        &&& slabs@[j].page_starts().len() == 0
                    },
            decreases SLAB_CNT - i,
        {
            proof {
                lemma2_to64();
            }
            let frame_size = if i == SLAB_CNT - 1 { MAX_FRAME_SIZE } else { size };
            slabs.push(SlabAllocator::new(frame_size));
            if i < SLAB_CNT - 1 {
                size = size * 2;
            }
            i += 1;
        }
        GeneralAllocator { slabs, buddy }
    }

    /// Allocates `size` bytes aligned to `align`: from the slab allocator of
    /// the request's size class if `size` is at most `MAX_FRAME_SIZE`, else
    /// from the buddy allocator. `None` when the allocator it goes to has no room.
    pub fn allocate(&mut self, size: usize, align: usize) -> (r: Option<u64>)
        requires
            old(self).wf(),
            align > 0,
            8usize % align == 0,
            size + PAGE_SIZE - 1 <= usize::MAX,
        ensures
            final(self).wf(),
            r matches Some(p) ==> p % 8 == 0 && (p as int) % (align as int) == 0,
            if size <= MAX_FRAME_SIZE {
                exists|n: int|
                    {
                        &&& size_class(size as int, n)
                        &&& (size <= 16 ==> n == 0)
                        &&& (size > 16 ==> is_log2_ceil(size as int, n + 4))
                        &&& frame_taken(
                            old(self).slabs_view()[n],
                            final(self).slabs_view()[n],
                            old(self).buddy_view()@,
                            final(self).buddy_view()@,
                            r,
                        )
                        &&& final(self).slabs_view() == old(self).slabs_view().update(n, final(self).slabs_view()[n])
                    }
            } else {
                &&& final(self).slabs_view() == old(self).slabs_view()
                &&& exists|level: int|
                    {
                        &&& is_log2_ceil(#[trigger] pages_for(size as int), level)
                        &&& match r {
                            None => final(self).buddy_view()@ == old(self).buddy_view()@ && none_free_from(
                                old(self).buddy_view()@,
                                level,
                            ),
                            Some(p) => exists|num: usize|
                                #[trigger] level_allocated(old(self).buddy_view()@, final(self).buddy_view()@, level, num, p),
                        }
                    }
            },
    {
        let ghost s0 = *self;
        if size <= MAX_FRAME_SIZE {
            let n = get_slub_num(size);
            let ghost b0 = self.buddy;
            let r = self.slabs[n].allocate(&mut self.buddy);
            proof {
                assert(self.slabs@ =~= s0.slabs@.update(n as int, self.slabs@[n as int]));
                assert(frame_taken(s0.slabs_view()[n as int], self.slabs_view()[n as int], s0.buddy_view()@, self.buddy_view()@, r));
                if let Some(p) = r {
                    lemma_aligned_to(p as int, align as int);
                }
                assert(self.slabs_view() == s0.slabs_view().update(n as int, self.slabs_view()[n as int]));
                assert forall|i: int| 0 <= i < SLAB_CNT implies {
                    &&& (#[trigger] self.slabs@[i]).wf()
                    &&& self.slabs@[i].spec_frame_size() == slab_size(i)
                    &&& self.slabs@[i].holds(self.buddy@)
                } by {
                    if i != n {
                        assert(self.slabs@[i] == s0.slabs@[i]);
                        let t = s0.slabs@[n as int];
                        if self.buddy@ != b0@ {
                            let new_num = choose|num: usize|
                                level_allocated(b0@, self.buddy@, 0, num, self.slabs@[n as int].page_starts().last());
                            lemma_holds_after_allocation(
                                s0.slabs@[i],
                                b0,
                                self.buddy,
                                0,
                                new_num,
                                self.slabs@[n as int].page_starts().last(),
                            );
                        }
                    }
                }
            }
            r
        } else {
            let ghost b0 = self.buddy;
            let rr = self.buddy.allocate_raw(size);
            let ghost level = choose|level: int|
                {
                    &&& is_log2_ceil(#[trigger] pages_for(size as int), level)
                    &&& match rr {
                        None => self.buddy@ == b0@ && none_free_from(b0@, level),
                        Some(raw) => level_allocated(b0@, self.buddy@, level, raw.single_num, raw.pointer),
                    }
                };
            let r = match &rr {
                Some(raw) => Some(raw.pointer),
                None => None,
            };
            proof {
                match rr {
                    Some(raw) => {
                        assert(r == Some(raw.pointer));
                        assert(level_allocated(s0.buddy_view()@, self.buddy_view()@, level, raw.single_num, raw.pointer));
                        assert(r.unwrap() == raw.pointer);
                        assert(level_allocated(s0.buddy_view()@, self.buddy_view()@, level, raw.single_num, r.unwrap()));
                        assert(exists|num: usize| #[trigger] level_allocated(s0.buddy_view()@, self.buddy_view()@, level, num, r.unwrap()));
                        crate::mem::buddy::lemma_allocated_block(b0, self.buddy, level, raw.single_num, raw.pointer);
                        lemma_aligned_to(raw.pointer as int, align as int);
                    },
                    None => {},
                }
                assert(is_log2_ceil(pages_for(size as int), level));
                assert(match r {
                    None => self.buddy_view()@ == s0.buddy_view()@ && none_free_from(s0.buddy_view()@, level),
                    Some(p) => exists|num: usize| #[trigger] level_allocated(s0.buddy_view()@, self.buddy_view()@, level, num, p),
                });
                assert forall|i: int| 0 <= i < SLAB_CNT implies {
                    &&& (#[trigger] self.slabs@[i]).wf()
                    &&& self.slabs@[i].spec_frame_size() == slab_size(i)
                    &&& self.slabs@[i].holds(self.buddy@)
                } by {
                    match rr {
                        Some(raw) => {
                            lemma_holds_after_allocation(s0.slabs@[i], b0, self.buddy, level, raw.single_num, raw.pointer);
                        },
                        None => {},
                    }
                }
            }
            r
        }
    }

    /// Frees the `old_size` bytes at `ptr`: a frame goes back to the slab
    /// allocator of its size class, a larger block to the buddy allocator,
    /// which releases it in every region that holds its address.
    pub fn deallocate(&mut self, ptr: u64, old_size: usize)
        requires
            old(self).wf(),
            old_size <= MAX_FRAME_SIZE ==> forall|n: int|
                size_class(old_size as int, n) ==> (#[trigger] old(self).slabs_view()[n]).allocated_set().contains(ptr),
            old_size > MAX_FRAME_SIZE ==> {
                &&& ptr != 0
                &&& forall|k: int|
                    0 <= k < old(self).buddy_view()@.len() && #[trigger] old(self).buddy_view()@[k].spec_first_page()
                        <= ptr <= old(self).buddy_view()@[k].spec_first_page() + old(self).buddy_view()@[k].cnt()
                        * PAGE_BYTES ==> can_release(old(self).buddy_view()@[k], ptr)
                &&& forall|i: int| 0 <= i < SLAB_CNT ==> !(#[trigger] old(self).slabs_view()[i]).page_starts().contains(ptr)
            },
        ensures
            final(self).wf(),
            if old_size <= MAX_FRAME_SIZE {
                &&& final(self).buddy_view() == old(self).buddy_view()
                &&& exists|n: int|
                    {
                        &&& size_class(old_size as int, n)
                        &&& frame_released(old(self).slabs_view()[n], #[trigger] final(self).slabs_view()[n], ptr)
                        &&& final(self).slabs_view() == old(self).slabs_view().update(n, final(self).slabs_view()[n])
                    }
            } else {
                &&& final(self).slabs_view() == old(self).slabs_view()
                &&& final(self).buddy_view()@.len() == old(self).buddy_view()@.len()
                &&& forall|k: int|
                    0 <= k < old(self).buddy_view()@.len() ==> if old(self).buddy_view()@[k].spec_first_page() <= ptr
                        <= old(self).buddy_view()@[k].spec_first_page() + old(self).buddy_view()@[k].cnt() * PAGE_BYTES {
                        released_from(old(self).buddy_view()@[k], #[trigger] final(self).buddy_view()@[k], ptr)
                    } else {
                        final(self).buddy_view()@[k] == old(self).buddy_view()@[k]
                    }
            },
    {
        let ghost s0 = *self;
        if old_size <= MAX_FRAME_SIZE {
            let n = get_slub_num(old_size);
            proof {
                assert(size_class(old_size as int, n as int));
                assert(s0.slabs_view()[n as int].allocated_set().contains(ptr));
            }
            self.slabs[n].deallocate(ptr);
            proof {
                assert(self.slabs@ =~= s0.slabs@.update(n as int, self.slabs@[n as int]));
                assert(frame_released(s0.slabs_view()[n as int], self.slabs_view()[n as int], ptr));
                assert(self.slabs_view() == s0.slabs_view().update(n as int, self.slabs_view()[n as int]));
                assert forall|i: int| 0 <= i < SLAB_CNT implies {
                    &&& (#[trigger] self.slabs@[i]).wf()
                    &&& self.slabs@[i].spec_frame_size() == slab_size(i)
                    &&& self.slabs@[i].holds(self.buddy@)
                } by {
                    if i != n {
                        assert(self.slabs@[i] == s0.slabs@[i]);
                    }
                }
            }
        } else {
            let ghost b0 = self.buddy;
            proof {
                assert forall|k: int|
                    0 <= k < b0@.len() && #[trigger] b0@[k].spec_first_page() <= ptr <= b0@[k].spec_first_page()
                        + b0@[k].cnt() * PAGE_BYTES implies can_release(b0@[k], ptr) by {
                    assert(s0.buddy_view()@[k].spec_first_page() == b0@[k].spec_first_page());
                }
            }
            self.buddy.deallocate_unknown(ptr);
            proof {
                assert forall|i: int| 0 <= i < SLAB_CNT implies {
                    &&& (#[trigger] self.slabs@[i]).wf()
                    &&& self.slabs@[i].spec_frame_size() == slab_size(i)
                    &&& self.slabs@[i].holds(self.buddy@)
                } by {
                    assert(!s0.slabs_view()[i].page_starts().contains(ptr));
                    assert forall|k: int| 0 <= k < b0@.len() implies (released_from(b0@[k], #[trigger] self.buddy@[k], ptr)
                        && can_release(b0@[k], ptr)) || self.buddy@[k] == b0@[k] by {
                        if b0@[k].spec_first_page() <= ptr <= b0@[k].spec_first_page() + b0@[k].cnt() * PAGE_BYTES {
                            assert(s0.buddy_view()@[k].spec_first_page() == b0@[k].spec_first_page());
                            assert(can_release(b0@[k], ptr));
                        }
                    }
                    lemma_holds_after_release(s0.slabs@[i], b0, self.buddy, ptr);
                }
            }
        }
    }
}

/// A multiple of 8 is a multiple of every divisor of 8.
proof fn lemma_aligned_to(p: int, align: int)
    requires
        p % 8 == 0,
        align > 0,
        8int % align == 0,
    ensures
        p % align == 0,
{
    vstd::arithmetic::div_mod::lemma_fundamental_div_mod(p, 8);
    vstd::arithmetic::div_mod::lemma_fundamental_div_mod(8int, align);
    let k = p / 8;
    let m = 8int / align;
    assert(p == (k * m) * align + 0) by (nonlinear_arith)
        requires
            p == 8 * k + p % 8,
            p % 8 == 0,
            8int == align * m + 8int % align,
            8int % align == 0,
    ;
    vstd::arithmetic::div_mod::lemma_fundamental_div_mod_converse(p, align, k * m, 0);
}

} // verus!
