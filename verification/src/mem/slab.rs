//! The slab allocator: frames of one size cut from single pages of the buddy
//! allocator. Freed frames wait on a stack and are handed out again first; a
//! fresh page is cut into frames lazily, one frame at a time, as the stack
//! runs dry. The record of a page sits at the page's start.

use vstd::prelude::*;
use vstd::arithmetic::div_mod::{lemma_fundamental_div_mod, lemma_fundamental_div_mod_converse};
use vstd::set_lib::{set_int_range, lemma_int_range, lemma_len_subset};
use crate::mem::buddy::{BuddyAllocator, BuddyBox, none_free_from, level_allocated, lemma_allocated_block};
use crate::mem::buddy::single::{Single, can_release, released_from};
use crate::mem::paging::PAGE_SIZE;
use crate::utility::{round_down, round_down_spec};

verus! {

/// The room the record of a page takes at the page's start.
pub const PAGE_NODE_BYTES: usize = 48;

/// The smallest frame: a free frame must hold a list node.
pub const MIN_FRAME_SIZE: usize = 16;

/// The largest frame: two of them fit in a page beside its record.
pub const MAX_FRAME_SIZE: usize = PAGE_SIZE / 2 - 16;

/// A frame size the allocator works with: between the limits, and a multiple
/// of 8 so that frames stay aligned.
pub open spec fn valid_frame_size(fs: int) -> bool {
    MIN_FRAME_SIZE <= fs <= MAX_FRAME_SIZE && fs % 8 == 0
}

/// The number of frames of `fs` bytes a page holds beside its record.
pub open spec fn frames_per_page_spec(fs: int) -> int {
    (PAGE_SIZE - PAGE_NODE_BYTES) as int / fs
}

/// The address of frame `i` of the page at `page`.
pub open spec fn frame_addr(page: int, i: int, fs: int) -> int {
    page + PAGE_NODE_BYTES + i * fs
}

/// The start of the page that holds the address `f`.
pub open spec fn frame_page(f: int) -> int {
    round_down_spec(f, PAGE_SIZE as int)
}

/// `s` without the frames that lie on the page at `page`, in the same order.
pub open spec fn without_page(s: Seq<u64>, page: int) -> Seq<u64>
    decreases s.len(),
{
    if s.len() == 0 {
        s
    } else if frame_page(s.last() as int) == page {
        without_page(s.drop_last(), page)
    } else {
        without_page(s.drop_last(), page).push(s.last())
    }
}

/// `new` is `old` after it answered an allocation with `r`, the buddy
/// regions going from `ob` to `nb`.
pub open spec fn frame_taken(old: SlabAllocator, new: SlabAllocator, ob: Seq<Single>, nb: Seq<Single>, r: Option<u64>) -> bool {
    match r {
        None => {
            &&& old.free_frames().len() == 0
            &&& old.initialized() >= old.frames_per_page_view()
            &&& none_free_from(ob, 0)
            &&& nb == ob
            &&& new.free_frames() == old.free_frames()
            &&& new.page_starts() == old.page_starts()
            &&& new.page_counts() == old.page_counts()
            &&& new.initialized() == old.initialized()
            &&& new.allocated_set() == old.allocated_set()
        },
        Some(f) => {
            &&& f % 8 == 0
            &&& !old.allocated_set().contains(f)
            &&& new.allocated_set() == old.allocated_set().insert(f)
            &&& forall|k: int|
                0 <= k < new.page_starts().len() ==> #[trigger] new.page_counts()[k] == (if k
                    < old.page_counts().len() {
                    old.page_counts()[k]
                } else {
                    0int
                }) + if new.page_starts()[k] == frame_page(f as int) {
                    1int
                } else {
                    0int
                }
            &&& if old.free_frames().len() > 0 {
                &&& f == old.free_frames().last()
                &&& new.free_frames() == old.free_frames().drop_last()
                &&& new.page_starts() == old.page_starts()
                &&& new.initialized() == old.initialized()
                &&& nb == ob
            } else if old.initialized() < old.frames_per_page_view() {
                &&& f == frame_addr(
                    old.page_starts().last() as int,
                    old.initialized(),
                    old.spec_frame_size(),
                )
                &&& new.free_frames() == old.free_frames()
                &&& new.page_starts() == old.page_starts()
                &&& new.initialized() == old.initialized() + 1
                &&& nb == ob
            } else {
                &&& f == frame_addr(new.page_starts().last() as int, 0, old.spec_frame_size())
                &&& exists|num: usize|
                    #[trigger] level_allocated(ob, nb, 0, num, new.page_starts().last())
                &&& new.page_starts() == old.page_starts().push(new.page_starts().last())
                &&& new.free_frames() == old.free_frames()
                &&& new.initialized() == 1
            }
        },
    }
}

/// Giving back the frame at `ptr` leaves its page, an older page than the
/// newest, with no frame handed out: the page's free frames are then taken off
/// the stack.
pub open spec fn retires(s: SlabAllocator, ptr: u64) -> bool {
    exists|k: int|
        0 <= k < s.page_starts().len() - 1 && #[trigger] s.page_starts()[k] == frame_page(ptr as int)
            && s.page_counts()[k] == 1
}

/// `new` is `old` after the frame at `ptr` was given back: the frame is no
/// longer handed out, the count of its page drops by one, and the frame goes
/// on top of the stack, which loses the page's frames if the page retires.
pub open spec fn frame_released(old: SlabAllocator, new: SlabAllocator, ptr: u64) -> bool {
    &&& new.allocated_set() == old.allocated_set().remove(ptr)
    &&& new.page_starts() == old.page_starts()
    &&& new.initialized() == old.initialized()
    &&& exists|k: int|
        {
            &&& 0 <= k < old.page_starts().len()
            &&& #[trigger] old.page_starts()[k] == frame_page(ptr as int)
            &&& old.page_counts()[k] >= 1
            &&& new.page_counts() == old.page_counts().update(k, old.page_counts()[k] - 1)
        }
    &&& new.free_frames() == if retires(old, ptr) {
        without_page(old.free_frames().push(ptr), frame_page(ptr as int))
    } else {
        old.free_frames().push(ptr)
    }
}

/// A page the allocator cuts frames from.
struct Page {
    /// The page, owned.
    bbox: BuddyBox,
    /// The number of frames of this page that are handed out.
    cnt: usize,
    /// The indices of the frames of this page that are handed out.
    used: Ghost<Set<int>>,
}

impl Page {
    /// The address of the page.
    spec fn start(&self) -> u64 {
        self.bbox.spec_raw().pointer
    }

    /// The number of frames handed out from this page.
    fn allocated(&self) -> (r: usize)
        ensures
            r == self.cnt,
    {
        self.cnt
    }

    /// Counts frame `i` as handed out.
    fn inc(&mut self, Ghost(i): Ghost<int>)
        requires
            old(self).cnt < usize::MAX,
        ensures
            final(self).cnt == old(self).cnt + 1,
            final(self).used@ == old(self).used@.insert(i),
            final(self).bbox == old(self).bbox,
    {
        self.cnt = self.cnt + 1;
        self.used = Ghost(self.used@.insert(i));
    }

    /// Counts frame `i` as given back.
    fn dec(&mut self, Ghost(i): Ghost<int>)
        requires
            old(self).cnt > 0,
        ensures
            final(self).cnt == old(self).cnt - 1,
            final(self).used@ == old(self).used@.remove(i),
            final(self).bbox == old(self).bbox,
    {
        self.cnt = self.cnt - 1;
        self.used = Ghost(self.used@.remove(i));
    }

    /// The address of the page.
    fn ptr(&self) -> (r: u64)
        ensures
            r == self.start(),
    {
        self.bbox.get()
    }
}

/// An allocator of frames of one size. Once it has a page, it keeps its
/// newest page for good, so that a steady load does not reach the buddy
/// allocator at all.
pub struct SlabAllocator {
    frame_size: usize,
    /// The free frames; the last one is handed out first.
    frames: Vec<u64>,
    /// For each free frame, the page and the index of the frame on it.
    slots: Ghost<Seq<(int, int)>>,
    /// The pages, oldest first; only the newest may have frames not cut yet.
    pages: Vec<Page>,
    /// The number of frames cut from the newest page.
    last_page_initialized: usize,
}

impl SlabAllocator {
    /// The size of a frame.
    pub closed spec fn spec_frame_size(&self) -> int {
        self.frame_size as int
    }

    /// The free frames; the last one is handed out first.
    pub closed spec fn free_frames(&self) -> Seq<u64> {
        self.frames@
    }

    /// The addresses of the pages, oldest first.
    pub closed spec fn page_starts(&self) -> Seq<u64> {
        Seq::new(self.pages@.len(), |k: int| self.pages@[k].start())
    }

    /// For each page, the number of its frames that are handed out.
    pub closed spec fn page_counts(&self) -> Seq<int> {
        Seq::new(self.pages@.len(), |k: int| self.pages@[k].cnt as int)
    }

    /// The number of frames cut from the newest page.
    pub closed spec fn initialized(&self) -> int {
        self.last_page_initialized as int
    }

    /// The number of frames on a page.
    pub open spec fn frames_per_page_view(&self) -> int {
        frames_per_page_spec(self.spec_frame_size())
    }

    /// The frames handed out and not given back.
    pub closed spec fn allocated_set(&self) -> Set<u64> {
        Set::new(
            |f: u64|
                exists|k: int, i: int|
                    0 <= k < self.pages@.len() && #[trigger] self.pages@[k].used@.contains(i) && f
                        == frame_addr(self.pages@[k].start() as int, i, self.frame_size as int),
        )
    }

    /// Every page is a block that the buddy regions `bs` still count as allocated.
    pub closed spec fn holds(&self, bs: Seq<Single>) -> bool {
        forall|k: int|
            0 <= k < self.pages@.len() ==> {
                let raw = #[trigger] self.pages@[k].bbox.spec_raw();
                &&& raw.single_num < bs.len()
                &&& can_release(bs[raw.single_num as int], raw.pointer)
            }
    }

    /// The number of frames cut from page `k`.
    spec fn init_limit(&self, k: int) -> int {
        if k == self.pages@.len() - 1 {
            self.last_page_initialized as int
        } else {
            frames_per_page_spec(self.frame_size as int)
        }
    }

    /// Frame `s.1` of page `s.0` is cut, not handed out, and at address `f`.
    spec fn slot_free(&self, s: (int, int), f: u64) -> bool {
        &&& 0 <= s.0 < self.pages@.len()
        &&& 0 <= s.1 < self.init_limit(s.0)
        &&& !self.pages@[s.0].used@.contains(s.1)
        &&& f == frame_addr(self.pages@[s.0].start() as int, s.1, self.frame_size as int)
    }

    spec fn wf_pages(&self) -> bool {
        &&& forall|k: int|
            0 <= k < self.pages@.len() ==> {
                let p = #[trigger] self.pages@[k];
                &&& p.start() % (PAGE_SIZE as u64) == 0
                &&& p.start() + PAGE_SIZE <= u64::MAX
                &&& p.used@.finite()
                &&& p.cnt == p.used@.len()
                &&& forall|i: int| p.used@.contains(i) ==> 0 <= i < self.init_limit(k)
            }
        &&& forall|j: int, k: int|
            #![trigger self.pages@[j], self.pages@[k]]
            0 <= j < k < self.pages@.len() ==> self.pages@[j].start() != self.pages@[k].start()
    }

    spec fn wf_frames(&self) -> bool {
        &&& self.slots@.len() == self.frames@.len()
        &&& forall|t: int| 0 <= t < self.frames@.len() ==> self.slot_free(#[trigger] self.slots@[t], self.frames@[t])
        &&& forall|t1: int, t2: int|
            #![trigger self.slots@[t1], self.slots@[t2]]
            0 <= t1 < t2 < self.slots@.len() ==> self.slots@[t1] != self.slots@[t2]
    }

    /// The allocator's bookkeeping is consistent: its pages are aligned and
    /// distinct, their counts match the frames handed out, and each free frame
    /// is a cut frame of one of them that is not handed out, listed once.
    pub closed spec fn wf(&self) -> bool {
        &&& valid_frame_size(self.frame_size as int)
        &&& self.pages@.len() == 0 ==> self.last_page_initialized >= frames_per_page_spec(self.frame_size as int)
        &&& self.pages@.len() > 0 ==> self.last_page_initialized <= frames_per_page_spec(self.frame_size as int)
        &&& self.wf_pages()
        &&& self.wf_frames()
    }
}

impl SlabAllocator {
    /// An allocator of frames of `frame_size` bytes, with no page yet. The
    /// size is not checked: `check_size` tells whether it is usable.
    pub fn new_unchecked(frame_size: usize) -> (r: SlabAllocator)
        ensures
            r.spec_frame_size() == frame_size,
            r.free_frames() == Seq::<u64>::empty(),
            r.page_starts() == Seq::<u64>::empty(),
            r.initialized() == usize::MAX,
            r.allocated_set() == Set::<u64>::empty(),
            forall|bs: Seq<Single>| r.holds(bs),
            valid_frame_size(frame_size as int) ==> r.wf(),
    {
        let r = SlabAllocator {
            frame_size: frame_size,
            frames: Vec::new(),
            slots: Ghost(Seq::empty()),
            pages: Vec::new(),
            last_page_initialized: usize::MAX,
        };
        proof {
            assert(r.page_starts() =~= Seq::<u64>::empty());
            assert(r.allocated_set() =~= Set::<u64>::empty());
            if valid_frame_size(frame_size as int) {
                lemma_frames_per_page(frame_size as int);
            }
        }
        r
    }

    /// An allocator of frames of `frame_size` bytes, with no page yet.
    pub fn new(frame_size: usize) -> (r: SlabAllocator)
        requires
            valid_frame_size(frame_size as int),
        ensures
            r.wf(),
            r.spec_frame_size() == frame_size,
            r.free_frames() == Seq::<u64>::empty(),
            r.page_starts() == Seq::<u64>::empty(),
            r.allocated_set() == Set::<u64>::empty(),
            forall|bs: Seq<Single>| r.holds(bs),
    {
        Self::new_unchecked(frame_size)
    }

    /// Holds for an allocator made with a usable frame size (the only kind it
    /// accepts): the check passes and nothing changes.
    pub fn check_correctness(&self)
        requires
            valid_frame_size(self.spec_frame_size()),
    {
        let ok = Self::check_size(self.frame_size);
        assert(ok);
    }

    /// Whether `frame_size` lies within the limits and keeps frames aligned.
    pub fn check_size(frame_size: usize) -> (r: bool)
        ensures
            r == valid_frame_size(frame_size as int),
    {
        frame_size <= MAX_FRAME_SIZE && frame_size >= MIN_FRAME_SIZE && frame_size % 8 == 0
    }

    /// The number of frames on a page.
    fn frames_per_page(&self) -> (r: usize)
        requires
            self.wf(),
        ensures
            r == self.frames_per_page_view(),
    {
        (PAGE_SIZE - PAGE_NODE_BYTES) / self.frame_size
    }

    /// The index of the page that holds the address `ptr`.
    fn get_page_index(&self, ptr: u64) -> (k: usize)
        requires
            self.wf(),
            exists|j: int| 0 <= j < self.pages@.len() && self.pages@[j].start() == frame_page(ptr as int),
        ensures
            k < self.pages@.len(),
            self.pages@[k as int].start() == frame_page(ptr as int),
    {
        let page = round_down(ptr, PAGE_SIZE as u64);
        proof {
            crate::utility::lemma_round_down_facts(ptr as int, PAGE_SIZE as int);
        }
        let mut k: usize = 0;
        while k < self.pages.len()
            invariant
                self.wf(),
                page == frame_page(ptr as int),
                k <= self.pages@.len(),
                forall|j: int| 0 <= j < k ==> #[trigger] self.pages@[j].start() != page,
            decreases self.pages@.len() - k,
        {
            if self.pages[k].ptr() == page {
                return k;
            }
            k += 1;
        }
        proof {
            let j = choose|j: int| 0 <= j < self.pages@.len() && self.pages@[j].start() == frame_page(ptr as int);
            assert(self.pages@[j].start() != page);
        }
        0
    }

    /// Where a frame handed out lies: frame `i` of page `k`, which ends within the page.
    proof fn lemma_allocated_frame(&self, f: u64) -> (ki: (int, int))
        requires
            self.wf(),
            self.allocated_set().contains(f),
        ensures
            0 <= ki.0 < self.pages@.len(),
            self.pages@[ki.0].used@.contains(ki.1),
            0 <= ki.1 < frames_per_page_spec(self.frame_size as int),
            f == frame_addr(self.pages@[ki.0].start() as int, ki.1, self.frame_size as int),
            frame_page(f as int) == self.pages@[ki.0].start(),
            self.pages@[ki.0].start() + PAGE_NODE_BYTES <= f,
            f + self.frame_size <= self.pages@[ki.0].start() + PAGE_SIZE,
    {
        let (k, i) = choose|k: int, i: int|
            0 <= k < self.pages@.len() && #[trigger] self.pages@[k].used@.contains(i) && f
                == frame_addr(self.pages@[k].start() as int, i, self.frame_size as int);
        let p = self.pages@[k];
        assert(0 <= i < self.init_limit(k));
        lemma_frame(p.start() as int, i, self.frame_size as int);
        (k, i)
    }

    /// Frames handed out do not overlap: two of them lie a whole frame apart.
    pub proof fn lemma_allocated_disjoint(&self, a: u64, b: u64)
        requires
            self.wf(),
            self.allocated_set().contains(a),
            self.allocated_set().contains(b),
            a != b,
        ensures
            a + self.spec_frame_size() <= b || b + self.spec_frame_size() <= a,
    {
        let (ka, ia) = self.lemma_allocated_frame(a);
        let (kb, ib) = self.lemma_allocated_frame(b);
        if ka == kb {
            lemma_frames_apart(self.pages@[ka].start() as int, ia, ib, self.frame_size as int);
        } else {
            let (lo, hi) = if ka < kb { (ka, kb) } else { (kb, ka) };
            assert(self.pages@[lo].start() != self.pages@[hi].start());
            assert(self.pages@[ka].start() % (PAGE_SIZE as u64) == 0);
            assert(self.pages@[kb].start() % (PAGE_SIZE as u64) == 0);
            lemma_pages_apart(self.pages@[ka].start() as int, self.pages@[kb].start() as int);
        }
    }

    /// A frame handed out lies within one of the allocator's pages, after the
    /// page's record.
    pub proof fn lemma_allocated_within(&self, f: u64)
        requires
            self.wf(),
            self.allocated_set().contains(f),
        ensures
            self.page_starts().contains(frame_page(f as int) as u64),
            frame_page(f as int) + PAGE_NODE_BYTES <= f,
            f + self.spec_frame_size() <= frame_page(f as int) + PAGE_SIZE,
            f % 8 == 0,
    {
        let (k, i) = self.lemma_allocated_frame(f);
        assert(self.pages@[k].start() % (PAGE_SIZE as u64) == 0);
        lemma_frame(self.pages@[k].start() as int, i, self.frame_size as int);
        assert(self.page_starts()[k] == frame_page(f as int));
    }
}

impl SlabAllocator {
    /// Puts the frame at `ptr`, frame `slot.1` of page `slot.0`, on the stack.
    fn add_node(&mut self, ptr: u64, Ghost(slot): Ghost<(int, int)>)
        ensures
            final(self).frames@ == old(self).frames@.push(ptr),
            final(self).slots@ == old(self).slots@.push(slot),
            final(self).pages@ == old(self).pages@,
            final(self).frame_size == old(self).frame_size,
            final(self).last_page_initialized == old(self).last_page_initialized,
    {
        self.frames.push(ptr);
        self.slots = Ghost(self.slots@.push(slot));
    }

    /// Cuts the next frame of the newest page and puts it on the stack.
    fn initialize_node(&mut self)
        requires
            old(self).wf(),
            old(self).pages@.len() > 0,
            old(self).last_page_initialized < frames_per_page_spec(old(self).frame_size as int),
        ensures
            final(self).wf(),
            final(self).frame_size == old(self).frame_size,
            final(self).pages@ == old(self).pages@,
            final(self).last_page_initialized == old(self).last_page_initialized + 1,
            final(self).frames@ == old(self).frames@.push(
                frame_addr(
                    old(self).pages@.last().start() as int,
                    old(self).last_page_initialized as int,
                    old(self).frame_size as int,
                ) as u64,
            ),
    {
        let n = self.pages.len();
        let page_begin = self.pages[n - 1].ptr();
        let ghost lpi = self.last_page_initialized as int;
        let ghost fs = self.frame_size as int;
        proof {
            assert(self.pages@[n - 1].start() % (PAGE_SIZE as u64) == 0);
            lemma_frame(page_begin as int, lpi, fs);
            lemma_frames_per_page(fs);
            assert(fs * lpi < PAGE_SIZE) by (nonlinear_arith)
                requires
                    0 <= lpi,
                    lpi * fs + fs <= (PAGE_SIZE - PAGE_NODE_BYTES) as int,
                    fs > 0,
            ;
        }
        let offset = PAGE_NODE_BYTES + self.frame_size * self.last_page_initialized;
        let ptr = page_begin + offset as u64;
        let ghost old_self = *self;
        self.add_node(ptr, Ghost(((n - 1) as int, lpi)));
        self.last_page_initialized = self.last_page_initialized + 1;
        proof {
            assert forall|k: int| 0 <= k < self.pages@.len() implies old_self.init_limit(k) <= self.init_limit(k) by {}
            assert forall|t: int| 0 <= t < self.frames@.len() implies self.slot_free(#[trigger] self.slots@[t], self.frames@[t]) by {
                if t < old_self.frames@.len() {
                    assert(old_self.slot_free(old_self.slots@[t], old_self.frames@[t]));
                }
            }
            assert forall|t1: int, t2: int|
                #![trigger self.slots@[t1], self.slots@[t2]]
                0 <= t1 < t2 < self.slots@.len() implies self.slots@[t1] != self.slots@[t2] by {
                if t2 == self.slots@.len() - 1 {
                    assert(old_self.slot_free(old_self.slots@[t1], old_self.frames@[t1]));
                }
            }
            assert(self.wf_pages());
        }
    }

    /// Takes a fresh page from the buddy allocator and makes it the newest page.
    fn allocate_page(&mut self, buddy: &mut BuddyAllocator) -> (r: Option<()>)
        requires
            old(self).wf(),
            old(buddy).wf(),
            old(self).holds(old(buddy)@),
            old(self).last_page_initialized >= frames_per_page_spec(old(self).frame_size as int),
        ensures
            final(buddy).wf(),
            final(buddy)@.len() == old(buddy)@.len(),
            match r {
                None => {
                    &&& *final(self) == *old(self)
                    &&& final(buddy)@ == old(buddy)@
                    &&& none_free_from(old(buddy)@, 0)
                },
                Some(_) => {
                    &&& final(self).wf()
                    &&& final(self).holds(final(buddy)@)
                    &&& final(self).frame_size == old(self).frame_size
                    &&& final(self).frames@ == old(self).frames@
                    &&& final(self).pages@.len() == old(self).pages@.len() + 1
                    &&& forall|k: int| 0 <= k < old(self).pages@.len() ==> final(self).pages@[k] == old(self).pages@[k]
                    &&& final(self).pages@.last().cnt == 0
                    &&& final(self).last_page_initialized == 0
                    &&& level_allocated(
                        old(buddy)@,
                        final(buddy)@,
                        0,
                        final(self).pages@.last().bbox.spec_raw().single_num,
                        final(self).pages@.last().start(),
                    )
                },
            },
    {
        let bbox = match buddy.allocate_level(0) {
            Some(b) => b,
            None => {
                return None;
            },
        };
        let ghost raw = bbox.spec_raw();
        proof {
            lemma_allocated_block(*old(buddy), *buddy, 0, raw.single_num, raw.pointer);
            lemma_frames_per_page(self.frame_size as int);
        }
        let ghost old_self = *self;
        self.pages.push(Page { bbox: bbox, cnt: 0, used: Ghost(Set::empty()) });
        self.last_page_initialized = 0;
        proof {
            let n = old_self.pages@.len();
            assert(self.pages@[n as int].start() == raw.pointer);
            assert forall|k: int| 0 <= k < n implies #[trigger] self.pages@[k].start() != raw.pointer by {
                assert(old_self.pages@[k] == self.pages@[k]);
                let rk = old_self.pages@[k].bbox.spec_raw();
                assert(rk.single_num < old(buddy)@.len() && can_release(old(buddy)@[rk.single_num as int], rk.pointer));
            }
            assert forall|k: int| 0 <= k < n implies old_self.init_limit(k) <= self.init_limit(k) by {}
            assert forall|k: int| 0 <= k < self.pages@.len() implies {
                let p = #[trigger] self.pages@[k];
                &&& p.start() % (PAGE_SIZE as u64) == 0
                &&& p.start() + PAGE_SIZE <= u64::MAX
                &&& p.used@.finite()
                &&& p.cnt == p.used@.len()
                &&& forall|i: int| p.used@.contains(i) ==> 0 <= i < self.init_limit(k)
            } by {
                if k < n {
                    assert(old_self.pages@[k] == self.pages@[k]);
                }
            }
            assert forall|j: int, k: int|
                #![trigger self.pages@[j], self.pages@[k]]
                0 <= j < k < self.pages@.len() implies self.pages@[j].start() != self.pages@[k].start() by {
                if k < n {
                    assert(old_self.pages@[j].start() != old_self.pages@[k].start());
                }
            }
            assert forall|t: int| 0 <= t < self.frames@.len() implies self.slot_free(#[trigger] self.slots@[t], self.frames@[t]) by {
                assert(old_self.slot_free(old_self.slots@[t], old_self.frames@[t]));
            }
            assert forall|k: int| 0 <= k < self.pages@.len() implies {
                let raw = #[trigger] self.pages@[k].bbox.spec_raw();
                &&& raw.single_num < buddy@.len()
                &&& can_release(buddy@[raw.single_num as int], raw.pointer)
            } by {
                if k < n {
                    let rk = old_self.pages@[k].bbox.spec_raw();
                    assert(rk.single_num < old(buddy)@.len() && can_release(old(buddy)@[rk.single_num as int], rk.pointer));
                }
            }
        }
        Some(())
    }

    /// Takes the frame on top of the stack and counts it as handed out.
    fn take_frame(&mut self) -> (f: u64)
        requires
            old(self).wf(),
            old(self).frames@.len() > 0,
        ensures
            final(self).wf(),
            f == old(self).frames@.last(),
            !old(self).allocated_set().contains(f),
            final(self).allocated_set() == old(self).allocated_set().insert(f),
            final(self).frames@ == old(self).frames@.drop_last(),
            final(self).frame_size == old(self).frame_size,
            final(self).last_page_initialized == old(self).last_page_initialized,
            final(self).page_starts() == old(self).page_starts(),
            final(self).page_counts().len() == old(self).page_counts().len(),
            forall|k: int|
                0 <= k < old(self).pages@.len() ==> #[trigger] final(self).page_counts()[k] == old(self).page_counts()[k]
                    + if old(self).page_starts()[k] == frame_page(f as int) { 1int } else { 0int },
            forall|k: int| 0 <= k < old(self).pages@.len() ==> #[trigger] final(self).pages@[k].bbox == old(self).pages@[k].bbox,
    {
        let ghost old_self = *self;
        let ghost fs = self.frame_size as int;
        let ghost slot = self.slots@.last();
        let ghost t = self.frames@.len() - 1;
        proof {
            assert(self.slot_free(self.slots@[t], self.frames@[t]));
            lemma_frames_per_page(fs);
            lemma_frame(self.pages@[slot.0].start() as int, slot.1, fs);
        }
        let f = match self.frames.pop() {
            Some(x) => x,
            None => {
                return 0;
            },
        };
        self.slots = Ghost(self.slots@.drop_last());
        assert(self.pages@[slot.0].start() == frame_page(f as int));
        let k = self.get_page_index(f);
        proof {
            let j = slot.0;
            if j != k {
                if j < k {
                    assert(self.pages@[j].start() != self.pages@[k as int].start());
                } else {
                    assert(self.pages@[k as int].start() != self.pages@[j].start());
                }
            }
            assert(j == k);
            let used = self.pages@[j].used@;
            let lim = frames_per_page_spec(fs);
            lemma_int_range(0, lim);
            assert(used.insert(slot.1).subset_of(set_int_range(0, lim)));
            lemma_len_subset(used.insert(slot.1), set_int_range(0, lim));
        }
        self.pages[k].inc(Ghost(slot.1));
        proof {
            let kk = k as int;
            let i = slot.1;
            assert forall|j: int| 0 <= j < self.pages@.len() && j != kk implies #[trigger] self.pages@[j] == old_self.pages@[j] by {}
            assert(self.page_starts() =~= old_self.page_starts());
            assert forall|j: int| 0 <= j < old_self.pages@.len() implies #[trigger] self.page_counts()[j] == old_self.page_counts()[j]
                + if old_self.page_starts()[j] == frame_page(f as int) { 1int } else { 0int } by {
                if j != kk {
                    if j < kk {
                        assert(old_self.pages@[j].start() != old_self.pages@[kk].start());
                    } else {
                        assert(old_self.pages@[kk].start() != old_self.pages@[j].start());
                    }
                }
            }
            assert forall|t1: int| 0 <= t1 < self.frames@.len() implies self.slot_free(#[trigger] self.slots@[t1], self.frames@[t1]) by {
                assert(old_self.slot_free(old_self.slots@[t1], old_self.frames@[t1]));
                assert(old_self.slots@[t1] != old_self.slots@[t]);
            }
            assert forall|t1: int, t2: int|
                #![trigger self.slots@[t1], self.slots@[t2]]
                0 <= t1 < t2 < self.slots@.len() implies self.slots@[t1] != self.slots@[t2] by {
                assert(old_self.slots@[t1] != old_self.slots@[t2]);
            }
            assert(self.wf_pages());
            // the frame was not handed out before
            if old_self.allocated_set().contains(f) {
                let (k2, i2) = old_self.lemma_allocated_frame(f);
                if k2 != kk {
                    if k2 < kk {
                        assert(old_self.pages@[k2].start() != old_self.pages@[kk].start());
                    } else {
                        assert(old_self.pages@[kk].start() != old_self.pages@[k2].start());
                    }
                }
                if i2 != i {
                    lemma_frames_apart(old_self.pages@[kk].start() as int, i, i2, fs);
                }
                assert(false);
            }
            assert forall|x: u64| self.allocated_set().contains(x) <==> old_self.allocated_set().insert(f).contains(x) by {
                if self.allocated_set().contains(x) {
                    let (k2, i2) = choose|k2: int, i2: int|
                        0 <= k2 < self.pages@.len() && #[trigger] self.pages@[k2].used@.contains(i2) && x
                            == frame_addr(self.pages@[k2].start() as int, i2, fs);
                    if !(k2 == kk && i2 == i) {
                        assert(old_self.pages@[k2].used@.contains(i2));
                    }
                }
                if old_self.allocated_set().contains(x) {
                    let (k2, i2) = choose|k2: int, i2: int|
                        0 <= k2 < old_self.pages@.len() && #[trigger] old_self.pages@[k2].used@.contains(i2) && x
                            == frame_addr(old_self.pages@[k2].start() as int, i2, fs);
                    assert(self.pages@[k2].used@.contains(i2));
                }
                if x == f {
                    assert(self.pages@[kk].used@.contains(i));
                }
            }
            assert(self.allocated_set() =~= old_self.allocated_set().insert(f));
        }
        f
    }
}

impl SlabAllocator {
    /// Hands out a frame: the most recently freed one if there is one; else the
    /// next frame of the newest page; else the first frame of a fresh page
    /// taken from `buddy`. `None` when a fresh page is needed and `buddy` has
    /// no free page.
    pub fn allocate(&mut self, buddy: &mut BuddyAllocator) -> (r: Option<u64>)
        requires
            old(self).wf(),
            old(buddy).wf(),
            old(self).holds(old(buddy)@),
        ensures
            final(self).wf(),
            final(buddy).wf(),
            final(self).holds(final(buddy)@),
            final(self).spec_frame_size() == old(self).spec_frame_size(),
            final(self).page_counts().len() == final(self).page_starts().len(),
            frame_taken(*old(self), *final(self), old(buddy)@, final(buddy)@, r),
    {
        let ghost s0 = *self;
        let ghost fs = self.frame_size as int;
        if self.frames.len() == 0 {
            if self.last_page_initialized >= self.frames_per_page() {
                match self.allocate_page(buddy) {
                    Some(_) => {},
                    None => {
                        return None;
                    },
                }
            }
            proof {
                lemma_frames_per_page(fs);
            }
            let ghost s1 = *self;
            self.initialize_node();
            let ghost s2 = *self;
            let f = self.take_frame();
            proof {
                assert(s2.frames@.last() == f);
                let n1 = s1.pages@.len() - 1;
                assert(s1.page_starts()[n1] == s1.pages@[n1].start());
                assert(s1.pages@[n1].start() % (PAGE_SIZE as u64) == 0);
                lemma_frame(s1.pages@[n1].start() as int, s1.last_page_initialized as int, fs);
                assert forall|k: int| 0 <= k < self.pages@.len() implies #[trigger] self.pages@[k].bbox == s1.pages@[k].bbox by {
                    assert(s2.pages@[k] == s1.pages@[k]);
                }
                assert(self.page_starts() =~= s1.page_starts());
                assert forall|k: int| 0 <= k < s1.pages@.len() implies #[trigger] s1.page_counts()[k] == (if k
                    < s0.page_counts().len() {
                    s0.page_counts()[k]
                } else {
                    0int
                }) by {
                    if k < s0.pages@.len() && s1.pages@.len() > s0.pages@.len() {
                        assert(s1.pages@[k] == s0.pages@[k]);
                    }
                }
                assert(s2.page_counts() =~= s1.page_counts());
                assert(self.free_frames() =~= s0.free_frames());
                assert forall|x: u64| s1.allocated_set().contains(x) <==> s0.allocated_set().contains(x) by {
                    if s1.allocated_set().contains(x) {
                        let (k2, i2) = choose|k2: int, i2: int|
                            0 <= k2 < s1.pages@.len() && #[trigger] s1.pages@[k2].used@.contains(i2) && x
                                == frame_addr(s1.pages@[k2].start() as int, i2, fs);
                        if s1.pages@.len() > s0.pages@.len() {
                            assert(k2 < s0.pages@.len());
                            assert(s1.pages@[k2] == s0.pages@[k2]);
                        }
                        assert(s0.pages@[k2].used@.contains(i2));
                    }
                    if s0.allocated_set().contains(x) {
                        let (k2, i2) = choose|k2: int, i2: int|
                            0 <= k2 < s0.pages@.len() && #[trigger] s0.pages@[k2].used@.contains(i2) && x
                                == frame_addr(s0.pages@[k2].start() as int, i2, fs);
                        if s1.pages@.len() > s0.pages@.len() {
                            assert(s1.pages@[k2] == s0.pages@[k2]);
                        }
                        assert(s1.pages@[k2].used@.contains(i2));
                    }
                }
                assert(s1.allocated_set() =~= s0.allocated_set());
                assert forall|x: u64| s2.allocated_set().contains(x) <==> s1.allocated_set().contains(x) by {
                    if s2.allocated_set().contains(x) {
                        let (k2, i2) = choose|k2: int, i2: int|
                            0 <= k2 < s2.pages@.len() && #[trigger] s2.pages@[k2].used@.contains(i2) && x
                                == frame_addr(s2.pages@[k2].start() as int, i2, fs);
                        assert(s1.pages@[k2].used@.contains(i2));
                    }
                    if s1.allocated_set().contains(x) {
                        let (k2, i2) = choose|k2: int, i2: int|
                            0 <= k2 < s1.pages@.len() && #[trigger] s1.pages@[k2].used@.contains(i2) && x
                                == frame_addr(s1.pages@[k2].start() as int, i2, fs);
                        assert(s2.pages@[k2].used@.contains(i2));
                    }
                }
                assert(s2.allocated_set() =~= s1.allocated_set());
                if s1.pages@.len() > s0.pages@.len() {
                    assert(s0.page_starts().push(s1.page_starts().last()) =~= s1.page_starts());
                    let raw = s1.pages@.last().bbox.spec_raw();
                    assert(level_allocated(old(buddy)@, buddy@, 0, raw.single_num, self.page_starts().last()));
                }
                assert forall|k: int| 0 <= k < self.pages@.len() implies {
                    let raw = #[trigger] self.pages@[k].bbox.spec_raw();
                    &&& raw.single_num < buddy@.len()
                    &&& can_release(buddy@[raw.single_num as int], raw.pointer)
                } by {
                    assert(s1.pages@[k].bbox.spec_raw() == self.pages@[k].bbox.spec_raw());
                    if s1.pages@.len() == s0.pages@.len() {
                        assert(s1.pages@[k] == s0.pages@[k]);
                    }
                }
            }
            Some(f)
        } else {
            proof {
                let t = s0.frames@.len() - 1;
                let sl = s0.slots@[t];
                assert(s0.slot_free(sl, s0.frames@[t]));
                assert(s0.pages@[sl.0].start() % (PAGE_SIZE as u64) == 0);
                lemma_frames_per_page(fs);
                lemma_frame(s0.pages@[sl.0].start() as int, sl.1, fs);
            }
            let f = self.take_frame();
            proof {
                assert forall|k: int| 0 <= k < self.pages@.len() implies {
                    let raw = #[trigger] self.pages@[k].bbox.spec_raw();
                    &&& raw.single_num < buddy@.len()
                    &&& can_release(buddy@[raw.single_num as int], raw.pointer)
                } by {
                    assert(s0.pages@[k].bbox.spec_raw() == self.pages@[k].bbox.spec_raw());
                }
            }
            Some(f)
        }
    }
}

impl SlabAllocator {
    /// Takes the free frames that lie on the page at `page` off the stack.
    fn remove_page_frames(&mut self, page: u64)
        requires
            old(self).wf(),
        ensures
            final(self).wf(),
            final(self).frames@ == without_page(old(self).frames@, page as int),
            final(self).pages@ == old(self).pages@,
            final(self).frame_size == old(self).frame_size,
            final(self).last_page_initialized == old(self).last_page_initialized,
    {
        let mut out: Vec<u64> = Vec::new();
        let ghost mut out_slots: Seq<(int, int)> = Seq::empty();
        // the position on the stack each kept frame comes from
        let ghost mut src: Seq<int> = Seq::empty();
        let mut t: usize = 0;
        while t < self.frames.len()
            invariant
                self.wf(),
                t <= self.frames@.len(),
                out@ == without_page(self.frames@.subrange(0, t as int), page as int),
                out_slots.len() == out@.len(),
                src.len() == out@.len(),
                forall|u: int| 0 <= u < out@.len() ==> self.slot_free(#[trigger] out_slots[u], out@[u]),
                forall|u: int| 0 <= u < src.len() ==> 0 <= #[trigger] src[u] < t && self.slots@[src[u]] == out_slots[u],
                forall|u1: int, u2: int|
                    #![trigger src[u1], src[u2]]
                    0 <= u1 < u2 < src.len() ==> src[u1] < src[u2],
            decreases self.frames@.len() - t,
        {
            let f = self.frames[t];
            let p = round_down(f, PAGE_SIZE as u64);
            proof {
                let sub = self.frames@.subrange(0, t as int + 1);
                assert(sub.drop_last() =~= self.frames@.subrange(0, t as int));
                assert(sub.last() == f);
            }
            if p != page {
                let ghost slot = self.slots@[t as int];
                proof {
                    assert(self.slot_free(self.slots@[t as int], self.frames@[t as int]));
                }
                out.push(f);
                proof {
                    out_slots = out_slots.push(slot);
                    src = src.push(t as int);
                }
            }
            t += 1;
        }
        proof {
            assert(self.frames@.subrange(0, self.frames@.len() as int) =~= self.frames@);
            assert forall|u1: int, u2: int|
                #![trigger out_slots[u1], out_slots[u2]]
                0 <= u1 < u2 < out_slots.len() implies out_slots[u1] != out_slots[u2] by {
                assert(src[u1] < src[u2]);
                assert(self.slots@[src[u1]] != self.slots@[src[u2]]);
            }
        }
        self.frames = out;
        self.slots = Ghost(out_slots);
    }

    /// Takes back the frame at `ptr`: it goes on top of the stack. When that
    /// leaves its page with no frame handed out, and the page is not the
    /// newest, the free frames of the page are taken off the stack for good.
    pub fn deallocate(&mut self, ptr: u64)
        requires
            old(self).wf(),
            old(self).allocated_set().contains(ptr),
        ensures
            final(self).wf(),
            forall|bs: Seq<Single>| old(self).holds(bs) ==> final(self).holds(bs),
            final(self).spec_frame_size() == old(self).spec_frame_size(),
            frame_released(*old(self), *final(self), ptr),
    {
        let ghost s0 = *self;
        let ghost fs = self.frame_size as int;
        let ghost ki = self.lemma_allocated_frame(ptr);
        let k = self.get_page_index(ptr);
        proof {
            let kk = k as int;
            if ki.0 != kk {
                if ki.0 < kk {
                    assert(self.pages@[ki.0].start() != self.pages@[kk].start());
                } else {
                    assert(self.pages@[kk].start() != self.pages@[ki.0].start());
                }
            }
            assert(self.pages@[kk].used@.contains(ki.1));
            assert(self.pages@[kk].used@.len() > 0) by {
                vstd::set::axiom_set_contains_len(self.pages@[kk].used@, ki.1);
            }
        }
        self.pages[k].dec(Ghost(ki.1));
        self.add_node(ptr, Ghost((k as int, ki.1)));
        let ghost s1 = *self;
        proof {
            let kk = k as int;
            let i = ki.1;
            assert forall|j: int| 0 <= j < self.pages@.len() && j != kk implies #[trigger] self.pages@[j] == s0.pages@[j] by {}
            assert forall|t1: int| 0 <= t1 < self.frames@.len() implies self.slot_free(#[trigger] self.slots@[t1], self.frames@[t1]) by {
                if t1 < s0.frames@.len() {
                    assert(s0.slot_free(s0.slots@[t1], s0.frames@[t1]));
                }
            }
            assert forall|t1: int, t2: int|
                #![trigger self.slots@[t1], self.slots@[t2]]
                0 <= t1 < t2 < self.slots@.len() implies self.slots@[t1] != self.slots@[t2] by {
                if t2 < s0.slots@.len() {
                    assert(s0.slots@[t1] != s0.slots@[t2]);
                } else {
                    assert(s0.slot_free(s0.slots@[t1], s0.frames@[t1]));
                }
            }
            assert(self.wf_pages());
            assert(self.page_starts() =~= s0.page_starts());
            assert(self.page_counts() =~= s0.page_counts().update(kk, s0.page_counts()[kk] - 1));
            assert forall|x: u64| self.allocated_set().contains(x) <==> s0.allocated_set().remove(ptr).contains(x) by {
                if self.allocated_set().contains(x) {
                    let (k2, i2) = choose|k2: int, i2: int|
                        0 <= k2 < self.pages@.len() && #[trigger] self.pages@[k2].used@.contains(i2) && x
                            == frame_addr(self.pages@[k2].start() as int, i2, fs);
                    assert(s0.pages@[k2].used@.contains(i2));
                    assert(0 <= i2 < s0.init_limit(k2));
                    lemma_frame(s0.pages@[k2].start() as int, i2, fs);
                    if x == ptr {
                        if k2 != kk {
                            if k2 < kk {
                                assert(s0.pages@[k2].start() != s0.pages@[kk].start());
                            } else {
                                assert(s0.pages@[kk].start() != s0.pages@[k2].start());
                            }
                        }
                        if i2 != i {
                            lemma_frames_apart(s0.pages@[kk].start() as int, i, i2, fs);
                        }
                        assert(false);
                    }
                }
                if s0.allocated_set().remove(ptr).contains(x) {
                    let (k2, i2) = choose|k2: int, i2: int|
                        0 <= k2 < s0.pages@.len() && #[trigger] s0.pages@[k2].used@.contains(i2) && x
                            == frame_addr(s0.pages@[k2].start() as int, i2, fs);
                    assert(self.pages@[k2].used@.contains(i2));
                }
            }
            assert(self.allocated_set() =~= s0.allocated_set().remove(ptr));
        }
        let n = self.pages.len();
        if self.pages[k].allocated() == 0 && k != n - 1 {
            let page_start = self.pages[k].ptr();
            self.remove_page_frames(page_start);
            proof {
                assert(self.allocated_set() =~= s1.allocated_set());
                assert(self.page_counts() =~= s1.page_counts());
                assert(self.page_starts() =~= s1.page_starts());
            }
        }
        proof {
            let kk = k as int;
            assert(s0.page_starts()[kk] == frame_page(ptr as int));
            assert(s0.page_counts()[kk] == s0.pages@[kk].cnt);
            assert(self.page_counts() =~= s0.page_counts().update(kk, s0.page_counts()[kk] - 1));
            if retires(s0, ptr) {
                let k2 = choose|k2: int|
                    0 <= k2 < s0.page_starts().len() - 1 && #[trigger] s0.page_starts()[k2] == frame_page(ptr as int)
                        && s0.page_counts()[k2] == 1;
                if k2 != kk {
                    if k2 < kk {
                        assert(s0.pages@[k2].start() != s0.pages@[kk].start());
                    } else {
                        assert(s0.pages@[kk].start() != s0.pages@[k2].start());
                    }
                }
            }
            if s0.pages@[kk].cnt == 1 && kk != s0.pages@.len() - 1 {
                assert(retires(s0, ptr));
            }
            assert forall|bs: Seq<Single>| s0.holds(bs) implies self.holds(bs) by {
                assert forall|j: int| 0 <= j < self.pages@.len() implies {
                    let raw = #[trigger] self.pages@[j].bbox.spec_raw();
                    &&& raw.single_num < bs.len()
                    &&& can_release(bs[raw.single_num as int], raw.pointer)
                } by {
                    assert(self.pages@[j].bbox == s0.pages@[j].bbox);
                }
            }
        }
    }
}

impl SlabAllocator {
    /// The pages are distinct.
    pub proof fn lemma_page_starts_distinct(&self)
        requires
            self.wf(),
        ensures
            self.page_counts().len() == self.page_starts().len(),
            forall|j: int, k: int|
                0 <= j < self.page_starts().len() && 0 <= k < self.page_starts().len() && j != k
                    ==> #[trigger] self.page_starts()[j] != #[trigger] self.page_starts()[k],
    {
        assert forall|j: int, k: int|
            0 <= j < self.page_starts().len() && 0 <= k < self.page_starts().len() && j != k
                implies #[trigger] self.page_starts()[j] != #[trigger] self.page_starts()[k] by {
            if j < k {
                assert(self.pages@[j].start() != self.pages@[k].start());
            } else {
                assert(self.pages@[k].start() != self.pages@[j].start());
            }
        }
    }

    /// The count of a page is the number of its frames that are handed out.
    pub proof fn lemma_count_is_allocated_frames(&self, k: int)
        requires
            self.wf(),
            0 <= k < self.page_starts().len(),
        ensures
            self.allocated_set().filter(|f: u64| frame_page(f as int) == self.page_starts()[k]).finite(),
            self.page_counts()[k] == self.allocated_set().filter(
                |f: u64| frame_page(f as int) == self.page_starts()[k],
            ).len(),
    {
        let fs = self.frame_size as int;
        let p = self.pages@[k];
        let start = p.start();
        let on_page = self.allocated_set().filter(|f: u64| frame_page(f as int) == self.page_starts()[k]);
        let addr = |i: int| frame_addr(start as int, i, fs) as u64;
        lemma_frames_per_page(fs);
        assert forall|i: int| p.used@.contains(i) implies 0 <= i < frames_per_page_spec(fs) && frame_page(
            frame_addr(start as int, i, fs),
        ) == start && frame_addr(start as int, i, fs) <= u64::MAX by {
            assert(0 <= i < self.init_limit(k));
            lemma_frame(start as int, i, fs);
        }
        assert(vstd::relations::injective_on(addr, p.used@)) by {
            assert forall|i1: int, i2: int|
                p.used@.contains(i1) && p.used@.contains(i2) && #[trigger] addr(i1) == #[trigger] addr(i2) implies i1 == i2 by {
                if i1 != i2 {
                    lemma_frames_apart(start as int, i1, i2, fs);
                }
            }
        }
        assert forall|x: u64| p.used@.map(addr).contains(x) <==> on_page.contains(x) by {
            if p.used@.map(addr).contains(x) {
                let i = choose|i: int| p.used@.contains(i) && addr(i) == x;
                assert(self.pages@[k].used@.contains(i));
                assert(self.allocated_set().contains(x));
            }
            if on_page.contains(x) {
                let (k2, i2) = self.lemma_allocated_frame(x);
                if k2 != k {
                    if k2 < k {
                        assert(self.pages@[k2].start() != self.pages@[k].start());
                    } else {
                        assert(self.pages@[k].start() != self.pages@[k2].start());
                    }
                }
                assert(addr(i2) == x);
            }
        }
        assert(p.used@.map(addr) =~= on_page);
        vstd::set_lib::lemma_map_size(p.used@, on_page, addr);
    }
}

/// A frame given back is the next one handed out, unless giving it back
/// retired its page; the allocator then holds the same frames as before.
pub proof fn lemma_freed_frame_reused(
    s0: SlabAllocator,
    s1: SlabAllocator,
    s2: SlabAllocator,
    ob: Seq<Single>,
    nb: Seq<Single>,
    ptr: u64,
    r: Option<u64>,
)
    requires
        s0.wf(),
        s0.allocated_set().contains(ptr),
        frame_released(s0, s1, ptr),
        !retires(s0, ptr),
        frame_taken(s1, s2, ob, nb, r),
    ensures
        r == Some(ptr),
        nb == ob,
        s2.allocated_set() == s0.allocated_set(),
        s2.free_frames() == s0.free_frames(),
        s2.page_starts() == s0.page_starts(),
        s2.page_counts() == s0.page_counts(),
{
    s0.lemma_page_starts_distinct();
    assert(s1.free_frames().len() > 0);
    let k = choose|k: int|
        {
            &&& 0 <= k < s0.page_starts().len()
            &&& #[trigger] s0.page_starts()[k] == frame_page(ptr as int)
            &&& s0.page_counts()[k] >= 1
            &&& s1.page_counts() == s0.page_counts().update(k, s0.page_counts()[k] - 1)
        };
    assert(s2.free_frames() =~= s0.free_frames());
    assert(s2.allocated_set() =~= s0.allocated_set());
    assert(s2.page_counts().len() == s0.page_counts().len());
    assert forall|j: int| 0 <= j < s0.page_counts().len() implies s2.page_counts()[j] == s0.page_counts()[j] by {
        assert(s2.page_counts()[j] == s1.page_counts()[j] + if s2.page_starts()[j] == frame_page(ptr as int) {
            1int
        } else {
            0int
        });
        if j != k {
            assert(s0.page_starts()[j] != s0.page_starts()[k]);
        }
    }
    assert(s2.page_counts() =~= s0.page_counts());
}

/// A frame taken from the stack and given right back, without retiring its
/// page, leaves the allocator holding the same frames as before.
pub proof fn lemma_taken_frame_returned(
    s0: SlabAllocator,
    s1: SlabAllocator,
    s2: SlabAllocator,
    ob: Seq<Single>,
    nb: Seq<Single>,
    f: u64,
)
    requires
        s0.wf(),
        s1.wf(),
        s0.free_frames().len() > 0,
        frame_taken(s0, s1, ob, nb, Some(f)),
        frame_released(s1, s2, f),
        !retires(s1, f),
    ensures
        nb == ob,
        s2.allocated_set() == s0.allocated_set(),
        s2.free_frames() == s0.free_frames(),
        s2.page_starts() == s0.page_starts(),
        s2.page_counts() == s0.page_counts(),
{
    s0.lemma_page_starts_distinct();
    let k = choose|k: int|
        {
            &&& 0 <= k < s1.page_starts().len()
            &&& #[trigger] s1.page_starts()[k] == frame_page(f as int)
            &&& s1.page_counts()[k] >= 1
            &&& s2.page_counts() == s1.page_counts().update(k, s1.page_counts()[k] - 1)
        };
    assert(s2.free_frames() =~= s0.free_frames());
    assert(s2.allocated_set() =~= s0.allocated_set());
    assert(s1.page_counts().len() == s1.page_starts().len()) by {
        s1.lemma_page_starts_distinct();
    }
    assert forall|j: int| 0 <= j < s0.page_counts().len() implies s2.page_counts()[j] == s0.page_counts()[j] by {
        if j != k {
            assert(s0.page_starts()[j] != s0.page_starts()[k]);
        }
    }
    assert(s2.page_counts() =~= s0.page_counts());
}

/// An allocation of the buddy allocator keeps every page of a slab allocator
/// allocated.
pub proof fn lemma_holds_after_allocation(
    s: SlabAllocator,
    ob: BuddyAllocator,
    nb: BuddyAllocator,
    level: int,
    single_num: usize,
    pointer: u64,
)
    requires
        ob.wf(),
        0 <= level,
        s.holds(ob@),
        level_allocated(ob@, nb@, level, single_num, pointer),
    ensures
        s.holds(nb@),
{
    lemma_allocated_block(ob, nb, level, single_num, pointer);
    assert forall|k: int| 0 <= k < s.pages@.len() implies {
        let raw = #[trigger] s.pages@[k].bbox.spec_raw();
        &&& raw.single_num < nb@.len()
        &&& can_release(nb@[raw.single_num as int], raw.pointer)
    } by {
        let raw = s.pages@[k].bbox.spec_raw();
        assert(can_release(ob@[raw.single_num as int], raw.pointer));
    }
}

/// Releasing a block that is none of a slab allocator's pages keeps every
/// page of it allocated.
pub proof fn lemma_holds_after_release(s: SlabAllocator, ob: BuddyAllocator, nb: BuddyAllocator, ptr: u64)
    requires
        s.holds(ob@),
        !s.page_starts().contains(ptr),
        nb@.len() == ob@.len(),
        forall|k: int|
            0 <= k < ob@.len() ==> (released_from(ob@[k], #[trigger] nb@[k], ptr) && can_release(ob@[k], ptr))
                || nb@[k] == ob@[k],
    ensures
        s.holds(nb@),
{
    assert forall|j: int| 0 <= j < s.pages@.len() implies {
        let raw = #[trigger] s.pages@[j].bbox.spec_raw();
        &&& raw.single_num < nb@.len()
        &&& can_release(nb@[raw.single_num as int], raw.pointer)
    } by {
        let raw = s.pages@[j].bbox.spec_raw();
        let k = raw.single_num as int;
        let q = raw.pointer;
        assert(can_release(ob@[k], q));
        assert(s.page_starts()[j] == q);
        if nb@[k] != ob@[k] {
            let first = ob@[k].spec_first_page() as int;
            let step = PAGE_SIZE as int;
            lemma_fundamental_div_mod(q - first, step);
            lemma_fundamental_div_mod(ptr - first, step);
            assert(ob@[k].page_index(q) != ob@[k].page_index(ptr));
        }
    }
}

/// Facts on the number of frames on a page.
proof fn lemma_frames_per_page(fs: int)
    requires
        valid_frame_size(fs),
    ensures
        1 <= frames_per_page_spec(fs) <= 253,
        frames_per_page_spec(fs) * fs <= (PAGE_SIZE - PAGE_NODE_BYTES) as int,
{
    let n = (PAGE_SIZE - PAGE_NODE_BYTES) as int;
    lemma_fundamental_div_mod(n, fs);
    assert(1 <= n / fs <= 253 && (n / fs) * fs <= n) by (nonlinear_arith)
        requires
            16 <= fs <= 2032,
            n == 4048,
            n == fs * (n / fs) + n % fs,
            0 <= n % fs < fs,
    ;
}

/// Frame `i` of a page lies after the page's record and ends within the page.
proof fn lemma_frame(page: int, i: int, fs: int)
    requires
        valid_frame_size(fs),
        page >= 0,
        page % (PAGE_SIZE as int) == 0,
        0 <= i < frames_per_page_spec(fs),
    ensures
        page + PAGE_NODE_BYTES <= frame_addr(page, i, fs),
        frame_addr(page, i, fs) + fs <= page + PAGE_SIZE,
        frame_page(frame_addr(page, i, fs)) == page,
        frame_addr(page, i, fs) % 8 == 0,
{
    lemma_frames_per_page(fs);
    lemma_fundamental_div_mod(page, PAGE_SIZE as int);
    lemma_fundamental_div_mod(fs, 8);
    let q = page / (PAGE_SIZE as int);
    let b = fs / 8;
    assert(frame_addr(page, i, fs) == 8 * (512 * q + 6 + i * b)) by (nonlinear_arith)
        requires
            page == PAGE_SIZE * q + page % (PAGE_SIZE as int),
            page % (PAGE_SIZE as int) == 0,
            fs == 8 * b + fs % 8,
            fs % 8 == 0,
            PAGE_SIZE == 4096,
            PAGE_NODE_BYTES == 48,
            frame_addr(page, i, fs) == page + PAGE_NODE_BYTES + i * fs,
    ;
    lemma_fundamental_div_mod_converse(frame_addr(page, i, fs), 8, 512 * q + 6 + i * b, 0);
    let n = frames_per_page_spec(fs);
    assert(i * fs + fs <= n * fs && 0 <= i * fs) by (nonlinear_arith)
        requires
            0 <= i < n,
            fs > 0,
    ;
    let r = PAGE_NODE_BYTES + i * fs;
    lemma_fundamental_div_mod(page, PAGE_SIZE as int);
    lemma_fundamental_div_mod_converse(page + r, PAGE_SIZE as int, page / (PAGE_SIZE as int), r);
}

/// Two different frames of one page lie a whole frame apart.
proof fn lemma_frames_apart(page: int, i: int, j: int, fs: int)
    requires
        fs > 0,
        i != j,
    ensures
        frame_addr(page, i, fs) + fs <= frame_addr(page, j, fs) || frame_addr(page, j, fs) + fs
            <= frame_addr(page, i, fs),
{
    assert(i * fs + fs <= j * fs || j * fs + fs <= i * fs) by (nonlinear_arith)
        requires
            fs > 0,
            i != j,
    ;
}

/// Two different page-aligned addresses lie a whole page apart.
proof fn lemma_pages_apart(a: int, b: int)
    requires
        a >= 0,
        b >= 0,
        a % (PAGE_SIZE as int) == 0,
        b % (PAGE_SIZE as int) == 0,
        a != b,
    ensures
        a + PAGE_SIZE <= b || b + PAGE_SIZE <= a,
{
    lemma_fundamental_div_mod(a, PAGE_SIZE as int);
    lemma_fundamental_div_mod(b, PAGE_SIZE as int);
    let x = a / (PAGE_SIZE as int);
    let y = b / (PAGE_SIZE as int);
    assert(4096 * x + 4096 <= 4096 * y || 4096 * y + 4096 <= 4096 * x) by (nonlinear_arith)
        requires
            x != y,
    ;
}

} // verus!
