//! A buddy region: a run of pages split into aligned blocks of `2^level`
//! pages. Free blocks of each level wait on a list of their own; allocation
//! splits a larger free block, release merges a block with its buddy for as
//! long as the buddy is free on the same level.

use vstd::prelude::*;
use vstd::arithmetic::power2::{pow2, lemma_pow2_pos, lemma_pow2_unfold, lemma_pow2_strictly_increases, lemma_pow2_adds};
use vstd::arithmetic::div_mod::{lemma_fundamental_div_mod, lemma_fundamental_div_mod_converse};
use vstd::bits::{lemma_usize_shl_is_mul, lemma_usize_shr_is_div, lemma_usize_pow2_no_overflow};
use crate::mem::inplace_list::{InplaceList, Node};
use crate::mem::memory_map;
use crate::mem::{get_mut_ptr, MEMORY_START, PHYS_LIMIT};
use crate::utility::{round_up, round_down, log2_floor, round_up_spec, round_down_spec, is_log2_floor};

pub mod entry;
pub mod merge;

use self::entry::Entry;

verus! {

/// The number of free lists, one per level.
pub const MAX_HEIGHT: usize = 32;

/// The page size, as an address step.
pub const PAGE_BYTES: u64 = 4096;

/// The smallest region worth managing, in bytes.
pub const MIN_SIZE: u64 = 40960;

/// The alignment of a region's header.
pub const PADDING: u64 = 8;

/// The room a region keeps in front of its pages for the allocator's header.
pub const REGION_HEADER_BYTES: u64 = 296;

/// The room a region keeps for the bookkeeping record of each page.
pub const NODE_BYTES: u64 = 24;

/// The end of the memory-map entry `e`, rounded down to a page.
pub open spec fn region_end(e: memory_map::Entry) -> int {
    round_down_spec(e.spec_start() + e.spec_len(), PAGE_BYTES as int)
}

/// The start of the memory-map entry `e`, rounded up to `PADDING`.
pub open spec fn region_begin(e: memory_map::Entry) -> int {
    round_up_spec(e.spec_start() as int, PADDING as int)
}

/// The entry `e` is usable memory large enough for a buddy region.
pub open spec fn region_usable(e: memory_map::Entry) -> bool {
    e.spec_typ() == memory_map::EntryType::Available && region_begin(e) + MIN_SIZE <= region_end(e)
}

/// The number of pages a buddy region over `e` manages: what is left after the
/// header, divided among pages with their records.
pub open spec fn region_pages(e: memory_map::Entry) -> int {
    (region_end(e) - region_begin(e) - REGION_HEADER_BYTES) / ((PAGE_BYTES + NODE_BYTES) as int)
}

/// The pages of a region and their records fill the usable entry as far as
/// they can: the header and `region_pages(e)` pages, each with its record,
/// fit between the region's start and end, and one more page with its record
/// would not.
pub proof fn lemma_region_pages_fill(e: memory_map::Entry)
    requires
        region_usable(e),
    ensures
        REGION_HEADER_BYTES + region_pages(e) * (NODE_BYTES + PAGE_BYTES) <= region_end(e) - region_begin(e),
        region_end(e) - region_begin(e) < REGION_HEADER_BYTES + (region_pages(e) + 1) * (NODE_BYTES + PAGE_BYTES),
        region_pages(e) >= 9,
{
    let x = region_end(e) - region_begin(e) - REGION_HEADER_BYTES;
    let d = (PAGE_BYTES + NODE_BYTES) as int;
    lemma_fundamental_div_mod(x, d);
    let n = x / d;
    assert(n * d <= x < (n + 1) * d && n >= 9) by (nonlinear_arith)
        requires
            x == d * n + x % d,
            0 <= x % d < d,
            d == 4120,
            x >= MIN_SIZE - REGION_HEADER_BYTES,
            MIN_SIZE == 40960,
            REGION_HEADER_BYTES == 296,
    ;
}

/// The page number paired with page `n` at level `l`.
pub open spec fn buddy_index(n: int, l: nat) -> int {
    if (n / (pow2(l) as int)) % 2 == 0 {
        n + pow2(l)
    } else {
        n - pow2(l)
    }
}

/// `s` without the first occurrence of `x`.
pub open spec fn remove_value(s: Seq<usize>, x: usize) -> Seq<usize> {
    s.remove(s.index_of(x))
}

/// The smaller of two integers.
pub open spec fn min_int(a: int, b: int) -> int {
    if a < b {
        a
    } else {
        b
    }
}

/// The larger of two integers.
pub open spec fn max_int(a: int, b: int) -> int {
    if a < b {
        b
    } else {
        a
    }
}

/// Whether the free block at `n` of level `l` can merge: its buddy is a page of
/// the region and heads a free block of the same level.
pub open spec fn can_merge(ls: Seq<Seq<usize>>, n: int, l: int, cnt: int) -> bool {
    let b = buddy_index(n, l as nat);
    0 <= b < cnt && ls[l].contains(b as usize)
}

/// The free lists after the block at `n` of level `l` merges with its buddy:
/// both leave list `l` (the lower first), the merged block joins the front of list `l + 1`.
pub open spec fn merge_step(ls: Seq<Seq<usize>>, n: int, l: int) -> Seq<Seq<usize>> {
    let b = buddy_index(n, l as nat);
    let major = min_int(n, b);
    let minor = max_int(n, b);
    ls.update(l, remove_value(remove_value(ls[l], major as usize), minor as usize)).update(
        l + 1,
        seq![major as usize] + ls[l + 1],
    )
}

/// The free lists after the free block at `n` of level `l` merges upwards for as
/// long as its buddy is free on the same level.
pub open spec fn coalesce(ls: Seq<Seq<usize>>, n: int, l: int, cnt: int) -> Seq<Seq<usize>>
    decreases 32 - l,
{
    if 0 <= l < 31 && can_merge(ls, n, l, cnt) {
        coalesce(merge_step(ls, n, l), min_int(n, buddy_index(n, l as nat)), l + 1, cnt)
    } else {
        ls
    }
}

/// The free lists after the first block `n` of list `top` is split down to level
/// `req`: it leaves list `top`, and the upper half split off at each level `k`
/// (`req <= k < top`) joins the front of list `k`.
pub open spec fn split_lists(ls: Seq<Seq<usize>>, n: int, top: int, req: int) -> Seq<
    Seq<usize>,
> {
    Seq::new(
        ls.len(),
        |k: int|
            if k == top {
                ls[k].drop_first()
            } else if req <= k < top {
                seq![(n + pow2(k as nat)) as usize] + ls[k]
            } else {
                ls[k]
            },
    )
}

/// The free lists while the first block `n` of list `top` is being split, once
/// it is down to level `cur`.
pub open spec fn down_lists(ls: Seq<Seq<usize>>, n: int, top: int, cur: int) -> Seq<Seq<usize>> {
    Seq::new(
        ls.len(),
        |k: int|
            if cur < top && k == top {
                remove_value(ls[k], n as usize)
            } else if cur < k < top {
                seq![(n + pow2(k as nat)) as usize] + ls[k]
            } else if cur < top && k == cur {
                seq![(n + pow2(k as nat)) as usize, n as usize] + ls[k]
            } else {
                ls[k]
            },
    )
}

/// The free lists after block `n` of level `l` is released: it joins the front
/// of list `l`, then merges upwards.
pub open spec fn release_lists(ls: Seq<Seq<usize>>, n: int, l: int, cnt: int) -> Seq<Seq<usize>> {
    coalesce(ls.update(l, seq![n as usize] + ls[l]), n, l, cnt)
}

/// No free block has a free buddy of the same level.
pub open spec fn fully_merged(ls: Seq<Seq<usize>>, cnt: int) -> bool {
    forall|l: int, i: usize|
        #![trigger ls[l].contains(i)]
        0 <= l < ls.len() && ls[l].contains(i) ==> !can_merge(ls, i as int, l, cnt)
}

/// `(1 << l)` is `2^l`, and xor with it moves page `n` to its buddy.
proof fn lemma_buddy_xor(n: usize, l: usize)
    requires
        n < 0x8000_0000,
        l < 31,
    ensures
        (1usize << l) == pow2(l as nat),
        (n ^ (1usize << l)) as int == buddy_index(n as int, l as nat),
        (n ^ (1usize << l)) ^ (1usize << l) == n,
{
    lemma_usize_pow2_no_overflow(l as nat);
    vstd::arithmetic::power2::lemma2_to64();
    lemma_pow2_strictly_increases(l as nat, 31);
    assert(pow2(31) == 0x8000_0000);
    lemma_usize_shl_is_mul(1, l);
    lemma_usize_shr_is_div(n, l);
    assert(((n >> l) & 1 == 0 ==> n ^ (1usize << l) == n + (1usize << l)) && ((n >> l) & 1 == 1
        ==> n ^ (1usize << l) == n - (1usize << l)) && (n >> l) & 1 == (n >> l) % 2 && (n ^ (1usize
        << l)) ^ (1usize << l) == n) by (bit_vector)
        requires
            n < 0x8000_0000usize,
            l < 31usize,
    ;
}

/// A block aligned to `2^(l+1)` splits into two buddies aligned to `2^l`.
pub proof fn lemma_align_split(n: int, l: nat)
    requires
        n >= 0,
        n % (pow2(l + 1) as int) == 0,
    ensures
        n % (pow2(l) as int) == 0,
        buddy_index(n, l) == n + pow2(l),
        (n + pow2(l)) % (pow2(l) as int) == 0,
        buddy_index(n + pow2(l), l) == n,
{
    lemma_pow2_unfold(l + 1);
    lemma_pow2_pos(l);
    let p = pow2(l) as int;
    let k = n / (2 * p);
    lemma_fundamental_div_mod(n, 2 * p);
    assert(n == (2 * k) * p + 0) by (nonlinear_arith)
        requires
            n == (2 * p) * k + n % (2 * p),
            n % (2 * p) == 0,
    ;
    lemma_fundamental_div_mod_converse(n, p, 2 * k, 0);
    assert(n + p == (2 * k + 1) * p + 0) by (nonlinear_arith)
        requires
            n == (2 * k) * p + 0,
    ;
    lemma_fundamental_div_mod_converse(n + p, p, 2 * k + 1, 0);
}

/// Two buddies aligned to `2^l` form a block aligned to `2^(l+1)` at the lower one.
proof fn lemma_align_merge(n: int, l: nat)
    requires
        n >= 0,
        n % (pow2(l) as int) == 0,
    ensures
        buddy_index(n, l) >= 0,
        min_int(n, buddy_index(n, l)) % (pow2(l + 1) as int) == 0,
        max_int(n, buddy_index(n, l)) == min_int(n, buddy_index(n, l)) + pow2(l),
        buddy_index(buddy_index(n, l), l) == n,
        pow2(l + 1) == 2 * pow2(l),
{
    lemma_pow2_unfold(l + 1);
    lemma_pow2_pos(l);
    let p = pow2(l) as int;
    let q = n / p;
    lemma_fundamental_div_mod(n, p);
    assert(n == q * p) by (nonlinear_arith)
        requires
            n == p * q + n % p,
            n % p == 0,
    ;
    assert(q >= 0) by (nonlinear_arith)
        requires
            n == q * p,
            n >= 0,
            p > 0,
    ;
    if q % 2 == 0 {
        let m = q / 2;
        assert(n == m * (2 * p) + 0) by (nonlinear_arith)
            requires
                n == q * p,
                q == 2 * m,
        ;
        lemma_fundamental_div_mod_converse(n, 2 * p, m, 0);
        lemma_align_split(n, l);
    } else {
        let m = q / 2;
        assert(n - p == m * (2 * p) + 0) by (nonlinear_arith)
            requires
                n == q * p,
                q == 2 * m + 1,
        ;
        assert(m >= 0);
        assert(n - p >= 0) by (nonlinear_arith)
            requires
                n - p == m * (2 * p),
                m >= 0,
                p > 0,
        ;
        lemma_fundamental_div_mod_converse(n - p, 2 * p, m, 0);
        lemma_align_split(n - p, l);
    }
}

/// An aligned block of `2^lev` pages that holds page `x` also holds any block
/// of `2^lv <= 2^lev` pages, aligned to its size, that holds `x`.
proof fn lemma_aligned_nested(h: int, lev: nat, a: int, lv: nat, x: int)
    requires
        lv <= lev,
        0 <= h,
        0 <= a,
        h % (pow2(lev) as int) == 0,
        a % (pow2(lv) as int) == 0,
        h <= x < h + pow2(lev),
        a <= x < a + pow2(lv),
    ensures
        h <= a,
        a + pow2(lv) <= h + pow2(lev),
{
    let p = pow2(lv) as int;
    let k = pow2((lev - lv) as nat) as int;
    let q = pow2(lev) as int;
    lemma_pow2_adds(lv, (lev - lv) as nat);
    assert(lv + (lev - lv) as nat == lev);
    lemma_pow2_pos(lv);
    lemma_pow2_pos((lev - lv) as nat);
    assert(q == p * k);
    lemma_fundamental_div_mod(h, q);
    lemma_fundamental_div_mod(a, p);
    let m = h / q;
    let j = a / p;
    let km = k * m;
    assert(h == p * km) by (nonlinear_arith)
        requires
            h == q * m + h % q,
            h % q == 0,
            q == p * k,
            km == k * m,
    ;
    assert(a == p * j) by (nonlinear_arith)
        requires
            a == p * j + a % p,
            a % p == 0,
    ;
    assert(km <= j) by (nonlinear_arith)
        requires
            p > 0,
            p * km < p * j + p,
    ;
    assert(h <= a) by (nonlinear_arith)
        requires
            h == p * km,
            a == p * j,
            km <= j,
            p > 0,
    ;
    assert(h + q == p * (km + k)) by (nonlinear_arith)
        requires
            h == p * km,
            q == p * k,
    ;
    assert(j + 1 <= km + k) by (nonlinear_arith)
        requires
            p > 0,
            p * j < p * (km + k),
    ;
    assert(a + p <= h + q) by (nonlinear_arith)
        requires
            h + q == p * (km + k),
            a == p * j,
            j + 1 <= km + k,
            p > 0,
    ;
}

/// Of two multiples of `p`, a larger one is larger by at least `p`.
proof fn lemma_next_multiple(a: int, b: int, p: int)
    requires
        p > 0,
        a >= b,
        a % p == 0,
        b % p == 0,
        a != b,
    ensures
        a >= b + p,
{
    lemma_fundamental_div_mod(a, p);
    lemma_fundamental_div_mod(b, p);
    assert(a / p > b / p) by (nonlinear_arith)
        requires
            a == p * (a / p),
            b == p * (b / p),
            a > b,
            p > 0,
    ;
    assert(a >= b + p) by (nonlinear_arith)
        requires
            a == p * (a / p),
            b == p * (b / p),
            a / p >= b / p + 1,
            p > 0,
    ;
}

/// Within a region of fewer than `2^h` pages, a block of `2^a` pages has `a < h`.
proof fn lemma_level_below_height(a: nat, h: nat, cnt: int)
    requires
        pow2(a) <= cnt < pow2(h),
    ensures
        a < h,
{
    if a >= h {
        if a > h {
            lemma_pow2_strictly_increases(h, a);
        }
    }
}

/// Removing a value from a sequence without duplicates.
pub proof fn lemma_remove_value(s: Seq<usize>, x: usize)
    requires
        s.no_duplicates(),
        s.contains(x),
    ensures
        forall|y: usize| #[trigger]
            remove_value(s, x).contains(y) <==> (s.contains(y) && y != x),
        remove_value(s, x).no_duplicates(),
        remove_value(s, x).len() == s.len() - 1,
        forall|i: int| 0 <= i < s.len() && s[i] == x ==> s.index_of(x) == i,
{
    let k = s.index_of(x);
    assert(0 <= k < s.len() && s[k] == x);
    let t = s.remove(k);
    assert forall|y: usize| #[trigger] t.contains(y) <==> (s.contains(y) && y != x) by {
        if t.contains(y) {
            let i = choose|i: int| 0 <= i < t.len() && t[i] == y;
            if i < k {
                assert(s[i] == y);
            } else {
                assert(s[i + 1] == y);
            }
        }
        if s.contains(y) && y != x {
            let i = choose|i: int| 0 <= i < s.len() && s[i] == y;
            if i < k {
                assert(t[i] == y);
            } else {
                assert(i != k);
                assert(t[i - 1] == y);
            }
        }
    }
    assert forall|i: int, j: int| 0 <= i < j < t.len() implies t[i] != t[j] by {
        let i2 = if i < k { i } else { i + 1 };
        let j2 = if j < k { j } else { j + 1 };
        assert(t[i] == s[i2]);
        assert(t[j] == s[j2]);
    }
}

/// Removing the second element of a sequence without duplicates.
proof fn lemma_remove_second(a: usize, x: usize, t: Seq<usize>)
    requires
        (seq![a, x] + t).no_duplicates(),
    ensures
        remove_value(seq![a, x] + t, x) == seq![a] + t,
{
    let s = seq![a, x] + t;
    assert(s[1] == x);
    lemma_remove_value(s, x);
    assert(s.index_of(x) == 1);
    assert(s.remove(1) =~= seq![a] + t);
}

/// Removing the first element of a sequence without duplicates.
pub proof fn lemma_remove_first(s: Seq<usize>)
    requires
        s.no_duplicates(),
        s.len() > 0,
    ensures
        remove_value(s, s[0]) == s.drop_first(),
{
    lemma_remove_value(s, s[0]);
    assert(s.index_of(s[0]) == 0);
    assert(s.remove(0) =~= s.drop_first());
}

/// No list at or above level `req` holds a free block.
pub open spec fn no_free_block_from(s: Single, req: int) -> bool {
    forall|l: int| req <= l < s.spec_height() ==> #[trigger] s.lists_view()[l].len() == 0
}

/// `new` is `old` after a block of level `req` at address `addr` was cut from
/// the first free block of the lowest non-empty list at or above `req`.
pub open spec fn allocated_from(old: Single, new: Single, req: int, addr: u64) -> bool {
    &&& new.cnt() == old.cnt()
    &&& new.spec_height() == old.spec_height()
    &&& new.spec_first_page() == old.spec_first_page()
    &&& held_levels_kept(old, new)
    &&& exists|lvl: int|
        {
            &&& req <= lvl < old.spec_height()
            &&& #[trigger] old.lists_view()[lvl].len() > 0
            &&& forall|l: int| req <= l < lvl ==> #[trigger] old.lists_view()[l].len() == 0
            &&& {
                let n = old.lists_view()[lvl][0] as int;
                &&& addr == old.page_addr(n)
                &&& n % (pow2(req as nat) as int) == 0
                &&& n + pow2(req as nat) <= old.cnt()
                &&& new.lists_view() == split_lists(old.lists_view(), n, lvl, req)
                &&& new.allocated_set() == old.allocated_set().insert(n)
                &&& new.level_of(n) == req
            }
        }
}

/// Every block allocated both in `old` and in `new` has the same level in both.
pub open spec fn held_levels_kept(old: Single, new: Single) -> bool {
    forall|g: int|
        #![trigger new.allocated_set().contains(g), old.allocated_set().contains(g)]
        old.allocated_set().contains(g) && new.allocated_set().contains(g) ==> new.level_of(g) == old.level_of(g)
}

/// `ptr` is the address of the first page of an allocated block of `s`.
pub open spec fn can_release(s: Single, ptr: u64) -> bool {
    &&& s.spec_first_page() <= ptr
    &&& (ptr - s.spec_first_page()) % (PAGE_BYTES as int) == 0
    &&& s.allocated_set().contains(s.page_index(ptr))
}

/// `new` is `old` after the allocated block at `ptr` was released and merged upwards.
pub open spec fn released_from(old: Single, new: Single, ptr: u64) -> bool {
    let n = old.page_index(ptr);
    &&& new.lists_view() == release_lists(old.lists_view(), n, old.level_of(n), old.cnt())
    &&& new.allocated_set() == old.allocated_set().remove(n)
    &&& new.spec_first_page() == old.spec_first_page()
    &&& new.cnt() == old.cnt()
    &&& held_levels_kept(old, new)
}

/// `s` is a fresh region over the memory-map entry `e`: well formed, with all
/// of `region_pages(e)` pages free, the last one ending where the entry ends.
pub open spec fn fresh_region(s: Single, e: memory_map::Entry) -> bool {
    &&& s.wf()
    &&& s.cnt() == region_pages(e)
    &&& s.spec_first_page() == region_end(e) - s.cnt() * PAGE_BYTES + MEMORY_START
    &&& is_log2_floor(s.cnt(), s.spec_height() - 1)
    &&& s.allocated_set() == Set::<int>::empty()
    &&& fully_merged(s.lists_view(), s.cnt())
    &&& all_pages_free(s.lists_view(), s.cnt())
}

/// A fresh region lays out its header and page records below its first page
/// and its pages up to the entry's end: the records never overlap the pages,
/// and the region holds as many pages as fit.
pub proof fn lemma_fresh_region_layout(s: Single, e: memory_map::Entry)
    requires
        fresh_region(s, e),
        region_usable(e),
    ensures
        region_begin(e) + MEMORY_START + REGION_HEADER_BYTES + s.cnt() * NODE_BYTES <= s.spec_first_page(),
        s.spec_first_page() + s.cnt() * PAGE_BYTES == region_end(e) + MEMORY_START,
        region_end(e) - region_begin(e) < REGION_HEADER_BYTES + (s.cnt() + 1) * (NODE_BYTES + PAGE_BYTES),
{
    lemma_region_pages_fill(e);
    let n = s.cnt();
    assert(n * (NODE_BYTES + PAGE_BYTES) == n * NODE_BYTES + n * PAGE_BYTES) by (nonlinear_arith);
}

/// Page `i` lies in the free block of level `l` headed by page `h`, which is
/// on list `l`.
pub open spec fn in_free_block(ls: Seq<Seq<usize>>, l: int, h: usize, i: int) -> bool {
    0 <= l < ls.len() && ls[l].contains(h) && h <= i < h + pow2(l as nat)
}

/// Page `i` lies in some listed free block.
pub open spec fn page_free(ls: Seq<Seq<usize>>, i: int) -> bool {
    exists|l: int, h: usize| #[trigger] in_free_block(ls, l, h, i)
}

/// Every page `0 <= i < cnt` lies in exactly one listed free block.
pub open spec fn all_pages_free(ls: Seq<Seq<usize>>, cnt: int) -> bool {
    &&& forall|i: int| 0 <= i < cnt ==> #[trigger] page_free(ls, i)
    &&& forall|i: int, l1: int, h1: usize, l2: int, h2: usize|
        #![trigger in_free_block(ls, l1, h1, i), in_free_block(ls, l2, h2, i)]
        in_free_block(ls, l1, h1, i) && in_free_block(ls, l2, h2, i) ==> l1 == l2 && h1 == h2
}

/// Page `i` of `s` lies in the block headed by page `h`, which is allocated or
/// on the free list of its level.
pub open spec fn in_held_or_free_block(s: Single, h: int, i: int) -> bool {
    &&& s.allocated_set().contains(h) || (0 <= s.level_of(h) < s.lists_view().len() && s.lists_view()[s.level_of(
        h,
    )].contains(h as usize))
    &&& 0 <= h < s.cnt()
    &&& h <= i < h + pow2(s.level_of(h) as nat)
}

/// Page `i` of `s` lies in a block that is allocated or listed free.
pub open spec fn page_in_block(s: Single, i: int) -> bool {
    exists|h: int| #[trigger] in_held_or_free_block(s, h, i)
}

/// While regions are first merged, in round `i` at position `j`: a free block
/// that could merge is of level `i` in a pair at or after `j`, or of level `i + 1`.
pub open spec fn init_merged(ls: Seq<Seq<usize>>, i: int, j: int, cnt: int) -> bool {
    forall|l: int, x: usize|
        #![trigger ls[l].contains(x)]
        0 <= l < ls.len() && ls[l].contains(x) && can_merge(ls, x as int, l, cnt) ==> (l == i
            && min_int(x as int, buddy_index(x as int, l as nat)) >= j) || l == i + 1
}

/// While regions are first merged, in round `i` at position `j`: every free
/// block is of level at most `i`, or of level `i + 1` before `j`.
pub open spec fn levels_below(ls: Seq<Seq<usize>>, i: int, j: int) -> bool {
    forall|l: int, x: usize|
        #![trigger ls[l].contains(x)]
        0 <= l < ls.len() && ls[l].contains(x) ==> l <= i || (l == i + 1 && x < j)
}

/// A buddy region over a run of pages.
pub struct Single {
    lists: Vec<InplaceList<Entry>>,
    height: usize,
    nodes: Vec<Node<Entry>>,
    first_page: u64,
    length: u64,
    allocated: Ghost<Set<int>>,
}

impl Single {
    /// The number of pages of the region.
    pub closed spec fn cnt(&self) -> int {
        self.nodes@.len() as int
    }

    /// One more than the highest level a block of the region can reach.
    pub closed spec fn spec_height(&self) -> int {
        self.height as int
    }

    /// The address of the first page.
    pub closed spec fn spec_first_page(&self) -> u64 {
        self.first_page
    }

    /// The free lists, one sequence of page numbers per level, front first.
    pub closed spec fn lists_view(&self) -> Seq<Seq<usize>> {
        Seq::new(self.lists@.len(), |l: int| self.lists@[l]@)
    }

    /// The level recorded for page `i`.
    pub closed spec fn level_of(&self, i: int) -> int {
        self.nodes@[i].obj().spec_level() as int
    }

    /// Whether page `i` is marked occupied.
    pub closed spec fn occupied_at(&self, i: int) -> bool {
        self.nodes@[i].obj().spec_occupied()
    }

    /// The pages that head allocated blocks.
    pub closed spec fn allocated_set(&self) -> Set<int> {
        self.allocated@
    }

    /// Page `i` heads a block, free or allocated.
    pub closed spec fn is_head(&self, i: int) -> bool {
        0 <= i < self.cnt() && (!self.occupied_at(i) || self.allocated@.contains(i))
    }

    /// The number of the page at address `ptr`.
    pub open spec fn page_index(&self, ptr: u64) -> int {
        (ptr - self.spec_first_page()) / (PAGE_BYTES as int)
    }

    /// The address of page `i`.
    pub open spec fn page_addr(&self, i: int) -> int {
        self.spec_first_page() + i * PAGE_BYTES
    }

    pub closed spec fn wf_shape(&self) -> bool {
        &&& self.lists@.len() == MAX_HEIGHT
        &&& 1 <= self.height < MAX_HEIGHT
        &&& 1 <= self.cnt() < pow2(self.height as nat)
        &&& self.cnt() < 0x8000_0000
        &&& forall|i: int| 0 <= i < self.cnt() ==> #[trigger] self.nodes@[i].obj().spec_num() == i
        &&& self.first_page + self.cnt() * PAGE_BYTES <= u64::MAX
        &&& self.length == self.cnt() * PAGE_BYTES
        &&& self.first_page % PAGE_BYTES == 0
        &&& self.first_page >= MEMORY_START
    }

    pub closed spec fn wf_lists(&self) -> bool {
        forall|l: int| 0 <= l < MAX_HEIGHT ==> #[trigger] self.lists@[l].wf(self.nodes@)
    }

    pub closed spec fn wf_members(&self) -> bool {
        forall|l: int, i: usize|
            #![trigger self.lists@[l]@.contains(i)]
            0 <= l < MAX_HEIGHT ==> (self.lists@[l]@.contains(i) <==> (i < self.cnt()
                && !self.occupied_at(i as int) && self.level_of(i as int) == l))
    }

    pub closed spec fn wf_allocated(&self) -> bool {
        forall|i: int| #[trigger]
            self.allocated@.contains(i) ==> 0 <= i < self.cnt() && self.occupied_at(i)
    }

    pub closed spec fn wf_heads(&self) -> bool {
        forall|i: int|
            #[trigger] self.is_head(i) ==> {
                &&& self.level_of(i) < self.height
                &&& i % (pow2(self.level_of(i) as nat) as int) == 0
                &&& i + pow2(self.level_of(i) as nat) <= self.cnt()
            }
    }

    pub closed spec fn wf_disjoint(&self) -> bool {
        forall|i: int, j: int|
            #![trigger self.is_head(i), self.is_head(j)]
            self.is_head(i) && self.is_head(j) && i != j ==> i + pow2(self.level_of(i) as nat) <= j
                || j + pow2(self.level_of(j) as nat) <= i
    }

    /// Page `i` lies in the block headed by page `h`.
    pub closed spec fn in_block(&self, h: int, i: int) -> bool {
        self.is_head(h) && h <= i < h + pow2(self.level_of(h) as nat)
    }

    /// Page `i` lies in some block.
    pub closed spec fn covered(&self, i: int) -> bool {
        exists|h: int| #[trigger] self.in_block(h, i)
    }

    /// Every page of the region lies in a block.
    pub closed spec fn wf_cover(&self) -> bool {
        forall|i: int| 0 <= i < self.cnt() ==> #[trigger] self.covered(i)
    }

    /// The region's bookkeeping is consistent: the free lists hold exactly the
    /// free block heads of their level, and the blocks are aligned, fit in the
    /// region, do not overlap and together hold every page.
    pub closed spec fn wf(&self) -> bool {
        &&& self.wf_shape()
        &&& self.wf_lists()
        &&& self.wf_members()
        &&& self.wf_allocated()
        &&& self.wf_heads()
        &&& self.wf_disjoint()
        &&& self.wf_cover()
    }

    /// Coverage carries over to a region with the same pages, heads and levels of heads.
    proof fn lemma_cover_same_heads(s: Single, t: Single)
        requires
            s.wf_cover(),
            t.cnt() == s.cnt(),
            forall|h: int| #[trigger] t.is_head(h) <==> s.is_head(h),
            forall|h: int| s.is_head(h) ==> #[trigger] t.level_of(h) == s.level_of(h),
        ensures
            t.wf_cover(),
    {
        assert forall|i: int| 0 <= i < t.cnt() implies #[trigger] t.covered(i) by {
            assert(s.covered(i));
            let h = choose|h: int| #[trigger] s.in_block(h, i);
            assert(t.is_head(h));
            assert(t.in_block(h, i));
        }
    }

    /// What a well-formed region says about one free page `i`.
    proof fn lemma_free_page(&self, i: int)
        requires
            self.wf(),
            0 <= i < self.cnt(),
            !self.occupied_at(i),
        ensures
            self.is_head(i),
            0 <= self.level_of(i) < self.spec_height() <= 31,
            i % (pow2(self.level_of(i) as nat) as int) == 0,
            i + pow2(self.level_of(i) as nat) <= self.cnt(),
            self.lists_view()[self.level_of(i)].contains(i as usize),
            (i as usize) < 0x8000_0000,
            self.nodes@[i].obj().spec_num() == i,
    {
        assert(self.is_head(i));
        assert(self.lists@[self.level_of(i)]@.contains(i as usize));
    }

    /// What holds of a page whose buddy is in the region.
    proof fn lemma_buddy_facts(&self, node: int, buddy: int)
        requires
            self.wf(),
            0 <= node < self.cnt(),
            !self.occupied_at(node),
            buddy == buddy_index(node, self.level_of(node) as nat),
            0 <= buddy < self.cnt(),
        ensures
            (!self.nodes@[buddy].obj().spec_occupied() && self.nodes@[buddy].obj().spec_level()
                == self.nodes@[node].obj().spec_level()) ==> {
                &&& self.nodes@[buddy].obj().spec_level() < usize::BITS
                &&& self.nodes@[node].obj().spec_num() as usize == (self.nodes@[buddy].obj().spec_num() as usize) ^ (1usize
                    << self.nodes@[buddy].obj().spec_level() as usize)
            },
            (!self.occupied_at(buddy) && self.level_of(buddy) == self.level_of(node)) <==> can_merge(
                self.lists_view(),
                node,
                self.level_of(node),
                self.cnt(),
            ),
    {
        self.lemma_free_page(node);
        let l = self.level_of(node);
        lemma_buddy_xor(node as usize, l as usize);
        assert(self.nodes@[buddy].obj().spec_num() == buddy);
        assert(self.lists@[l]@.contains(buddy as usize) <==> (buddy < self.cnt() && !self.occupied_at(buddy)
            && self.level_of(buddy) == l));
    }

    /// The shape of a merge of two free buddies.
    proof fn lemma_merge_facts(&self, node: int, buddy: int)
        requires
            self.wf(),
            0 <= node < self.cnt(),
            !self.occupied_at(node),
            buddy == buddy_index(node, self.level_of(node) as nat),
            0 <= buddy < self.cnt(),
            !self.occupied_at(buddy),
            self.level_of(buddy) == self.level_of(node),
        ensures
            ({
                let l = self.level_of(node) as nat;
                let major = min_int(node, buddy);
                let minor = max_int(node, buddy);
                &&& minor == major + pow2(l)
                &&& major % (pow2(l + 1) as int) == 0
                &&& major + pow2(l + 1) <= self.cnt()
                &&& l + 1 < self.spec_height()
                &&& pow2(l + 1) == 2 * pow2(l)
                &&& self.lists_view()[l as int].contains(major as usize)
                &&& self.lists_view()[l as int].contains(minor as usize)
                &&& major != minor
            }),
    {
        self.lemma_free_page(node);
        self.lemma_free_page(buddy);
        let l = self.level_of(node) as nat;
        lemma_align_merge(node, l);
        lemma_pow2_pos(l);
        lemma_level_below_height(l + 1, self.height as nat, self.cnt());
    }

    /// The free lists of a well-formed region are sound.
    pub proof fn lemma_lists_sound(&self)
        requires
            self.wf(),
        ensures
            merge::lists_sound(self.lists_view(), self.cnt()),
            self.lists_view().len() == MAX_HEIGHT,
    {
        let ls = self.lists_view();
        assert forall|l: int| 0 <= l < 32 implies (#[trigger] ls[l]).no_duplicates() by {
            self.lists@[l].lemma_wf_facts(self.nodes@);
        }
        assert forall|l1: int, l2: int, x: usize|
            0 <= l1 < 32 && 0 <= l2 < 32 && ls[l1].contains(x) && ls[l2].contains(x) implies l1 == l2 by {
            assert(self.lists@[l1]@.contains(x));
            assert(self.lists@[l2]@.contains(x));
        }
        assert forall|l: int, x: usize| 0 <= l < 32 && #[trigger] ls[l].contains(x) implies x < self.cnt() by {
            assert(self.lists@[l]@.contains(x));
        }
        assert(ls[31].len() == 0) by {
            if ls[31].len() > 0 {
                let x = ls[31][0];
                assert(self.lists@[31]@.contains(x));
                assert(self.is_head(x as int));
            }
        }
    }

    /// No free block lies inside the block headed by `n`.
    proof fn lemma_inside_block_not_free(&self, n: int)
        requires
            self.wf(),
            self.is_head(n),
        ensures
            forall|k: int, x: usize|
                0 <= k < 32 && n < x < n + pow2(self.level_of(n) as nat) ==> !(
                #[trigger] self.lists_view()[k].contains(x)),
    {
        assert forall|k: int, x: usize|
            0 <= k < 32 && n < x < n + pow2(self.level_of(n) as nat) implies !(
            #[trigger] self.lists_view()[k].contains(x)) by {
            if self.lists_view()[k].contains(x) {
                assert(self.lists@[k]@.contains(x));
                assert(self.is_head(x as int));
                lemma_pow2_pos(self.level_of(x as int) as nat);
            }
        }
    }

    /// Allocation keeps the free lists fully merged.
    proof fn lemma_allocate_keeps_merged(old: Single, new: Single, req: int, addr: u64)
        requires
            old.wf(),
            fully_merged(old.lists_view(), old.cnt()),
            allocated_from(old, new, req, addr),
        ensures
            fully_merged(new.lists_view(), old.cnt()),
    {
        let lvl = choose|lvl: int|
            {
                &&& req <= lvl < old.spec_height()
                &&& #[trigger] old.lists_view()[lvl].len() > 0
                &&& forall|l: int| req <= l < lvl ==> #[trigger] old.lists_view()[l].len() == 0
                &&& {
                    let n = old.lists_view()[lvl][0] as int;
                    &&& addr == old.page_addr(n)
                    &&& new.lists_view() == split_lists(old.lists_view(), n, lvl, req)
                    &&& new.allocated_set() == old.allocated_set().insert(n)
                    &&& new.level_of(n) == req
                }
            };
        let n = old.lists_view()[lvl][0];
        old.lemma_lists_sound();
        assert(old.lists@[lvl]@.contains(n));
        old.lemma_free_page(n as int);
        old.lemma_inside_block_not_free(n as int);
        merge::lemma_split_merged(old.lists_view(), n as int, lvl, req, old.cnt());
    }

    /// Release keeps the free lists fully merged.
    proof fn lemma_release_keeps_merged(old: Single, new: Single, ptr: u64)
        requires
            old.wf(),
            can_release(old, ptr),
            fully_merged(old.lists_view(), old.cnt()),
            released_from(old, new, ptr),
        ensures
            fully_merged(new.lists_view(), old.cnt()),
    {
        let n = old.page_index(ptr);
        old.lemma_lists_sound();
        assert(old.is_head(n));
        assert forall|k: int| 0 <= k < 32 implies !(#[trigger] old.lists_view()[k]).contains(n as usize) by {
            if old.lists_view()[k].contains(n as usize) {
                assert(old.lists@[k]@.contains(n as usize));
            }
        }
        merge::lemma_release_merged(old.lists_view(), n, old.level_of(n), old.cnt());
    }

    /// Releasing a block right after allocating it restores the region: the free
    /// lists are as they were, and so is the set of allocated blocks.
    pub proof fn lemma_deallocate_undoes_allocate(old: Single, mid: Single, new: Single, req: int, addr: u64)
        requires
            old.wf(),
            fully_merged(old.lists_view(), old.cnt()),
            allocated_from(old, mid, req, addr),
            released_from(mid, new, addr),
        ensures
            new.lists_view() == old.lists_view(),
            new.allocated_set() == old.allocated_set(),
    {
        let lvl = choose|lvl: int|
            {
                &&& req <= lvl < old.spec_height()
                &&& #[trigger] old.lists_view()[lvl].len() > 0
                &&& forall|l: int| req <= l < lvl ==> #[trigger] old.lists_view()[l].len() == 0
                &&& {
                    let n = old.lists_view()[lvl][0] as int;
                    &&& addr == old.page_addr(n)
                    &&& mid.lists_view() == split_lists(old.lists_view(), n, lvl, req)
                    &&& mid.allocated_set() == old.allocated_set().insert(n)
                    &&& mid.level_of(n) == req
                }
            };
        let n = old.lists_view()[lvl][0];
        old.lemma_lists_sound();
        assert(old.lists@[lvl]@.contains(n));
        old.lemma_free_page(n as int);
        old.lemma_inside_block_not_free(n as int);
        assert(mid.page_index(addr) == n) by {
            lemma_fundamental_div_mod_converse(addr - old.spec_first_page(), PAGE_BYTES as int, n as int, 0);
        }
        merge::lemma_release_after_split(old.lists_view(), n as int, lvl, req, old.cnt());
        assert(!old.allocated@.contains(n as int));
        assert(new.allocated_set() =~= old.allocated_set());
    }

    /// An allocated block starts on a page boundary inside the region.
    pub proof fn lemma_held_block(s: Single, q: u64)
        requires
            s.wf(),
            can_release(s, q),
        ensures
            q % PAGE_BYTES == 0,
            MEMORY_START <= s.spec_first_page() <= q,
            q + PAGE_BYTES <= s.spec_first_page() + s.cnt() * PAGE_BYTES,
            q + pow2(s.level_of(s.page_index(q)) as nat) * PAGE_BYTES <= s.spec_first_page() + s.cnt()
                * PAGE_BYTES,
            s.spec_first_page() + s.cnt() * PAGE_BYTES <= u64::MAX,
    {
        let m = s.page_index(q);
        assert(s.allocated@.contains(m));
        assert(s.is_head(m));
        let size = pow2(s.level_of(m) as nat) as int;
        assert(m + size <= s.cnt());
        lemma_fundamental_div_mod((q - s.first_page) as int, PAGE_BYTES as int);
        assert(q == s.first_page + m * PAGE_BYTES);
        assert((q as int) % (PAGE_BYTES as int) == 0) by {
            vstd::arithmetic::div_mod::lemma_mod_multiples_vanish(
                (s.first_page / PAGE_BYTES) as int + m,
                0,
                PAGE_BYTES as int,
            );
            lemma_fundamental_div_mod(s.first_page as int, PAGE_BYTES as int);
        }
        assert(m + 1 <= s.cnt());
        assert(q + PAGE_BYTES <= s.first_page + s.cnt() * PAGE_BYTES) by (nonlinear_arith)
            requires
                q == s.first_page + m * PAGE_BYTES,
                m + 1 <= s.cnt(),
        ;
        assert(q + size * PAGE_BYTES <= s.first_page + s.cnt() * PAGE_BYTES) by (nonlinear_arith)
            requires
                q == s.first_page + m * PAGE_BYTES,
                m + size <= s.cnt(),
        ;
    }

    /// Every page of a region lies in exactly one block, which is allocated or
    /// on the free list of its level.
    pub proof fn lemma_every_page_in_one_block(&self)
        requires
            self.wf(),
        ensures
            forall|i: int| 0 <= i < self.cnt() ==> #[trigger] page_in_block(*self, i),
            forall|i: int, h1: int, h2: int|
                #![trigger in_held_or_free_block(*self, h1, i), in_held_or_free_block(*self, h2, i)]
                in_held_or_free_block(*self, h1, i) && in_held_or_free_block(*self, h2, i) ==> h1 == h2,
    {
        assert forall|i: int| 0 <= i < self.cnt() implies #[trigger] page_in_block(*self, i) by {
            assert(self.covered(i));
            let h = choose|h: int| #[trigger] self.in_block(h, i);
            self.lemma_head_held_or_free(h);
            assert(in_held_or_free_block(*self, h, i));
        }
        assert forall|i: int, h1: int, h2: int|
            in_held_or_free_block(*self, h1, i) && in_held_or_free_block(*self, h2, i) implies h1 == h2 by {
            self.lemma_held_or_free_is_head(h1);
            self.lemma_held_or_free_is_head(h2);
            if h1 != h2 {
                assert(self.is_head(h1) && self.is_head(h2));
            }
        }
    }

    /// A head is allocated or on the free list of its level.
    proof fn lemma_head_held_or_free(&self, h: int)
        requires
            self.wf(),
            self.is_head(h),
        ensures
            self.allocated_set().contains(h) || (0 <= self.level_of(h) < self.lists_view().len()
                && self.lists_view()[self.level_of(h)].contains(h as usize)),
            0 <= self.level_of(h) < MAX_HEIGHT,
    {
        if !self.allocated@.contains(h) {
            assert(self.lists@[self.level_of(h)]@.contains(h as usize));
        }
    }

    /// A page that is allocated, or listed at its level, heads a block.
    proof fn lemma_held_or_free_is_head(&self, h: int)
        requires
            self.wf(),
            0 <= h < self.cnt(),
            self.allocated_set().contains(h) || (0 <= self.level_of(h) < self.lists_view().len()
                && self.lists_view()[self.level_of(h)].contains(h as usize)),
        ensures
            self.is_head(h),
    {
        if !self.allocated@.contains(h) {
            let l = self.level_of(h);
            assert(0 <= l < MAX_HEIGHT);
            assert(self.lists@[l]@.contains(h as usize));
        }
    }

    /// In a region with no allocated block, every page lies in exactly one
    /// listed free block.
    pub proof fn lemma_all_pages_free(&self)
        requires
            self.wf(),
            self.allocated_set() == Set::<int>::empty(),
        ensures
            all_pages_free(self.lists_view(), self.cnt()),
    {
        let ls = self.lists_view();
        assert forall|i: int| 0 <= i < self.cnt() implies #[trigger] page_free(ls, i) by {
            assert(self.covered(i));
            let h = choose|h: int| #[trigger] self.in_block(h, i);
            self.lemma_head_held_or_free(h);
            assert(!self.allocated@.contains(h));
            assert(in_free_block(ls, self.level_of(h), h as usize, i));
        }
        assert forall|i: int, l1: int, h1: usize, l2: int, h2: usize|
            in_free_block(ls, l1, h1, i) && in_free_block(ls, l2, h2, i) implies l1 == l2 && h1 == h2 by {
            assert(self.lists@[l1]@.contains(h1));
            assert(self.lists@[l2]@.contains(h2));
            assert(self.is_head(h1 as int) && self.is_head(h2 as int));
        }
    }

    /// A block `[a, a + 2^lv)` of the region, aligned to its size and clear of
    /// every allocated block, lies inside one free block: the returned head,
    /// of level at least `lv`.
    proof fn lemma_clear_block_is_free(&self, a: int, lv: nat) -> (h: int)
        requires
            self.wf(),
            fully_merged(self.lists_view(), self.cnt()),
            0 <= a,
            lv < 31,
            a % (pow2(lv) as int) == 0,
            a + pow2(lv) <= self.cnt(),
            forall|g: int|
                #[trigger] self.allocated@.contains(g) ==> g + pow2(self.level_of(g) as nat) <= a || a
                    + pow2(lv) <= g,
        ensures
            self.is_head(h),
            !self.occupied_at(h),
            self.level_of(h) >= lv,
            h <= a < h + pow2(self.level_of(h) as nat),
        decreases lv,
    {
        lemma_pow2_pos(lv);
        if lv == 0 {
            assert(self.covered(a));
            let h = choose|h: int| #[trigger] self.in_block(h, a);
            if self.allocated@.contains(h) {
                assert(false);
            }
            h
        } else {
            let lo = (lv - 1) as nat;
            let half = pow2(lo) as int;
            lemma_pow2_unfold(lv);
            lemma_pow2_pos(lo);
            assert(pow2(lo + 1) == pow2(lv));
            lemma_align_split(a, lo);
            let h0 = self.lemma_clear_block_is_free(a, lo);
            let h1 = self.lemma_clear_block_is_free(a + half, lo);
            let l0 = self.level_of(h0);
            let l1 = self.level_of(h1);
            assert(self.is_head(h0) && self.is_head(h1));
            if l0 >= lv {
                h0
            } else if l1 >= lv {
                lemma_aligned_nested(h1, l1 as nat, a, lv, a + half);
                h1
            } else {
                lemma_aligned_nested(h0, lo, a, lo, a);
                lemma_aligned_nested(h1, lo, a + half, lo, a + half);
                assert(h0 == a && h1 == a + half);
                let ls = self.lists_view();
                assert(self.lists@[lo as int]@.contains(a as usize));
                assert(self.lists@[lo as int]@.contains((a + half) as usize));
                assert(ls[lo as int].contains(a as usize));
                assert(can_merge(ls, a, lo as int, self.cnt()));
                assert(false);
                h0
            }
        }
    }

    /// Page `h` heads a free block of level `l` in `s`, and `t` has the same
    /// pages and the same allocated blocks: then `h` heads a free block of
    /// level `l` in `t` too.
    proof fn lemma_free_block_carries_over(s: Single, t: Single, l: int, h: usize)
        requires
            s.wf(),
            t.wf(),
            fully_merged(s.lists_view(), s.cnt()),
            fully_merged(t.lists_view(), t.cnt()),
            s.cnt() == t.cnt(),
            s.allocated_set() == t.allocated_set(),
            forall|g: int| #[trigger] s.allocated_set().contains(g) ==> s.level_of(g) == t.level_of(g),
            0 <= l < MAX_HEIGHT,
            s.lists_view()[l].contains(h),
        ensures
            t.lists_view()[l].contains(h),
    {
        let hi = h as int;
        assert(s.lists@[l]@.contains(h));
        assert(s.is_head(hi));
        lemma_pow2_pos(l as nat);
        assert forall|g: int| #[trigger] t.allocated@.contains(g) implies g + pow2(t.level_of(g) as nat)
            <= hi || hi + pow2(l as nat) <= g by {
            assert(s.allocated@.contains(g));
            assert(s.is_head(g));
        }
        let g = t.lemma_clear_block_is_free(hi, l as nat);
        let m = t.level_of(g);
        assert(t.is_head(g));
        lemma_aligned_nested(g, m as nat, hi, l as nat, hi);
        lemma_pow2_pos(m as nat);
        assert forall|g2: int| #[trigger] s.allocated@.contains(g2) implies g2 + pow2(s.level_of(g2) as nat)
            <= g || g + pow2(m as nat) <= g2 by {
            assert(t.allocated@.contains(g2));
            assert(t.is_head(g2));
        }
        let g1 = s.lemma_clear_block_is_free(g, m as nat);
        let m1 = s.level_of(g1);
        assert(s.is_head(g1));
        lemma_aligned_nested(g1, m1 as nat, g, m as nat, g);
        if g1 != hi {
            assert(s.is_head(g1) && s.is_head(hi));
            assert(false);
        }
        assert(g == hi);
        assert(t.lists@[l]@.contains(h));
    }

    /// What is free in a fully merged region depends only on what is allocated:
    /// two such regions over the same pages, with the same blocks allocated at
    /// the same levels, hold the same free blocks on each list.
    pub proof fn lemma_free_blocks_determined(s: Single, t: Single)
        requires
            s.wf(),
            t.wf(),
            fully_merged(s.lists_view(), s.cnt()),
            fully_merged(t.lists_view(), t.cnt()),
            s.cnt() == t.cnt(),
            s.allocated_set() == t.allocated_set(),
            forall|g: int| #[trigger] s.allocated_set().contains(g) ==> s.level_of(g) == t.level_of(g),
        ensures
            s.lists_view().len() == t.lists_view().len(),
            forall|l: int, h: usize|
                0 <= l < s.lists_view().len() ==> (#[trigger] s.lists_view()[l].contains(h)
                    <==> t.lists_view()[l].contains(h)),
            forall|req: int| 0 <= req ==> (#[trigger] no_free_block_from(s, req) <==> no_free_block_from(t, req)),
            forall|l: int| 0 <= l < s.lists_view().len() ==> #[trigger] s.lists_view()[l].len() == t.lists_view()[l].len(),
    {
        assert forall|l: int, h: usize| 0 <= l < s.lists_view().len() implies (#[trigger] s.lists_view()[
            l].contains(h) <==> t.lists_view()[l].contains(h)) by {
            if s.lists_view()[l].contains(h) {
                Single::lemma_free_block_carries_over(s, t, l, h);
            }
            if t.lists_view()[l].contains(h) {
                Single::lemma_free_block_carries_over(t, s, l, h);
            }
        }
        s.lemma_lists_sound();
        t.lemma_lists_sound();
        assert forall|l: int| 0 <= l < s.lists_view().len() implies #[trigger] s.lists_view()[l].len() == t.lists_view()[l].len() by {
            let a = s.lists_view()[l];
            let b = t.lists_view()[l];
            assert(merge::lists_sound(s.lists_view(), s.cnt()) && merge::lists_sound(t.lists_view(), t.cnt()));
            assert(0 <= l < 32);
            assert(a.no_duplicates() && b.no_duplicates());
            assert(a.to_set() =~= b.to_set()) by {
                assert forall|h: usize| a.to_set().contains(h) <==> b.to_set().contains(h) by {
                    assert(a.contains(h) <==> b.contains(h));
                }
            }
            a.unique_seq_to_set();
            b.unique_seq_to_set();
        }
        assert forall|req: int| 0 <= req implies (#[trigger] no_free_block_from(s, req) <==> no_free_block_from(t, req)) by {
            if no_free_block_from(s, req) {
                Single::lemma_no_free_carries_over(s, t, req);
            }
            if no_free_block_from(t, req) {
                Single::lemma_no_free_carries_over(t, s, req);
            }
        }
    }

    /// A region has no free block at or above level `req` exactly when its
    /// lists from `req` up are all empty: no list at or above its height holds one.
    pub proof fn lemma_no_free_block_from_lists(&self, req: int)
        requires
            self.wf(),
            0 <= req,
        ensures
            self.lists_view().len() == MAX_HEIGHT,
            no_free_block_from(*self, req) <==> forall|l: int|
                req <= l < MAX_HEIGHT ==> #[trigger] self.lists_view()[l].len() == 0,
    {
        assert forall|l: int| self.spec_height() <= l < MAX_HEIGHT implies #[trigger] self.lists_view()[l].len() == 0 by {
            if self.lists_view()[l].len() > 0 {
                let x = self.lists_view()[l][0];
                assert(self.lists_view()[l].contains(x));
                assert(self.lists@[l]@.contains(x));
                assert(self.is_head(x as int));
            }
        }
    }

    /// Two regions whose free lists are equally long, level by level, both have
    /// or both lack a free block at or above `req`.
    pub proof fn lemma_region_answers_alike(s: Single, t: Single, req: int)
        requires
            s.wf(),
            t.wf(),
            0 <= req,
            forall|l: int|
                0 <= l < MAX_HEIGHT ==> #[trigger] s.lists_view()[l].len() == t.lists_view()[l].len(),
        ensures
            no_free_block_from(s, req) <==> no_free_block_from(t, req),
    {
        s.lemma_no_free_block_from_lists(req);
        t.lemma_no_free_block_from_lists(req);
        if no_free_block_from(s, req) {
            assert forall|l: int| req <= l < MAX_HEIGHT implies #[trigger] t.lists_view()[l].len() == 0 by {
                assert(s.lists_view()[l].len() == 0);
            }
        }
        if no_free_block_from(t, req) {
            assert forall|l: int| req <= l < MAX_HEIGHT implies #[trigger] s.lists_view()[l].len() == 0 by {
                assert(t.lists_view()[l].len() == 0);
            }
        }
    }

    /// A request of `req` on a region with no free block above `req` takes the
    /// first block of list `req` whole: that list loses its first entry and no
    /// other list changes.
    pub proof fn lemma_top_request_takes_first(old: Single, new: Single, req: int, addr: u64)
        requires
            old.wf(),
            0 <= req,
            no_free_block_from(old, req + 1),
            allocated_from(old, new, req, addr),
        ensures
            old.lists_view()[req].len() > 0,
            !no_free_block_from(old, req),
            new.lists_view().len() == old.lists_view().len(),
            forall|l: int|
                0 <= l < MAX_HEIGHT ==> #[trigger] new.lists_view()[l].len() == if l == req {
                    old.lists_view()[l].len() - 1
                } else {
                    old.lists_view()[l].len() as int
                },
    {
        let lvl = choose|lvl: int|
            {
                &&& req <= lvl < old.spec_height()
                &&& #[trigger] old.lists_view()[lvl].len() > 0
                &&& forall|l: int| req <= l < lvl ==> #[trigger] old.lists_view()[l].len() == 0
                &&& {
                    let n = old.lists_view()[lvl][0] as int;
                    &&& addr == old.page_addr(n)
                    &&& new.lists_view() == split_lists(old.lists_view(), n, lvl, req)
                    &&& new.allocated_set() == old.allocated_set().insert(n)
                    &&& new.level_of(n) == req
                }
            };
        if lvl > req {
            assert(old.lists_view()[lvl].len() == 0);
        }
        old.lemma_lists_sound();
    }

    /// With the same free blocks on each list, a region with no free block at
    /// or above `req` makes another one with none either.
    proof fn lemma_no_free_carries_over(s: Single, t: Single, req: int)
        requires
            s.wf(),
            t.wf(),
            forall|l: int, h: usize|
                0 <= l < s.lists_view().len() ==> (#[trigger] s.lists_view()[l].contains(h)
                    <==> t.lists_view()[l].contains(h)),
            0 <= req,
            no_free_block_from(s, req),
        ensures
            no_free_block_from(t, req),
    {
        assert forall|l: int| req <= l < t.spec_height() implies #[trigger] t.lists_view()[l].len() == 0 by {
            if t.lists_view()[l].len() > 0 {
                let x = t.lists_view()[l][0];
                assert(s.lists_view().len() == MAX_HEIGHT && t.spec_height() < MAX_HEIGHT);
                assert(t.lists_view()[l].contains(x));
                assert(s.lists_view()[l].contains(x));
                assert(s.lists@[l]@.contains(x));
                assert(s.is_head(x as int));
                assert(s.lists_view()[l].len() == 0);
            }
        }
    }

    /// The block a region hands out lies within the region and is allocated
    /// afterwards; it does not overlap any block that was allocated before,
    /// and those stay allocated.
    pub proof fn lemma_allocated_block(old: Single, new: Single, req: int, addr: u64)
        requires
            old.wf(),
            0 <= req,
            allocated_from(old, new, req, addr),
        ensures
            can_release(new, addr),
            addr + pow2(req as nat) * PAGE_BYTES <= old.spec_first_page() + old.cnt() * PAGE_BYTES,
            forall|q: u64| can_release(old, q) ==> q != addr && can_release(new, q),
            forall|q: u64|
                can_release(old, q) ==> addr + pow2(req as nat) * PAGE_BYTES <= q || q + pow2(
                    old.level_of(old.page_index(q)) as nat,
                ) * PAGE_BYTES <= addr,
    {
        let lvl = choose|lvl: int|
            {
                &&& req <= lvl < old.spec_height()
                &&& #[trigger] old.lists_view()[lvl].len() > 0
                &&& forall|l: int| req <= l < lvl ==> #[trigger] old.lists_view()[l].len() == 0
                &&& {
                    let n = old.lists_view()[lvl][0] as int;
                    &&& addr == old.page_addr(n)
                    &&& new.lists_view() == split_lists(old.lists_view(), n, lvl, req)
                    &&& new.allocated_set() == old.allocated_set().insert(n)
                    &&& new.level_of(n) == req
                }
            };
        let n = old.lists_view()[lvl][0];
        assert(old.lists@[lvl]@.contains(n));
        old.lemma_free_page(n as int);
        assert(!old.allocated@.contains(n as int));
        assert(new.page_index(addr) == n) by {
            lemma_fundamental_div_mod_converse(addr - old.spec_first_page(), PAGE_BYTES as int, n as int, 0);
        }
        assert((addr - new.spec_first_page()) % (PAGE_BYTES as int) == 0) by {
            lemma_fundamental_div_mod_converse(addr - old.spec_first_page(), PAGE_BYTES as int, n as int, 0);
        }
        assert forall|q: u64| can_release(old, q) implies q != addr && can_release(new, q) by {
            assert(old.allocated@.contains(old.page_index(q)));
        }
        let ni = n as int;
        let lvl_n = old.level_of(ni);
        vstd::arithmetic::power2::lemma_pow2_pos(req as nat);
        if req < lvl_n {
            lemma_pow2_strictly_increases(req as nat, lvl_n as nat);
        }
        let small = pow2(req as nat) as int;
        let big = pow2(lvl_n as nat) as int;
        assert(small <= big);
        assert(ni + big <= old.cnt());
        assert(addr == old.spec_first_page() + ni * PAGE_BYTES);
        assert(addr + small * PAGE_BYTES <= old.spec_first_page() + old.cnt() * PAGE_BYTES) by (nonlinear_arith)
            requires
                addr == old.spec_first_page() + ni * PAGE_BYTES,
                ni + small <= old.cnt(),
        ;
        assert forall|q: u64| can_release(old, q) implies addr + small * PAGE_BYTES <= q || q + pow2(
            old.level_of(old.page_index(q)) as nat,
        ) * PAGE_BYTES <= addr by {
            let m = old.page_index(q);
            assert(old.allocated@.contains(m));
            assert(old.is_head(m));
            assert(old.is_head(ni));
            assert(m != ni);
            let lm = pow2(old.level_of(m) as nat) as int;
            assert(ni + big <= m || m + lm <= ni);
            lemma_fundamental_div_mod((q - old.first_page) as int, PAGE_BYTES as int);
            assert(q == old.first_page + m * PAGE_BYTES);
            assert(addr + small * PAGE_BYTES <= q || q + lm * PAGE_BYTES <= addr) by (nonlinear_arith)
                requires
                    q == old.first_page + m * PAGE_BYTES,
                    addr == old.first_page + ni * PAGE_BYTES,
                    ni + big <= m || m + lm <= ni,
                    small <= big,
            ;
        }
    }

    /// Before the first round every free block is of level 0.
    proof fn lemma_init_start(&self)
        requires
            self.wf(),
            forall|q: int| 0 <= q < self.cnt() ==> self.level_of(q) == 0,
        ensures
            init_merged(self.lists_view(), 0, 0, self.cnt()),
            levels_below(self.lists_view(), 0, 0),
    {
        let ls = self.lists_view();
        assert forall|l: int, x: usize| 0 <= l < ls.len() && #[trigger] ls[l].contains(x) implies l == 0 by {
            assert(self.lists@[l]@.contains(x));
        }
        assert forall|l: int, x: usize| 0 <= l < ls.len() && #[trigger] ls[l].contains(x) && can_merge(ls, x as int, l, self.cnt()) implies (l == 0
            && min_int(x as int, buddy_index(x as int, l as nat)) >= 0) || l == 1 by {
            assert(l == 0);
            merge::lemma_buddy_involution(x as int, 0);
        }
    }

    /// Passing a position whose pair cannot merge.
    proof fn lemma_init_skip(&self, i: int, j: int)
        requires
            self.wf(),
            0 <= i < self.spec_height(),
            j >= 0,
            j % (pow2((i + 1) as nat) as int) == 0,
            init_merged(self.lists_view(), i, j, self.cnt()),
            levels_below(self.lists_view(), i, j),
            !(self.lists_view()[i].contains(j as usize) && can_merge(self.lists_view(), j, i, self.cnt())),
            j < self.cnt(),
        ensures
            init_merged(self.lists_view(), i, j + pow2((i + 1) as nat), self.cnt()),
            levels_below(self.lists_view(), i, j + pow2((i + 1) as nat)),
    {
        let ls = self.lists_view();
        let p = pow2((i + 1) as nat) as int;
        lemma_pow2_pos((i + 1) as nat);
        lemma_pow2_unfold((i + 1) as nat);
        assert forall|l: int, x: usize| 0 <= l < ls.len() && #[trigger] ls[l].contains(x) && can_merge(ls, x as int, l, self.cnt()) implies (l == i
            && min_int(x as int, buddy_index(x as int, l as nat)) >= j + p) || l == i + 1 by {
            if l == i {
                let bx = buddy_index(x as int, l as nat);
                let mn = min_int(x as int, bx);
                assert(self.lists@[l]@.contains(x));
                self.lemma_free_page(x as int);
                lemma_align_merge(x as int, l as nat);
                merge::lemma_buddy_involution(x as int, l as nat);
                if mn == j {
                    lemma_align_split(j, i as nat);
                    if x as int == j {
                        assert(false);
                    } else {
                        assert(bx == j);
                        assert(x as int == j + pow2(i as nat));
                        assert(ls[i].contains(j as usize));
                        assert(can_merge(ls, j, i, self.cnt()));
                    }
                }
                lemma_next_multiple(mn, j, p);
            }
        }
    }

    /// Merging the pair at position `j` in round `i`.
    proof fn lemma_init_merge(s: Single, t: Single, i: int, j: int)
        requires
            s.wf(),
            0 <= i < s.spec_height(),
            0 <= j < s.cnt(),
            j % (pow2((i + 1) as nat) as int) == 0,
            init_merged(s.lists_view(), i, j, s.cnt()),
            levels_below(s.lists_view(), i, j),
            !s.occupied_at(j),
            can_merge(s.lists_view(), j, s.level_of(j), s.cnt()),
            t.lists_view() == merge_step(s.lists_view(), j, s.level_of(j)),
            t.cnt() == s.cnt(),
        ensures
            init_merged(t.lists_view(), i, j + pow2((i + 1) as nat), t.cnt()),
            levels_below(t.lists_view(), i, j + pow2((i + 1) as nat)),
    {
        let ls = s.lists_view();
        let ns = t.lists_view();
        let cnt = s.cnt();
        let p = pow2((i + 1) as nat) as int;
        lemma_pow2_pos((i + 1) as nat);
        lemma_pow2_unfold((i + 1) as nat);
        s.lemma_free_page(j);
        let lj = s.level_of(j);
        assert(ls[lj].contains(j as usize));
        // the pair at j merges on level i
        assert(lj == i) by {
            assert(lj <= i || (lj == i + 1 && j < j));
            if lj < i {
                assert(can_merge(ls, j, lj, cnt));
            }
        }
        lemma_align_split(j, i as nat);
        let b = j + pow2(i as nat);
        assert(buddy_index(j, i as nat) == b);
        merge::lemma_buddy_involution(j, i as nat);
        s.lemma_lists_sound();
        assert(ls[i].contains(b as usize));
        lemma_remove_value(ls[i], j as usize);
        assert(remove_value(ls[i], j as usize).contains(b as usize));
        lemma_remove_value(remove_value(ls[i], j as usize), b as usize);
        assert(ns[i] == remove_value(remove_value(ls[i], j as usize), b as usize));
        assert(ns[i + 1] == seq![j as usize] + ls[i + 1]);
        assert forall|l: int, x: usize| 0 <= l < 32 implies (#[trigger] ns[l].contains(x) <==> (if l == i {
            ls[i].contains(x) && x != j && x != b
        } else if l == i + 1 {
            x == j || ls[i + 1].contains(x)
        } else {
            ls[l].contains(x)
        })) by {
            if l == i {
                assert(remove_value(remove_value(ls[i], j as usize), b as usize).contains(x) <==> (remove_value(ls[i], j as usize).contains(x) && x != b as usize));
                assert(remove_value(ls[i], j as usize).contains(x) <==> (ls[i].contains(x) && x != j as usize));
            } else if l == i + 1 {
                let t1 = seq![j as usize] + ls[i + 1];
                let t0 = ls[i + 1];
                if t0.contains(x) {
                    let k = choose|k: int| 0 <= k < t0.len() && #[trigger] t0[k] == x;
                    assert(t1[k + 1] == x);
                }
                if x == j {
                    assert(t1[0] == x);
                }
                if t1.contains(x) && x != j {
                    let k = choose|k: int| 0 <= k < t1.len() && #[trigger] t1[k] == x;
                    assert(t0[k - 1] == x);
                }
            }
        }
        assert forall|l: int, x: usize| 0 <= l < ns.len() && #[trigger] ns[l].contains(x) && can_merge(ns, x as int, l, cnt) implies (l == i
            && min_int(x as int, buddy_index(x as int, l as nat)) >= j + p) || l == i + 1 by {
            let bx = buddy_index(x as int, l as nat);
            merge::lemma_buddy_involution(x as int, l as nat);
            if l == i {
                assert(ls[i].contains(x) && ls[i].contains(bx as usize));
                assert(can_merge(ls, x as int, l, cnt));
                s.lemma_free_page(x as int);
                lemma_align_merge(x as int, l as nat);
                let mn = min_int(x as int, bx);
                if mn == j {
                    assert(x as int == j || x as int == b);
                }
                lemma_next_multiple(mn, j, p);
            } else if l != i + 1 {
                assert(ls[l].contains(x));
                assert(ls[l].contains(bx as usize));
                assert(can_merge(ls, x as int, l, cnt));
            }
        }
        assert forall|l: int, x: usize| 0 <= l < ns.len() && #[trigger] ns[l].contains(x) implies l <= i || (l == i + 1 && x < j + p) by {
            if l == i + 1 && x != j {
                assert(ls[l].contains(x));
            }
        }
    }

    /// The end of a round.
    proof fn lemma_init_round_end(&self, i: int, j: int)
        requires
            self.wf(),
            j >= self.cnt(),
            init_merged(self.lists_view(), i, j, self.cnt()),
            levels_below(self.lists_view(), i, j),
        ensures
            init_merged(self.lists_view(), i + 1, 0, self.cnt()),
            levels_below(self.lists_view(), i + 1, 0),
    {
        let ls = self.lists_view();
        assert forall|l: int, x: usize| 0 <= l < ls.len() && #[trigger] ls[l].contains(x) && can_merge(ls, x as int, l, self.cnt()) implies (l == i + 1
            && min_int(x as int, buddy_index(x as int, l as nat)) >= 0) || l == i + 2 by {
            assert(self.lists@[l]@.contains(x));
            merge::lemma_buddy_involution(x as int, l as nat);
        }
    }

    /// After the last round no free block has a free buddy.
    proof fn lemma_init_done(&self)
        requires
            self.wf(),
            init_merged(self.lists_view(), self.spec_height(), 0, self.cnt()),
        ensures
            fully_merged(self.lists_view(), self.cnt()),
    {
        let ls = self.lists_view();
        assert forall|l: int, x: usize| 0 <= l < ls.len() && #[trigger] ls[l].contains(x) implies !can_merge(ls, x as int, l, self.cnt()) by {
            assert(self.lists@[l]@.contains(x));
            self.lemma_free_page(x as int);
        }
    }

    /// Merges the free block at `node` with its buddy if the buddy is a free
    /// block of the same level; returns the page that heads the merged block.
    fn go_up_once(&mut self, node: usize) -> (r: Option<usize>)
        requires
            old(self).wf(),
            node < old(self).cnt(),
            !old(self).occupied_at(node as int),
        ensures
            final(self).wf(),
            final(self).cnt() == old(self).cnt(),
            final(self).spec_height() == old(self).spec_height(),
            final(self).spec_first_page() == old(self).spec_first_page(),
            final(self).allocated_set() == old(self).allocated_set(),
            held_levels_kept(*old(self), *final(self)),
            ({
                let l = old(self).level_of(node as int);
                let ls = old(self).lists_view();
                if can_merge(ls, node as int, l, old(self).cnt()) {
                    &&& r == Some(min_int(node as int, buddy_index(node as int, l as nat)) as usize)
                    &&& final(self).lists_view() == merge_step(ls, node as int, l)
                    &&& final(self).level_of(r.unwrap() as int) == l + 1
                    &&& !final(self).occupied_at(r.unwrap() as int)
                    &&& r.unwrap() < final(self).cnt()
                    &&& l + 1 < old(self).spec_height()
                } else {
                    &&& r is None
                    &&& *final(self) == *old(self)
                }
            }),
    {
        let ghost s0 = *self;
        proof {
            s0.lemma_free_page(node as int);
        }
        let entry = *self.nodes[node].as_ref();
        let ghost l = entry.spec_level() as int;
        proof {
            lemma_buddy_xor(node, l as usize);
        }
        let buddy = entry.get_buddy();
        if buddy >= self.nodes.len() {
            return None;
        }
        proof {
            s0.lemma_buddy_facts(node as int, buddy as int);
        }
        let ready = self.nodes[buddy].as_ref().ready(&entry);
        if !ready {
            return None;
        }
        let level = entry.level();
        let major = if node < buddy {
            node
        } else {
            buddy
        };
        let minor = if node < buddy {
            buddy
        } else {
            node
        };
        proof {
            s0.lemma_merge_facts(node as int, buddy as int);
            s0.lists@[l].lemma_wf_facts(s0.nodes@);
            s0.lists@[l + 1].lemma_wf_facts(s0.nodes@);
            lemma_remove_value(s0.lists@[l]@, major);
            lemma_remove_value(remove_value(s0.lists@[l]@, major), minor);
        }
        self.lists[level].remove(&mut self.nodes, major);
        let ghost s1 = *self;
        self.lists[level].remove(&mut self.nodes, minor);
        let ghost s2 = *self;
        self.nodes[minor].as_mut().set_occupied();
        self.nodes[major].as_mut().set_level(level + 1);
        let ghost s3 = *self;
        proof {
            let k0 = s0.lists@[l]@;
            let k1 = s0.lists@[l + 1]@;
            assert forall|i: usize| i < s0.nodes@.len() && s0.lists@[l + 1]@.contains(i) implies #[trigger] s3.nodes@[i as int] == s0.nodes@[i as int] by {
                assert(!k0.contains(i));
                assert(i != major && i != minor);
                assert(!s1.lists@[l]@.contains(i));
            }
            s0.lists@[l + 1].lemma_frame(s0.nodes@, s3.nodes@);
            assert(!k1.contains(major));
        }
        self.lists[level + 1].insert(&mut self.nodes, major);
        proof {
            let lu = l as nat;
            let k0 = s0.lists@[l]@;
            let k1 = s0.lists@[l + 1]@;
            assert(s1.lists@[l]@ == remove_value(k0, major));
            assert(s2.lists@[l]@ == remove_value(remove_value(k0, major), minor));
            // objects: only `major` and `minor` change, and only in level / occupancy
            assert forall|i: int| 0 <= i < s0.cnt() && i != major && i != minor implies #[trigger] self.nodes@[i].obj() == s0.nodes@[i].obj() by {
                assert(s1.nodes@[i].obj() == s0.nodes@[i].obj());
                assert(s2.nodes@[i].obj() == s1.nodes@[i].obj());
                assert(s3.nodes@[i] == s2.nodes@[i]);
            }
            assert(self.nodes@[major as int].obj().spec_level() == (l + 1) as u16);
            assert(!self.nodes@[major as int].obj().spec_occupied());
            assert(self.nodes@[minor as int].obj().spec_occupied());
            assert(self.nodes@[major as int].obj().spec_num() == major);
            assert(self.nodes@[minor as int].obj().spec_num() == minor);
            // members of lists other than `l` keep their slots untouched until the insert
            assert forall|k: int, i: usize| 0 <= k < MAX_HEIGHT && k != l && #[trigger] s0.lists@[k]@.contains(i) implies s3.nodes@[i as int] == s0.nodes@[i as int] by {
                assert(!k0.contains(i));
                assert(i != major && i != minor);
                assert(!s1.lists@[l]@.contains(i));
            }
            // the lists other than l and l + 1
            assert forall|k: int| 0 <= k < MAX_HEIGHT implies #[trigger] self.lists@[k].wf(self.nodes@) by {
                if k == l + 1 {
                } else if k == l {
                    assert forall|i: usize| i < s2.nodes@.len() && s2.lists@[l]@.contains(i) implies #[trigger] self.nodes@[i as int] == s2.nodes@[i as int] by {
                        assert(k0.contains(i));
                        assert(!k1.contains(i));
                        assert(s3.lists@[l + 1]@ == k1);
                    }
                    s2.lists@[l].lemma_frame(s2.nodes@, self.nodes@);
                } else {
                    assert forall|i: usize| i < s0.nodes@.len() && s0.lists@[k]@.contains(i) implies #[trigger] self.nodes@[i as int] == s0.nodes@[i as int] by {
                        assert(!k1.contains(i));
                        assert(s3.lists@[l + 1]@ == k1);
                    }
                    s0.lists@[k].lemma_frame(s0.nodes@, self.nodes@);
                }
            }
            assert(self.lists_view() =~= merge_step(s0.lists_view(), node as int, l));
            let s4 = *self;
            let p = pow2(lu) as int;
            assert(s4.wf_shape()) by {
                assert forall|i: int| 0 <= i < s4.cnt() implies #[trigger] s4.nodes@[i].obj().spec_num() == i by {
                    if i != major && i != minor {
                        assert(s4.nodes@[i].obj() == s0.nodes@[i].obj());
                    }
                    assert(s0.nodes@[i].obj().spec_num() == i);
                }
            }
            assert(s4.wf_lists());
            assert(s4.wf_members()) by {
                assert forall|k: int, i: usize| 0 <= k < MAX_HEIGHT implies (#[trigger] s4.lists@[k]@.contains(i) <==> (i < s4.cnt()
                    && !s4.occupied_at(i as int) && s4.level_of(i as int) == k)) by {
                    assert(s0.lists@[k]@.contains(i) <==> (i < s0.cnt() && !s0.occupied_at(i as int) && s0.level_of(i as int) == k));
                    assert(s0.lists@[l]@.contains(i) <==> (i < s0.cnt() && !s0.occupied_at(i as int) && s0.level_of(i as int) == l));
                    if i < s0.cnt() && i != major && i != minor {
                        assert(s4.nodes@[i as int].obj() == s0.nodes@[i as int].obj());
                    }
                    assert(s4.level_of(major as int) == l + 1);
                    assert(s0.lists@[l]@.contains(major) && s0.lists@[l]@.contains(minor));
                    if k == l {
                        assert(s4.lists@[k]@ == remove_value(remove_value(k0, major), minor));
                        assert(remove_value(remove_value(k0, major), minor).contains(i) <==> (remove_value(k0, major).contains(i) && i != minor));
                        assert(remove_value(k0, major).contains(i) <==> (k0.contains(i) && i != major));
                    } else if k == l + 1 {
                        assert(s4.lists@[k]@ == seq![major] + k1);
                        assert((seq![major] + k1).contains(i) <==> (i == major || k1.contains(i))) by {
                            if k1.contains(i) {
                                let j = choose|j: int| 0 <= j < k1.len() && k1[j] == i;
                                assert((seq![major] + k1)[j + 1] == i);
                            }
                            if i == major {
                                assert((seq![major] + k1)[0] == i);
                            }
                        }
                    } else {
                        assert(s4.lists@[k]@ == s0.lists@[k]@);
                    }
                }
            }
            assert(s4.wf_allocated()) by {
                assert forall|i: int| #[trigger] s4.allocated@.contains(i) implies 0 <= i < s4.cnt() && s4.occupied_at(i) by {
                    assert(s0.allocated@.contains(i));
                    if i != major && i != minor {
                        assert(s4.nodes@[i].obj() == s0.nodes@[i].obj());
                    }
                }
            }
            assert forall|i: int| #[trigger] s4.is_head(i) && i != major implies s0.is_head(i) && s4.level_of(i) == s0.level_of(i) && i != minor by {
                if i != minor {
                    assert(s4.nodes@[i].obj() == s0.nodes@[i].obj());
                } else {
                    assert(!s0.allocated@.contains(i));
                }
            }
            assert(s4.wf_heads()) by {
                assert forall|i: int| #[trigger] s4.is_head(i) implies {
                    &&& s4.level_of(i) < s4.height
                    &&& i % (pow2(s4.level_of(i) as nat) as int) == 0
                    &&& i + pow2(s4.level_of(i) as nat) <= s4.cnt()
                } by {
                    if i != major {
                        assert(s0.is_head(i));
                    }
                }
            }
            assert(s4.wf_disjoint()) by {
                assert forall|i: int, j: int| s4.is_head(i) && s4.is_head(j) && i != j implies i + pow2(s4.level_of(i) as nat) <= j
                    || j + pow2(s4.level_of(j) as nat) <= i by {
                    assert(s0.is_head(major as int) && s0.is_head(minor as int));
                    if i == major as int {
                        assert(s0.is_head(j));
                    } else if j == major as int {
                        assert(s0.is_head(i));
                    } else {
                        assert(s0.is_head(i) && s0.is_head(j));
                    }
                }
            }
            assert(s4.wf_cover()) by {
                assert(s0.level_of(major as int) == l && s0.level_of(minor as int) == l) by {
                    assert(s0.lists@[l]@.contains(major) && s0.lists@[l]@.contains(minor));
                }
                assert(s4.is_head(major as int));
                assert forall|i: int| 0 <= i < s4.cnt() implies #[trigger] s4.covered(i) by {
                    assert(s0.covered(i));
                    let h = choose|h: int| #[trigger] s0.in_block(h, i);
                    if h == major as int || h == minor as int {
                        assert(s4.in_block(major as int, i));
                    } else {
                        assert(s4.nodes@[h].obj() == s0.nodes@[h].obj());
                        assert(s4.is_head(h));
                        assert(s4.in_block(h, i));
                    }
                }
            }
        }
        Some(self.nodes[major].as_ref().num())
    }
    /// Splits the free block at `node` (of level `l > 0`) into two free halves
    /// of level `l - 1`: `node` and its buddy, which join the front of list `l - 1`.
    fn go_down_once(&mut self, node: usize)
        requires
            old(self).wf(),
            node < old(self).cnt(),
            !old(self).occupied_at(node as int),
            old(self).level_of(node as int) > 0,
        ensures
            final(self).wf(),
            final(self).cnt() == old(self).cnt(),
            final(self).spec_height() == old(self).spec_height(),
            final(self).spec_first_page() == old(self).spec_first_page(),
            final(self).allocated_set() == old(self).allocated_set(),
            held_levels_kept(*old(self), *final(self)),
            ({
                let l = old(self).level_of(node as int);
                let ls = old(self).lists_view();
                let b = node + pow2((l - 1) as nat);
                &&& final(self).lists_view() == ls.update(l, remove_value(ls[l], node)).update(
                    l - 1,
                    seq![b as usize, node] + ls[l - 1],
                )
                &&& final(self).level_of(node as int) == l - 1
                &&& !final(self).occupied_at(node as int)
            }),
    {
        let ghost s0 = *self;
        proof {
            s0.lemma_free_page(node as int);
        }
        let entry = *self.nodes[node].as_ref();
        let level = entry.level();
        let ghost l = level as int;
        let ghost h = pow2((l - 1) as nat) as int;
        proof {
            lemma_buddy_xor(node, (l - 1) as usize);
            lemma_align_split(node as int, (l - 1) as nat);
            lemma_pow2_unfold(l as nat);
            lemma_pow2_pos((l - 1) as nat);
        }
        let buddy = entry.buddy_on_level(level - 1);
        proof {
            assert(buddy == node + h);
            assert(s0.is_head(node as int));
            if s0.is_head(buddy as int) {
                assert(false);
            }
            assert(s0.occupied_at(buddy as int));
            assert(!s0.allocated@.contains(buddy as int));
            s0.lists@[l].lemma_wf_facts(s0.nodes@);
            s0.lists@[l - 1].lemma_wf_facts(s0.nodes@);
            lemma_remove_value(s0.lists@[l]@, node);
            assert(s0.lists@[l]@.contains(node));
            assert(!s0.lists@[l - 1]@.contains(buddy));
            assert(!s0.lists@[l - 1]@.contains(node));
            assert(s0.nodes@[buddy as int].obj().spec_num() == buddy);
        }
        self.lists[level].remove(&mut self.nodes, node);
        let ghost s1 = *self;
        self.nodes[buddy].as_mut().set_free();
        self.nodes[node].as_mut().set_level(level - 1);
        self.nodes[buddy].as_mut().set_level(level - 1);
        let ghost s2 = *self;
        proof {
            let k0 = s0.lists@[l]@;
            let k1 = s0.lists@[l - 1]@;
            assert forall|i: usize| i < s0.nodes@.len() && s0.lists@[l - 1]@.contains(i) implies #[trigger] s2.nodes@[i as int] == s0.nodes@[i as int] by {
                assert(!k0.contains(i));
                assert(i != node && i != buddy);
            }
            s0.lists@[l - 1].lemma_frame(s0.nodes@, s2.nodes@);
        }
        self.lists[level - 1].insert(&mut self.nodes, node);
        let ghost s3 = *self;
        proof {
            assert(s3.lists@[l - 1]@ == seq![node] + s0.lists@[l - 1]@);
            assert(!s3.lists@[l - 1]@.contains(buddy)) by {
                let t = s3.lists@[l - 1]@;
                if t.contains(buddy) {
                    let j = choose|j: int| 0 <= j < t.len() && #[trigger] t[j] == buddy;
                    assert(j != 0);
                    assert(s0.lists@[l - 1]@[j - 1] == buddy);
                }
            }
        }
        self.lists[level - 1].insert(&mut self.nodes, buddy);
        proof {
            let k0 = s0.lists@[l]@;
            let k1 = s0.lists@[l - 1]@;
            let s4 = *self;
            assert(s4.lists@[l - 1]@ == seq![buddy, node] + k1);
            assert forall|i: int| 0 <= i < s0.cnt() && i != node && i != buddy implies #[trigger] s4.nodes@[i].obj() == s0.nodes@[i].obj() by {
                assert(s1.nodes@[i].obj() == s0.nodes@[i].obj());
                assert(s3.nodes@[i].obj() == s2.nodes@[i].obj());
            }
            assert(s4.level_of(node as int) == l - 1);
            assert(s4.level_of(buddy as int) == l - 1);
            assert(!s4.occupied_at(node as int) && !s4.occupied_at(buddy as int));
            assert(s4.nodes@[node as int].obj().spec_num() == node);
            assert(s4.nodes@[buddy as int].obj().spec_num() == buddy);
            assert forall|k: int| 0 <= k < MAX_HEIGHT implies #[trigger] s4.lists@[k].wf(s4.nodes@) by {
                if k == l - 1 {
                } else if k == l {
                    assert forall|i: usize| i < s1.nodes@.len() && s1.lists@[l]@.contains(i) implies #[trigger] s4.nodes@[i as int] == s1.nodes@[i as int] by {
                        assert(k0.contains(i));
                        assert(!k1.contains(i));
                        assert(i != node && i != buddy);
                    }
                    s1.lists@[l].lemma_frame(s1.nodes@, s4.nodes@);
                } else {
                    assert forall|i: usize| i < s0.nodes@.len() && s0.lists@[k]@.contains(i) implies #[trigger] s4.nodes@[i as int] == s0.nodes@[i as int] by {
                        assert(!k0.contains(i));
                        assert(!k1.contains(i));
                        assert(i != node && i != buddy);
                    }
                    s0.lists@[k].lemma_frame(s0.nodes@, s4.nodes@);
                }
            }
            assert(s4.lists_view() =~= s0.lists_view().update(l, remove_value(k0, node)).update(
                l - 1,
                seq![buddy, node] + k1,
            ));
            assert(s4.wf_shape()) by {
                assert forall|i: int| 0 <= i < s4.cnt() implies #[trigger] s4.nodes@[i].obj().spec_num() == i by {
                    if i != node && i != buddy {
                        assert(s4.nodes@[i].obj() == s0.nodes@[i].obj());
                    }
                    assert(s0.nodes@[i].obj().spec_num() == i);
                }
            }
            assert(s4.wf_members()) by {
                assert forall|k: int, i: usize| 0 <= k < MAX_HEIGHT implies (#[trigger] s4.lists@[k]@.contains(i) <==> (i < s4.cnt()
                    && !s4.occupied_at(i as int) && s4.level_of(i as int) == k)) by {
                    assert(s0.lists@[k]@.contains(i) <==> (i < s0.cnt() && !s0.occupied_at(i as int) && s0.level_of(i as int) == k));
                    if i < s0.cnt() && i != node && i != buddy {
                        assert(s4.nodes@[i as int].obj() == s0.nodes@[i as int].obj());
                    }
                    if k == l {
                        assert(s4.lists@[k]@ == remove_value(k0, node));
                        assert(remove_value(k0, node).contains(i) <==> (k0.contains(i) && i != node));
                    } else if k == l - 1 {
                        assert((seq![buddy, node] + k1).contains(i) <==> (i == buddy || i == node || k1.contains(i))) by {
                            if k1.contains(i) {
                                let j = choose|j: int| 0 <= j < k1.len() && k1[j] == i;
                                assert((seq![buddy, node] + k1)[j + 2] == i);
                            }
                            if i == buddy {
                                assert((seq![buddy, node] + k1)[0] == i);
                            }
                            if i == node {
                                assert((seq![buddy, node] + k1)[1] == i);
                            }
                        }
                    } else {
                        assert(s4.lists@[k]@ == s0.lists@[k]@);
                    }
                }
            }
            assert(s4.wf_allocated()) by {
                assert forall|i: int| #[trigger] s4.allocated@.contains(i) implies 0 <= i < s4.cnt() && s4.occupied_at(i) by {
                    assert(s0.allocated@.contains(i));
                    if i != node && i != buddy {
                        assert(s4.nodes@[i].obj() == s0.nodes@[i].obj());
                    }
                }
            }
            assert forall|i: int| #[trigger] s4.is_head(i) && i != node && i != buddy implies s0.is_head(i) && s4.level_of(i) == s0.level_of(i) by {
                assert(s4.nodes@[i].obj() == s0.nodes@[i].obj());
            }
            assert(s4.is_head(node as int) && s4.is_head(buddy as int));
            assert(s4.wf_heads()) by {
                assert forall|i: int| #[trigger] s4.is_head(i) implies {
                    &&& s4.level_of(i) < s4.height
                    &&& i % (pow2(s4.level_of(i) as nat) as int) == 0
                    &&& i + pow2(s4.level_of(i) as nat) <= s4.cnt()
                } by {
                    if i != node && i != buddy {
                        assert(s0.is_head(i));
                    }
                }
            }
            assert(s4.wf_disjoint()) by {
                assert forall|i: int, j: int| s4.is_head(i) && s4.is_head(j) && i != j implies i + pow2(s4.level_of(i) as nat) <= j
                    || j + pow2(s4.level_of(j) as nat) <= i by {
                    if i != node && i != buddy {
                        assert(s0.is_head(i));
                    }
                    if j != node && j != buddy {
                        assert(s0.is_head(j));
                    }
                    if (i == node || i == buddy) && j != node && j != buddy {
                        assert(s0.is_head(node as int));
                    }
                    if (j == node || j == buddy) && i != node && i != buddy {
                        assert(s0.is_head(node as int));
                    }
                }
            }
            assert(s4.wf_cover()) by {
                assert(s0.level_of(node as int) == l);
                assert forall|i: int| 0 <= i < s4.cnt() implies #[trigger] s4.covered(i) by {
                    assert(s0.covered(i));
                    let hd = choose|hd: int| #[trigger] s0.in_block(hd, i);
                    if hd == node as int {
                        if i < buddy {
                            assert(s4.in_block(node as int, i));
                        } else {
                            assert(s4.in_block(buddy as int, i));
                        }
                    } else {
                        assert(hd != buddy as int);
                        assert(s4.nodes@[hd].obj() == s0.nodes@[hd].obj());
                        assert(s4.is_head(hd));
                        assert(s4.in_block(hd, i));
                    }
                }
            }
        }
    }
    /// Splits the free block at `node` until it is of level `req_level`.
    fn down_to_level(&mut self, node: usize, req_level: usize)
        requires
            old(self).wf(),
            node < old(self).cnt(),
            !old(self).occupied_at(node as int),
            req_level <= old(self).level_of(node as int),
        ensures
            final(self).wf(),
            final(self).cnt() == old(self).cnt(),
            final(self).spec_height() == old(self).spec_height(),
            final(self).spec_first_page() == old(self).spec_first_page(),
            final(self).allocated_set() == old(self).allocated_set(),
            held_levels_kept(*old(self), *final(self)),
            final(self).lists_view() == down_lists(
                old(self).lists_view(),
                node as int,
                old(self).level_of(node as int),
                req_level as int,
            ),
            final(self).level_of(node as int) == req_level,
            !final(self).occupied_at(node as int),
    {
        let ghost ls0 = self.lists_view();
        let ghost top = self.level_of(node as int);
        proof {
            assert(down_lists(ls0, node as int, top, top) =~= ls0);
        }
        while self.nodes[node].as_ref().level() > req_level
            invariant
                self.wf(),
                node < self.cnt(),
                self.cnt() == old(self).cnt(),
                self.spec_height() == old(self).spec_height(),
                self.spec_first_page() == old(self).spec_first_page(),
                self.allocated_set() == old(self).allocated_set(),
                held_levels_kept(*old(self), *self),
                !self.occupied_at(node as int),
                req_level <= self.level_of(node as int) <= top,
                ls0 == old(self).lists_view(),
                ls0.len() == MAX_HEIGHT,
                top == old(self).level_of(node as int),
                self.lists_view() == down_lists(ls0, node as int, top, self.level_of(node as int)),
            decreases self.level_of(node as int),
        {
            let ghost cur = self.level_of(node as int);
            let ghost before = *self;
            proof {
                before.lemma_free_page(node as int);
            }
            self.go_down_once(node);
            proof {
                let ls1 = before.lists_view();
                lemma_pow2_pos((cur - 1) as nat);
                if cur < top {
                    before.lists@[cur].lemma_wf_facts(before.nodes@);
                    assert(ls1[cur] == seq![(node + pow2(cur as nat)) as usize, node] + ls0[cur]);
                    lemma_remove_second((node + pow2(cur as nat)) as usize, node, ls0[cur]);
                } else {
                    assert(ls1[cur] == ls0[cur]);
                }
                assert(self.lists_view() =~= down_lists(ls0, node as int, top, cur - 1));
                assert forall|g: int| old(self).allocated_set().contains(g) && self.allocated_set().contains(g)
                    implies #[trigger] self.level_of(g) == old(self).level_of(g) by {
                    assert(before.allocated_set().contains(g));
                }
            }
        }
    }

    /// The address of page `node_num`.
    fn node_to_ptr(&self, node_num: usize) -> (r: u64)
        requires
            self.wf(),
            node_num <= self.cnt(),
        ensures
            r == self.page_addr(node_num as int),
    {
        self.first_page + (node_num as u64) * PAGE_BYTES
    }

    /// The page number of the page at address `ptr`.
    fn ptr_to_node(&self, ptr: u64) -> (r: usize)
        requires
            self.wf(),
            self.spec_first_page() <= ptr,
            (ptr - self.spec_first_page()) % (PAGE_BYTES as int) == 0,
            (ptr - self.spec_first_page()) / (PAGE_BYTES as int) < self.cnt(),
        ensures
            r == (ptr - self.spec_first_page()) / (PAGE_BYTES as int),
            self.page_addr(r as int) == ptr,
    {
        let diff = ptr - self.first_page;
        proof {
            lemma_fundamental_div_mod(diff as int, PAGE_BYTES as int);
        }
        (diff / 4096) as usize
    }

    /// Whether `ptr` lies in the region (the address just past the last page included).
    pub fn contains_addr(&self, ptr: u64) -> (r: bool)
        requires
            self.wf(),
        ensures
            r == (self.spec_first_page() <= ptr <= self.spec_first_page() + self.cnt() * PAGE_BYTES),
    {
        let addr = ptr;
        let begin = self.first_page;
        addr >= begin && addr <= begin + self.length
    }

    /// Allocates a block of `2^req_level` pages and returns the address of its
    /// first page. The block is cut from the first free block on the lowest
    /// non-empty list at or above `req_level`; `None` when there is none.
    pub fn allocate(&mut self, req_level: usize) -> (r: Option<u64>)
        requires
            old(self).wf(),
        ensures
            final(self).wf(),
            final(self).cnt() == old(self).cnt(),
            final(self).spec_height() == old(self).spec_height(),
            final(self).spec_first_page() == old(self).spec_first_page(),
            match r {
                None => *final(self) == *old(self) && no_free_block_from(*old(self), req_level as int),
                Some(addr) => allocated_from(*old(self), *final(self), req_level as int, addr),
            },
            fully_merged(old(self).lists_view(), old(self).cnt()) ==> fully_merged(
                final(self).lists_view(),
                final(self).cnt(),
            ),
    {
        let mut lvl = req_level;
        while lvl < self.height
            invariant
                self.wf(),
                *self == *old(self),
                req_level <= lvl,
                forall|l: int| req_level <= l < lvl ==> #[trigger] self.lists_view()[l].len() == 0,
            decreases self.height - lvl,
        {
            let first = self.lists[lvl].last(Ghost(self.nodes@));
            if let Some(num) = first {
                let ghost s0 = *self;
                let ghost ls0 = s0.lists_view();
                proof {
                    s0.lists@[lvl as int].lemma_wf_facts(s0.nodes@);
                    assert(ls0[lvl as int][0] == num);
                    assert(s0.lists@[lvl as int]@.contains(num));
                    s0.lemma_free_page(num as int);
                }
                self.down_to_level(num, req_level);
                let ghost s1 = *self;
                self.nodes[num].as_mut().set_occupied();
                let l = self.nodes[num].as_ref().level();
                let ghost s2 = *self;
                proof {
                    assert(s1.lists@[l as int].wf(s1.nodes@));
                    s1.lists@[l as int].lemma_wf_facts(s1.nodes@);
                    assert(s1.lists@[l as int]@.contains(num));
                    assert forall|i: usize| i < s1.nodes@.len() && s1.lists@[l as int]@.contains(i) implies #[trigger] s2.nodes@[i as int].next_link() == s1.nodes@[i as int].next_link() && s2.nodes@[i as int].prev_link() == s1.nodes@[i as int].prev_link() by {
                    }
                    s1.lists@[l as int].lemma_frame(s1.nodes@, s2.nodes@);
                }
                self.lists[l].remove(&mut self.nodes, num);
                self.allocated = Ghost(self.allocated@.insert(num as int));
                proof {
                    let s3 = *self;
                    let r = req_level as int;
                    let top = lvl as int;
                    let n = num as int;
                    assert(l == req_level);
                    assert forall|i: int| 0 <= i < s1.cnt() && i != n implies #[trigger] s3.nodes@[i].obj() == s1.nodes@[i].obj() by {
                        assert(s2.nodes@[i].obj() == s1.nodes@[i].obj());
                    }
                    assert(s3.nodes@[n].obj().spec_occupied());
                    assert(s3.nodes@[n].obj().spec_level() == s1.nodes@[n].obj().spec_level());
                    assert(s3.nodes@[n].obj().spec_num() == s1.nodes@[n].obj().spec_num());
                    // the free lists
                    lemma_remove_first(ls0[top]);
                    if r < top {
                        s1.lists@[r].lemma_wf_facts(s1.nodes@);
                        assert(s1.lists_view()[r] == seq![(n + pow2(r as nat)) as usize, num] + ls0[r]);
                        lemma_remove_second((n + pow2(r as nat)) as usize, num, ls0[r]);
                    }
                    assert(s1.lists_view() == down_lists(ls0, n, top, r));
                    assert(ls0.len() == MAX_HEIGHT);
                    assert forall|k: int| 0 <= k < MAX_HEIGHT implies #[trigger] s3.lists_view()[k] == split_lists(ls0, n, top, r)[k] by {
                        assert(s2.lists@[k] == s1.lists@[k]);
                        if k == r {
                            assert(s3.lists@[k]@ == remove_value(s1.lists@[r]@, num));
                            if r == top {
                                assert(s1.lists_view()[k] == ls0[top]);
                            }
                        } else {
                            assert(s3.lists@[k] == s1.lists@[k]);
                            assert(s3.lists_view()[k] == s1.lists_view()[k]);
                        }
                    }
                    assert(s3.lists_view() =~= split_lists(ls0, n, top, r));
                    // every other list keeps its slots' links
                    assert forall|k: int| 0 <= k < MAX_HEIGHT implies #[trigger] s3.lists@[k].wf(s3.nodes@) by {
                        if k != r {
                            assert forall|i: usize| i < s1.nodes@.len() && s1.lists@[k]@.contains(i) implies #[trigger] s3.nodes@[i as int].next_link() == s1.nodes@[i as int].next_link() && s3.nodes@[i as int].prev_link() == s1.nodes@[i as int].prev_link() by {
                                assert(!s2.lists@[r]@.contains(i));
                            }
                            s1.lists@[k].lemma_frame(s1.nodes@, s3.nodes@);
                        }
                    }
                    lemma_remove_value(s1.lists@[r]@, num);
                    assert(s3.wf_shape()) by {
                        assert forall|i: int| 0 <= i < s3.cnt() implies #[trigger] s3.nodes@[i].obj().spec_num() == i by {
                            assert(s1.nodes@[i].obj().spec_num() == i);
                        }
                    }
                    assert(s3.wf_members()) by {
                        assert forall|k: int, i: usize| 0 <= k < MAX_HEIGHT implies (#[trigger] s3.lists@[k]@.contains(i) <==> (i < s3.cnt()
                            && !s3.occupied_at(i as int) && s3.level_of(i as int) == k)) by {
                            assert(s1.lists@[k]@.contains(i) <==> (i < s1.cnt() && !s1.occupied_at(i as int) && s1.level_of(i as int) == k));
                            if k == r {
                                assert(s3.lists@[k]@ == remove_value(s1.lists@[r]@, num));
                            }
                        }
                    }
                    assert(s3.wf_allocated()) by {
                        assert forall|i: int| #[trigger] s3.allocated@.contains(i) implies 0 <= i < s3.cnt() && s3.occupied_at(i) by {
                            if i != n {
                                assert(s1.allocated@.contains(i));
                            }
                        }
                    }
                    assert forall|i: int| #[trigger] s3.is_head(i) <==> s1.is_head(i) by {
                        if i != n && s1.allocated@.contains(i) {
                            assert(s3.allocated@.contains(i));
                        }
                    }
                    assert(s3.wf_heads()) by {
                        assert forall|i: int| #[trigger] s3.is_head(i) implies {
                            &&& s3.level_of(i) < s3.height
                            &&& i % (pow2(s3.level_of(i) as nat) as int) == 0
                            &&& i + pow2(s3.level_of(i) as nat) <= s3.cnt()
                        } by {
                            assert(s1.is_head(i));
                        }
                    }
                    assert(s3.wf_disjoint()) by {
                        assert forall|i: int, j: int| s3.is_head(i) && s3.is_head(j) && i != j implies i + pow2(s3.level_of(i) as nat) <= j
                            || j + pow2(s3.level_of(j) as nat) <= i by {
                            assert(s1.is_head(i) && s1.is_head(j));
                        }
                    }
                    assert forall|h: int| s1.is_head(h) implies #[trigger] s3.level_of(h) == s1.level_of(h) by {
                        if h != n {
                            assert(s3.nodes@[h].obj() == s1.nodes@[h].obj());
                        }
                    }
                    Single::lemma_cover_same_heads(s1, s3);
                }
                let addr = self.node_to_ptr(num);
                proof {
                    assert(self.is_head(num as int));
                    if fully_merged(s0.lists_view(), s0.cnt()) {
                        assert(allocated_from(s0, *self, req_level as int, addr));
                        Single::lemma_allocate_keeps_merged(s0, *self, req_level as int, addr);
                    }
                }
                return Some(addr);
            }
            lvl += 1;
        }
        None
    }
    /// Releases the allocated block whose first page is at `ptr`, then merges
    /// it with its buddy for as long as the buddy is a free block of the same level.
    pub fn deallocate(&mut self, ptr: u64)
        requires
            old(self).wf(),
            can_release(*old(self), ptr),
        ensures
            final(self).wf(),
            final(self).cnt() == old(self).cnt(),
            final(self).spec_height() == old(self).spec_height(),
            final(self).spec_first_page() == old(self).spec_first_page(),
            released_from(*old(self), *final(self), ptr),
            fully_merged(old(self).lists_view(), old(self).cnt()) ==> fully_merged(
                final(self).lists_view(),
                final(self).cnt(),
            ),
    {
        let ghost s0 = *self;
        let mut num = self.ptr_to_node(ptr);
        let ghost n = num as int;
        proof {
            assert(s0.is_head(n));
            assert(s0.occupied_at(n));
            assert(s0.level_of(n) < s0.height);
            s0.lists@[s0.level_of(n)].lemma_wf_facts(s0.nodes@);
            assert(!s0.lists@[s0.level_of(n)]@.contains(num));
        }
        self.nodes[num].as_mut().set_free();
        let lvl = self.nodes[num].as_ref().level();
        let ghost s1 = *self;
        proof {
            assert forall|i: usize| i < s0.nodes@.len() && s0.lists@[lvl as int]@.contains(i) implies #[trigger] s1.nodes@[i as int].next_link() == s0.nodes@[i as int].next_link() && s1.nodes@[i as int].prev_link() == s0.nodes@[i as int].prev_link() by {
            }
            s0.lists@[lvl as int].lemma_frame(s0.nodes@, s1.nodes@);
        }
        self.lists[lvl].insert(&mut self.nodes, num);
        self.allocated = Ghost(self.allocated@.remove(num as int));
        let ghost target = release_lists(s0.lists_view(), n, s0.level_of(n), s0.cnt());
        proof {
            let s2 = *self;
            let l = lvl as int;
            assert forall|i: int| 0 <= i < s0.cnt() && i != n implies #[trigger] s2.nodes@[i].obj() == s0.nodes@[i].obj() by {
                assert(s1.nodes@[i].obj() == s0.nodes@[i].obj());
            }
            assert(s2.lists@[l]@ == seq![num] + s0.lists@[l]@);
            assert forall|k: int| 0 <= k < MAX_HEIGHT implies #[trigger] s2.lists@[k].wf(s2.nodes@) by {
                if k != l {
                    assert forall|i: usize| i < s0.nodes@.len() && s0.lists@[k]@.contains(i) implies #[trigger] s2.nodes@[i as int].next_link() == s0.nodes@[i as int].next_link() && s2.nodes@[i as int].prev_link() == s0.nodes@[i as int].prev_link() by {
                        assert(!s0.lists@[l]@.contains(i));
                        assert(i != num);
                    }
                    s0.lists@[k].lemma_frame(s0.nodes@, s2.nodes@);
                }
            }
            assert(s2.lists_view() =~= s0.lists_view().update(l, seq![num] + s0.lists_view()[l]));
            assert(s2.wf_shape()) by {
                assert forall|i: int| 0 <= i < s2.cnt() implies #[trigger] s2.nodes@[i].obj().spec_num() == i by {
                    assert(s0.nodes@[i].obj().spec_num() == i);
                }
            }
            assert(s2.wf_members()) by {
                assert forall|k: int, i: usize| 0 <= k < MAX_HEIGHT implies (#[trigger] s2.lists@[k]@.contains(i) <==> (i < s2.cnt()
                    && !s2.occupied_at(i as int) && s2.level_of(i as int) == k)) by {
                    assert(s0.lists@[k]@.contains(i) <==> (i < s0.cnt() && !s0.occupied_at(i as int) && s0.level_of(i as int) == k));
                    if k == l {
                        let t = s0.lists@[l]@;
                        assert((seq![num] + t).contains(i) <==> (i == num || t.contains(i))) by {
                            if t.contains(i) {
                                let j = choose|j: int| 0 <= j < t.len() && #[trigger] t[j] == i;
                                assert((seq![num] + t)[j + 1] == i);
                            }
                            if i == num {
                                assert((seq![num] + t)[0] == i);
                            }
                        }
                    }
                }
            }
            assert(s2.wf_allocated()) by {
                assert forall|i: int| #[trigger] s2.allocated@.contains(i) implies 0 <= i < s2.cnt() && s2.occupied_at(i) by {
                    assert(s0.allocated@.contains(i));
                }
            }
            assert forall|i: int| #[trigger] s2.is_head(i) <==> s0.is_head(i) by {
                if i != n && s0.allocated@.contains(i) {
                    assert(s2.allocated@.contains(i));
                }
            }
            assert(s2.wf_heads()) by {
                assert forall|i: int| #[trigger] s2.is_head(i) implies {
                    &&& s2.level_of(i) < s2.height
                    &&& i % (pow2(s2.level_of(i) as nat) as int) == 0
                    &&& i + pow2(s2.level_of(i) as nat) <= s2.cnt()
                } by {
                    assert(s0.is_head(i));
                }
            }
            assert(s2.wf_disjoint()) by {
                assert forall|i: int, j: int| s2.is_head(i) && s2.is_head(j) && i != j implies i + pow2(s2.level_of(i) as nat) <= j
                    || j + pow2(s2.level_of(j) as nat) <= i by {
                    assert(s0.is_head(i) && s0.is_head(j));
                }
            }
            assert forall|h: int| s0.is_head(h) implies #[trigger] s2.level_of(h) == s0.level_of(h) by {
                if h != n {
                    assert(s2.nodes@[h].obj() == s0.nodes@[h].obj());
                }
            }
            Single::lemma_cover_same_heads(s0, s2);
            assert forall|g: int| s0.allocated_set().contains(g) && s2.allocated_set().contains(g)
                implies #[trigger] s2.level_of(g) == s0.level_of(g) by {
                assert(g != n);
                assert(s2.nodes@[g].obj() == s0.nodes@[g].obj());
            }
        }
        loop
            invariant
                self.wf(),
                self.cnt() == s0.cnt(),
                self.spec_height() == s0.spec_height(),
                self.spec_first_page() == s0.spec_first_page(),
                self.allocated_set() == s0.allocated_set().remove(n),
                held_levels_kept(s0, *self),
                num < self.cnt(),
                !self.occupied_at(num as int),
                coalesce(self.lists_view(), num as int, self.level_of(num as int), self.cnt())
                    == target,
            ensures
                self.wf(),
                self.cnt() == s0.cnt(),
                self.spec_height() == s0.spec_height(),
                self.spec_first_page() == s0.spec_first_page(),
                self.allocated_set() == s0.allocated_set().remove(n),
                held_levels_kept(s0, *self),
                self.lists_view() == target,
            decreases 32 - self.level_of(num as int),
        {
            let ghost before = *self;
            proof {
                before.lemma_free_page(num as int);
            }
            match self.go_up_once(num) {
                Some(next) => {
                    proof {
                        assert forall|g: int| s0.allocated_set().contains(g) && self.allocated_set().contains(g)
                            implies #[trigger] self.level_of(g) == s0.level_of(g) by {
                            assert(before.allocated_set().contains(g));
                        }
                    }
                    num = next;
                },
                None => {
                    break ;
                },
            }
        }
        proof {
            if fully_merged(s0.lists_view(), s0.cnt()) {
                Single::lemma_release_keeps_merged(s0, *self, ptr);
            }
        }
    }
    /// A buddy region over the memory-map entry `entry`, with every page free and
    /// merged into blocks bottom-up; `None` if the entry is not usable memory or
    /// is too small.
    pub fn new(entry: &memory_map::Entry) -> (r: Option<Single>)
        requires
            entry.spec_start() + entry.spec_len() <= u64::MAX,
            region_usable(*entry) ==> entry.spec_start() + entry.spec_len() < PHYS_LIMIT,
            region_usable(*entry) ==> region_pages(*entry) < 0x8000_0000,
        ensures
            r is None <==> !region_usable(*entry),
            r matches Some(s) ==> fresh_region(s, *entry),
    {
        proof {
            crate::utility::lemma_round_up_facts(entry.spec_start() as int, PADDING as int);
            crate::utility::lemma_round_down_facts(entry.spec_start() + entry.spec_len(), PAGE_BYTES as int);
        }
        let end = round_down(entry.end(), PAGE_BYTES);
        if entry.start() > u64::MAX - MIN_SIZE - PADDING {
            // no region fits between such a start and the end of the address space
            return None;
        }
        let begin = round_up(entry.start(), PADDING);
        if !entry.is_available() || begin + MIN_SIZE > end {
            return None;
        }
        let pages_cnt64 = (end - begin - REGION_HEADER_BYTES) / (PAGE_BYTES + NODE_BYTES);
        proof {
            assert(pages_cnt64 >= 9);
        }
        let pages_cnt = pages_cnt64 as usize;
        let height = log2_floor(pages_cnt) + 1;
        proof {
            vstd::arithmetic::power2::lemma2_to64();
            if height > 31 {
                vstd::arithmetic::power2::lemma_pow2_strictly_increases(31, (height - 1) as nat);
            }
            assert(PAGE_BYTES * pages_cnt64 <= end) by (nonlinear_arith)
                requires
                    pages_cnt64 == (end - begin - REGION_HEADER_BYTES) / (PAGE_BYTES + NODE_BYTES),
                    begin + MIN_SIZE <= end,
            ;
        }
        let first_page = get_mut_ptr(end - PAGE_BYTES * pages_cnt64);
        let mut lists: Vec<InplaceList<Entry>> = Vec::new();
        let mut k: usize = 0;
        while k < MAX_HEIGHT
            invariant
                k <= MAX_HEIGHT,
                lists@.len() == k,
                forall|l: int| 0 <= l < k ==> #[trigger] lists@[l]@ == Seq::<usize>::empty(),
                forall|l: int, ns: Seq<Node<Entry>>| 0 <= l < k ==> #[trigger] lists@[l].wf(ns),
            decreases MAX_HEIGHT - k,
        {
            lists.push(InplaceList::new());
            k += 1;
        }
        let mut nodes: Vec<Node<Entry>> = Vec::new();
        let mut i: usize = 0;
        while i < pages_cnt
            invariant
                i <= pages_cnt,
                pages_cnt < 0x8000_0000,
                nodes@.len() == i,
                lists@.len() == MAX_HEIGHT,
                forall|q: int|
                    0 <= q < i ==> {
                        &&& (#[trigger] nodes@[q]).obj().spec_num() == q
                        &&& nodes@[q].obj().spec_level() == 0
                        &&& !nodes@[q].obj().spec_occupied()
                    },
                lists@[0]@ == Seq::new(i as nat, |q: int| (i - 1 - q) as usize),
                lists@[0].wf(nodes@),
                forall|l: int| 1 <= l < MAX_HEIGHT ==> #[trigger] lists@[l]@ == Seq::<usize>::empty(),
                forall|l: int| 1 <= l < MAX_HEIGHT ==> #[trigger] lists@[l].wf(nodes@),
            decreases pages_cnt - i,
        {
            let ghost before = nodes@;
            nodes.push(Node::new(Entry::new(i)));
            proof {
                assert forall|l: int| 0 <= l < MAX_HEIGHT implies #[trigger] lists@[l].wf(nodes@) by {
                    assert forall|x: usize| x < before.len() && lists@[l]@.contains(x) implies #[trigger] nodes@[x as int].next_link() == before[x as int].next_link() && nodes@[x as int].prev_link() == before[x as int].prev_link() by {
                        assert(nodes@[x as int] == before[x as int]);
                    }
                    lists@[l].lemma_frame(before, nodes@);
                }
                assert(!lists@[0]@.contains(i)) by {
                    if lists@[0]@.contains(i) {
                        let q = choose|q: int| 0 <= q < lists@[0]@.len() && #[trigger] lists@[0]@[q] == i;
                        assert(lists@[0]@[q] == (i - 1 - q) as usize);
                    }
                }
            }
            let ghost mid = nodes@;
            lists[0].insert(&mut nodes, i);
            proof {
                assert forall|l: int| 1 <= l < MAX_HEIGHT implies #[trigger] lists@[l].wf(nodes@) by {
                    assert forall|x: usize| x < mid.len() && lists@[l]@.contains(x) implies #[trigger] nodes@[x as int].next_link() == mid[x as int].next_link() && nodes@[x as int].prev_link() == mid[x as int].prev_link() by {
                    }
                    lists@[l].lemma_frame(mid, nodes@);
                }
                assert forall|q: int| 0 <= q < i + 1 implies {
                    &&& (#[trigger] nodes@[q]).obj().spec_num() == q
                    &&& nodes@[q].obj().spec_level() == 0
                    &&& !nodes@[q].obj().spec_occupied()
                } by {
                    assert(nodes@[q].obj() == mid[q].obj());
                }
                assert(lists@[0]@ =~= Seq::new((i + 1) as nat, |q: int| (i + 1 - 1 - q) as usize));
            }
            i += 1;
        }
        let mut it = Single {
            lists,
            height,
            nodes,
            first_page,
            length: pages_cnt64 * PAGE_BYTES,
            allocated: Ghost(Set::empty()),
        };
        proof {
            assert(it.wf_shape()) by {
                crate::utility::lemma_round_down_facts(entry.spec_start() + entry.spec_len(), PAGE_BYTES as int);
                let e = end as int;
                let c = pages_cnt64 as int;
                assert((e - 4096 * c + 0xffff_8000_0000_0000) % 4096 == 0) by (nonlinear_arith)
                    requires
                        e % 4096 == 0,
                ;
            }
            assert(it.wf_members()) by {
                assert forall|l: int, x: usize| 0 <= l < MAX_HEIGHT implies (#[trigger] it.lists@[l]@.contains(x) <==> (x < it.cnt()
                    && !it.occupied_at(x as int) && it.level_of(x as int) == l)) by {
                    if l == 0 && x < it.cnt() {
                        assert(it.lists@[0]@[pages_cnt - 1 - x] == x);
                    }
                }
            }
            assert(it.wf_heads()) by {
                assert forall|q: int| #[trigger] it.is_head(q) implies {
                    &&& it.level_of(q) < it.height
                    &&& q % (pow2(it.level_of(q) as nat) as int) == 0
                    &&& q + pow2(it.level_of(q) as nat) <= it.cnt()
                } by {
                    assert(pow2(0) == 1);
                }
            }
            assert(it.wf_disjoint()) by {
                assert(pow2(0) == 1);
            }
            assert(it.wf_cover()) by {
                assert(pow2(0) == 1);
                assert forall|q: int| 0 <= q < it.cnt() implies #[trigger] it.covered(q) by {
                    assert(it.in_block(q, q));
                }
            }
        }
        proof {
            it.lemma_init_start();
        }
        let mut lvl: usize = 0;
        while lvl < height
            invariant
                it.wf(),
                it.cnt() == pages_cnt,
                it.spec_height() == height,
                it.spec_first_page() == first_page,
                it.allocated_set() == Set::<int>::empty(),
                height <= 31,
                lvl <= height,
                pages_cnt64 == pages_cnt,
                pages_cnt < 0x8000_0000,
                init_merged(it.lists_view(), lvl as int, 0, it.cnt()),
                levels_below(it.lists_view(), lvl as int, 0),
            decreases height - lvl,
        {
            let step: u64 = 1u64 << (lvl as u64 + 1);
            proof {
                vstd::bits::lemma_u64_pow2_no_overflow((lvl + 1) as nat);
                vstd::bits::lemma_u64_shl_is_mul(1u64, (lvl + 1) as u64);
                vstd::arithmetic::power2::lemma2_to64();
                lemma_pow2_strictly_increases((lvl + 1) as nat, 32);
                lemma_pow2_pos((lvl + 1) as nat);
            }
            let mut j: u64 = 0;
            while j < pages_cnt64
                invariant
                    it.wf(),
                    it.cnt() == pages_cnt,
                    it.spec_height() == height,
                    it.spec_first_page() == first_page,
                    it.allocated_set() == Set::<int>::empty(),
                    pages_cnt64 == pages_cnt,
                    pages_cnt < 0x8000_0000,
                    lvl < height <= 31,
                    step == pow2((lvl + 1) as nat),
                    1 <= step <= 0x1_0000_0000,
                    j <= pages_cnt64 + step,
                    (j as int) % (step as int) == 0,
                    init_merged(it.lists_view(), lvl as int, j as int, it.cnt()),
                    levels_below(it.lists_view(), lvl as int, j as int),
                decreases pages_cnt64 + step - j,
            {
                let jj = j as usize;
                let ghost before = it;
                if it.nodes[jj].as_ref().is_free() {
                    let r = it.go_up_once(jj);
                    proof {
                        if r is Some {
                            Single::lemma_init_merge(before, it, lvl as int, j as int);
                        } else {
                            before.lemma_init_skip(lvl as int, j as int);
                        }
                    }
                } else {
                    proof {
                        before.lemma_init_skip(lvl as int, j as int);
                    }
                }
                proof {
                    let jq = (j as int) / (step as int);
                    lemma_fundamental_div_mod(j as int, step as int);
                    assert(j + step == (jq + 1) * step + 0) by (nonlinear_arith)
                        requires
                            j == step * jq + 0,
                    ;
                    lemma_fundamental_div_mod_converse(j + step, step as int, jq + 1, 0);
                }
                j = j + step;
            }
            proof {
                it.lemma_init_round_end(lvl as int, j as int);
            }
            lvl += 1;
        }
        proof {
            it.lemma_init_done();
            it.lemma_all_pages_free();
        }
        Some(it)
    }
}

} // verus!
