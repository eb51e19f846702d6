//! Facts about the free lists as sequences: splitting a block and merging it
//! back, and the state in which no free block has a free buddy.

use vstd::prelude::*;
use vstd::arithmetic::power2::{pow2, lemma_pow2_pos, lemma_pow2_unfold, lemma_pow2_adds};
use vstd::arithmetic::div_mod::{lemma_fundamental_div_mod, lemma_fundamental_div_mod_converse};
use super::{
    buddy_index,
    remove_value,
    min_int,
    max_int,
    can_merge,
    merge_step,
    coalesce,
    split_lists,
    release_lists,
    fully_merged,
};

verus! {

/// No page is on two lists, and no list holds a page twice.
pub open spec fn lists_sound(ls: Seq<Seq<usize>>, cnt: int) -> bool {
    &&& cnt <= 0x8000_0000
    &&& ls.len() == 32
    &&& forall|l: int| 0 <= l < 32 ==> (#[trigger] ls[l]).no_duplicates()
    &&& forall|l1: int, l2: int, x: usize|
        #![trigger ls[l1].contains(x), ls[l2].contains(x)]
        0 <= l1 < 32 && 0 <= l2 < 32 && ls[l1].contains(x) && ls[l2].contains(x) ==> l1 == l2
    &&& forall|l: int, x: usize| 0 <= l < 32 && #[trigger] ls[l].contains(x) ==> x < cnt
    &&& ls[31].len() == 0
}

/// Every free block that could merge is the block at `m` of level `k` or its buddy.
pub open spec fn merged_except(ls: Seq<Seq<usize>>, m: int, k: int, cnt: int) -> bool {
    forall|l: int, i: usize|
        #![trigger ls[l].contains(i)]
        0 <= l < 32 && ls[l].contains(i) && can_merge(ls, i as int, l, cnt) ==> l == k && (i == m
            || buddy_index(i as int, l as nat) == m)
}

/// Buddies pair up: the buddy of the buddy is the page itself.
pub proof fn lemma_buddy_involution(i: int, k: nat)
    requires
        i >= 0,
    ensures
        buddy_index(i, k) >= 0,
        buddy_index(i, k) != i,
        buddy_index(buddy_index(i, k), k) == i,
{
    lemma_pow2_pos(k);
    let p = pow2(k) as int;
    let q = i / p;
    let r = i % p;
    lemma_fundamental_div_mod(i, p);
    assert(i == q * p + r) by (nonlinear_arith)
        requires
            i == p * q + r,
    ;
    assert(q >= 0) by (nonlinear_arith)
        requires
            i == q * p + r,
            i >= 0,
            p > 0,
            0 <= r < p,
    ;
    if q % 2 == 0 {
        assert(i + p == (q + 1) * p + r) by (nonlinear_arith)
            requires
                i == q * p + r,
        ;
        lemma_fundamental_div_mod_converse(i + p, p, q + 1, r);
    } else {
        assert(i - p == (q - 1) * p + r) by (nonlinear_arith)
            requires
                i == q * p + r,
        ;
        assert(i - p >= 0) by (nonlinear_arith)
            requires
                i - p == (q - 1) * p + r,
                q >= 1,
                p > 0,
                r >= 0,
        ;
        lemma_fundamental_div_mod_converse(i - p, p, q - 1, r);
    }
}

/// A multiple of `2^a` is a multiple of `2^b` for `b <= a`.
pub proof fn lemma_aligned_lower(n: int, a: nat, b: nat)
    requires
        n % (pow2(a) as int) == 0,
        b <= a,
    ensures
        n % (pow2(b) as int) == 0,
{
    lemma_pow2_pos(a);
    lemma_pow2_pos(b);
    lemma_pow2_pos((a - b) as nat);
    lemma_pow2_adds((a - b) as nat, b);
    let pa = pow2(a) as int;
    let pb = pow2(b) as int;
    let pc = pow2((a - b) as nat) as int;
    lemma_fundamental_div_mod(n, pa);
    let q = n / pa;
    assert(n == (q * pc) * pb + 0) by (nonlinear_arith)
        requires
            n == pa * q + n % pa,
            n % pa == 0,
            pa == pc * pb,
    ;
    lemma_fundamental_div_mod_converse(n, pb, q * pc, 0);
}

/// Membership after removing a value from a list without duplicates.
proof fn lemma_remove_contains(s: Seq<usize>, x: usize)
    requires
        s.no_duplicates(),
        s.contains(x),
    ensures
        forall|y: usize| #[trigger] remove_value(s, x).contains(y) <==> (s.contains(y) && y != x),
        remove_value(s, x).no_duplicates(),
{
    super::lemma_remove_value(s, x);
}

/// Membership of a list with an element in front.
proof fn lemma_push_front_contains(x: usize, s: Seq<usize>)
    ensures
        forall|y: usize| #[trigger] (seq![x] + s).contains(y) <==> (y == x || s.contains(y)),
        !s.contains(x) && s.no_duplicates() ==> (seq![x] + s).no_duplicates(),
{
    let t = seq![x] + s;
    assert forall|y: usize| #[trigger] t.contains(y) <==> (y == x || s.contains(y)) by {
        if s.contains(y) {
            let j = choose|j: int| 0 <= j < s.len() && s[j] == y;
            assert(t[j + 1] == y);
        }
        if y == x {
            assert(t[0] == y);
        }
        if t.contains(y) && y != x {
            let j = choose|j: int| 0 <= j < t.len() && t[j] == y;
            assert(s[j - 1] == y);
        }
    }
    if !s.contains(x) && s.no_duplicates() {
        assert forall|i: int, j: int| 0 <= i < j < t.len() implies t[i] != t[j] by {
            if i == 0 {
                assert(s.contains(t[j]));
            }
        }
    }
}

/// One merge keeps the lists sound and the exceptional pair moves up with the merged block.
proof fn lemma_merge_step_sound(ls: Seq<Seq<usize>>, m: int, k: int, cnt: int)
    requires
        lists_sound(ls, cnt),
        merged_except(ls, m, k, cnt),
        0 <= k < 31,
        0 <= m < cnt,
        ls[k].contains(m as usize),
        can_merge(ls, m, k, cnt),
    ensures
        lists_sound(merge_step(ls, m, k), cnt) || k + 1 == 31,
        k + 1 < 31 ==> lists_sound(merge_step(ls, m, k), cnt),
        merged_except(merge_step(ls, m, k), min_int(m, buddy_index(m, k as nat)), k + 1, cnt),
        merge_step(ls, m, k)[k + 1].contains(min_int(m, buddy_index(m, k as nat)) as usize),
        0 <= min_int(m, buddy_index(m, k as nat)) < cnt,
        k + 1 == 31 ==> merge_step(ls, m, k)[31] == seq![min_int(m, buddy_index(m, k as nat)) as usize],
        forall|l: int| 0 <= l < 32 ==> (#[trigger] merge_step(ls, m, k)[l]).no_duplicates(),
        forall|l1: int, l2: int, x: usize|
            #![trigger merge_step(ls, m, k)[l1].contains(x), merge_step(ls, m, k)[l2].contains(x)]
            0 <= l1 < 32 && 0 <= l2 < 32 && merge_step(ls, m, k)[l1].contains(x) && merge_step(ls, m, k)[l2].contains(x) ==> l1 == l2,
        forall|l: int, x: usize| 0 <= l < 32 && #[trigger] merge_step(ls, m, k)[l].contains(x) ==> x < cnt,
{
    let b = buddy_index(m, k as nat);
    lemma_buddy_involution(m, k as nat);
    let major = min_int(m, b);
    let minor = max_int(m, b);
    let ns = merge_step(ls, m, k);
    assert(ls[k].contains(b as usize));
    assert(major != minor);
    lemma_remove_contains(ls[k], major as usize);
    assert(remove_value(ls[k], major as usize).contains(minor as usize));
    lemma_remove_contains(remove_value(ls[k], major as usize), minor as usize);
    lemma_push_front_contains(major as usize, ls[k + 1]);
    assert(!ls[k + 1].contains(major as usize)) by {
        if ls[k + 1].contains(major as usize) {
            assert(ls[k].contains(major as usize));
        }
    }
    assert(ns[k] == remove_value(remove_value(ls[k], major as usize), minor as usize));
    assert(ns[k + 1] == seq![major as usize] + ls[k + 1]);
    assert forall|l: int| 0 <= l < 32 && l != k && l != k + 1 implies #[trigger] ns[l] == ls[l] by {}
    assert forall|l: int, x: usize| 0 <= l < 32 implies (#[trigger] ns[l].contains(x) <==> (if l == k {
        ls[k].contains(x) && x != major && x != minor
    } else if l == k + 1 {
        x == major || ls[k + 1].contains(x)
    } else {
        ls[l].contains(x)
    })) by {
        if l == k {
            assert(remove_value(remove_value(ls[k], major as usize), minor as usize).contains(x) <==> (remove_value(ls[k], major as usize).contains(x) && x != minor as usize));
            assert(remove_value(ls[k], major as usize).contains(x) <==> (ls[k].contains(x) && x != major as usize));
        } else if l == k + 1 {
            assert((seq![major as usize] + ls[k + 1]).contains(x) <==> (x == major as usize || ls[k + 1].contains(x)));
        }
    }
    assert forall|l: int| 0 <= l < 32 implies (#[trigger] ns[l]).no_duplicates() by {}
    assert forall|l: int, i: usize|
        0 <= l < 32 && #[trigger] ns[l].contains(i) && can_merge(ns, i as int, l, cnt) implies l == k + 1 && (i == major
            || buddy_index(i as int, l as nat) == major) by {
        let bi = buddy_index(i as int, l as nat);
        lemma_buddy_involution(i as int, l as nat);
        assert(ns[l].contains(bi as usize));
        if l == k {
            assert(ls[k].contains(i));
            assert(ls[k].contains(bi as usize));
            assert(can_merge(ls, i as int, k, cnt));
            assert(i == m || bi == m);
            assert(false);
        } else if l == k + 1 {
            if i != major && bi != major {
                assert(ls[k + 1].contains(i));
                assert(ls[k + 1].contains(bi as usize));
                assert(can_merge(ls, i as int, l, cnt));
            }
        } else {
            assert(ls[l].contains(i));
            assert(can_merge(ls, i as int, l, cnt));
        }
    }
    if k + 1 == 31 {
        assert(ns[31] =~= seq![major as usize]);
    }
}

/// Merging upwards from the exceptional pair leaves no free block with a free buddy.
pub proof fn lemma_coalesce_merged(ls: Seq<Seq<usize>>, m: int, k: int, cnt: int)
    requires
        0 <= k < 32,
        0 <= m < cnt,
        cnt <= 0x8000_0000,
        ls.len() == 32,
        forall|l: int| 0 <= l < 32 ==> (#[trigger] ls[l]).no_duplicates(),
        forall|l1: int, l2: int, x: usize|
            #![trigger ls[l1].contains(x), ls[l2].contains(x)]
            0 <= l1 < 32 && 0 <= l2 < 32 && ls[l1].contains(x) && ls[l2].contains(x) ==> l1 == l2,
        forall|l: int, x: usize| 0 <= l < 32 && #[trigger] ls[l].contains(x) ==> x < cnt,
        k < 31 ==> ls[31].len() == 0,
        k == 31 ==> ls[31] == seq![m as usize],
        merged_except(ls, m, k, cnt),
        ls[k].contains(m as usize),
    ensures
        fully_merged(coalesce(ls, m, k, cnt), cnt),
    decreases 32 - k,
{
    if 0 <= k < 31 && can_merge(ls, m, k, cnt) {
        lemma_merge_step_sound(ls, m, k, cnt);
        lemma_coalesce_merged(merge_step(ls, m, k), min_int(m, buddy_index(m, k as nat)), k + 1, cnt);
    } else {
        assert forall|l: int, i: usize| 0 <= l < ls.len() && #[trigger] ls[l].contains(i) implies !can_merge(ls, i as int, l, cnt) by {
            if can_merge(ls, i as int, l, cnt) {
                lemma_buddy_involution(i as int, l as nat);
                let bi = buddy_index(i as int, l as nat);
                assert(l == k && (i == m || bi == m));
                if k == 31 {
                    assert(ls[31].contains(bi as usize));
                    assert(ls[31][0] == m as usize);
                    let j1 = choose|j: int| 0 <= j < ls[31].len() && ls[31][j] == i;
                    let j2 = choose|j: int| 0 <= j < ls[31].len() && ls[31][j] == bi as usize;
                    assert(j1 == 0 && j2 == 0);
                    assert(false);
                } else if i as int == m {
                    assert(can_merge(ls, m, k, cnt));
                } else {
                    assert(ls[k].contains(i));
                    assert(buddy_index(m, k as nat) == i);
                    assert(can_merge(ls, m, k, cnt));
                }
            }
        }
    }
}

/// Releasing a block into fully merged lists merges it upwards into fully merged lists.
pub proof fn lemma_release_merged(ls: Seq<Seq<usize>>, n: int, l: int, cnt: int)
    requires
        lists_sound(ls, cnt),
        fully_merged(ls, cnt),
        0 <= l < 31,
        0 <= n < cnt,
        forall|k: int| 0 <= k < 32 ==> !(#[trigger] ls[k]).contains(n as usize),
    ensures
        fully_merged(release_lists(ls, n, l, cnt), cnt),
{
    let ns = ls.update(l, seq![n as usize] + ls[l]);
    lemma_push_front_contains(n as usize, ls[l]);
    assert forall|k: int, x: usize| 0 <= k < 32 implies (#[trigger] ns[k].contains(x) <==> (if k == l {
        x == n || ls[l].contains(x)
    } else {
        ls[k].contains(x)
    })) by {
        if k == l {
            assert(ns[k] == seq![n as usize] + ls[l]);
        }
    }
    assert forall|k: int| 0 <= k < 32 implies (#[trigger] ns[k]).no_duplicates() by {
        if k == l {
            assert(ns[k] == seq![n as usize] + ls[l]);
        }
    }
    assert forall|k: int, i: usize|
        0 <= k < 32 && #[trigger] ns[k].contains(i) && can_merge(ns, i as int, k, cnt) implies k == l && (i == n
            || buddy_index(i as int, k as nat) == n) by {
        let bi = buddy_index(i as int, k as nat);
        if i != n && bi != n {
            assert(ls[k].contains(i));
            assert(ls[k].contains(bi as usize));
            assert(can_merge(ls, i as int, k, cnt));
        }
        if i != n && bi == n {
            assert(ns[k].contains(n as usize));
        }
        if i == n {
            assert(ns[k].contains(n as usize));
        }
    }
    lemma_coalesce_merged(ns, n, l, cnt);
}

/// Splitting a block off fully merged lists keeps them fully merged.
pub proof fn lemma_split_merged(ls: Seq<Seq<usize>>, n: int, top: int, req: int, cnt: int)
    requires
        lists_sound(ls, cnt),
        fully_merged(ls, cnt),
        0 <= req <= top < 31,
        ls[top].len() > 0,
        n == ls[top][0],
        n % (pow2(top as nat) as int) == 0,
        n + pow2(top as nat) <= cnt,
        forall|k: int, x: usize|
            0 <= k < 32 && n < x < n + pow2(top as nat) ==> !(#[trigger] ls[k].contains(x)),
    ensures
        fully_merged(split_lists(ls, n, top, req), cnt),
{
    let ns = split_lists(ls, n, top, req);
    super::lemma_remove_first(ls[top]);
    assert forall|l: int, i: usize| 0 <= l < ns.len() && #[trigger] ns[l].contains(i) implies !can_merge(ns, i as int, l, cnt) by {
        let bi = buddy_index(i as int, l as nat);
        lemma_buddy_involution(i as int, l as nat);
        if can_merge(ns, i as int, l, cnt) {
            if l == top {
                lemma_remove_contains(ls[top], n as usize);
                assert(ls[top].contains(i));
                assert(ls[top].contains(bi as usize));
                assert(can_merge(ls, i as int, l, cnt));
            } else if req <= l < top {
                let h = (n + pow2(l as nat)) as usize;
                lemma_push_front_contains(h, ls[l]);
                lemma_aligned_lower(n, top as nat, (l + 1) as nat);
                super::lemma_align_split(n, l as nat);
                lemma_pow2_pos(l as nat);
                vstd::arithmetic::power2::lemma_pow2_strictly_increases(l as nat, top as nat);
                assert(!ls[l].contains(n as usize)) by {
                    assert(ls[top].contains(n as usize));
                }
                if i == h {
                    assert(bi == n);
                    assert(false);
                } else if bi == h {
                    assert(i as int == n);
                    assert(ls[l].contains(i));
                } else {
                    assert(ls[l].contains(i));
                    assert(ls[l].contains(bi as usize));
                    assert(can_merge(ls, i as int, l, cnt));
                }
            } else {
                assert(ns[l] == ls[l]);
                assert(can_merge(ls, i as int, l, cnt));
            }
        }
    }
}

/// Releasing the block just split off the front of list `top` restores the lists.
pub proof fn lemma_release_after_split(ls: Seq<Seq<usize>>, n: int, top: int, req: int, cnt: int)
    requires
        lists_sound(ls, cnt),
        fully_merged(ls, cnt),
        0 <= req <= top < 31,
        ls[top].len() > 0,
        n == ls[top][0],
        n % (pow2(top as nat) as int) == 0,
        n + pow2(top as nat) <= cnt,
        forall|k: int, x: usize|
            0 <= k < 32 && n < x < n + pow2(top as nat) ==> !(#[trigger] ls[k].contains(x)),
    ensures
        release_lists(split_lists(ls, n, top, req), n, req, cnt) == ls,
{
    super::lemma_remove_first(ls[top]);
    assert(ls[top] =~= seq![n as usize] + ls[top].drop_first());
    assert(ls[top].contains(n as usize));
    if req == top {
        let a = split_lists(ls, n, top, req);
        assert(a.update(req, seq![n as usize] + a[req]) =~= ls);
        assert(!can_merge(ls, n, top, cnt));
    } else {
        lemma_release_chain(ls, n, top, req, cnt);
        let a = split_lists(ls, n, top, req);
        let cs = chain_state(ls, n, top, req);
        assert forall|j: int| 0 <= j < a.len() implies #[trigger] a.update(req, seq![n as usize] + a[req])[j] == cs[j] by {
            if j == req {
                assert(seq![n as usize] + (seq![(n + pow2(req as nat)) as usize] + ls[req]) =~= seq![n as usize, (n + pow2(req as nat)) as usize] + ls[req]);
            }
        }
        assert(a.update(req, seq![n as usize] + a[req]) =~= cs);
    }
}

/// The lists while the split-off block at `n` merges back, at level `k < top`:
/// list `k` holds `n` and its buddy in front, the lists above still hold the
/// upper halves, and list `top` lacks `n`.
pub open spec fn chain_state(ls: Seq<Seq<usize>>, n: int, top: int, k: int) -> Seq<Seq<usize>> {
    Seq::new(
        ls.len(),
        |j: int|
            if j == top {
                ls[j].drop_first()
            } else if k < j < top {
                seq![(n + pow2(j as nat)) as usize] + ls[j]
            } else if j == k {
                seq![n as usize, (n + pow2(j as nat)) as usize] + ls[j]
            } else {
                ls[j]
            },
    )
}

proof fn lemma_release_chain(ls: Seq<Seq<usize>>, n: int, top: int, k: int, cnt: int)
    requires
        lists_sound(ls, cnt),
        fully_merged(ls, cnt),
        0 <= k < top < 31,
        ls[top].len() > 0,
        n == ls[top][0],
        ls[top] == seq![n as usize] + ls[top].drop_first(),
        n % (pow2(top as nat) as int) == 0,
        n + pow2(top as nat) <= cnt,
        forall|j: int, x: usize|
            0 <= j < 32 && n < x < n + pow2(top as nat) ==> !(#[trigger] ls[j].contains(x)),
    ensures
        coalesce(chain_state(ls, n, top, k), n, k, cnt) == ls,
    decreases top - k,
{
    let cs = chain_state(ls, n, top, k);
    let h = n + pow2(k as nat);
    lemma_aligned_lower(n, top as nat, (k + 1) as nat);
    super::lemma_align_split(n, k as nat);
    lemma_pow2_pos(k as nat);
    vstd::arithmetic::power2::lemma_pow2_strictly_increases(k as nat, top as nat);
    assert(ls[top].contains(n as usize));
    assert(!ls[k].contains(n as usize));
    assert(!ls[k].contains(h as usize));
    assert(cs[k] == seq![n as usize, h as usize] + ls[k]);
    assert(cs[k][1] == h as usize);
    assert(can_merge(cs, n, k, cnt));
    assert(min_int(n, h) == n);
    let ms = merge_step(cs, n, k);
    // list k loses n and its buddy
    let t = seq![n as usize, h as usize] + ls[k];
    assert(t[0] == n as usize);
    super::lemma_remove_value(t, n as usize);
    assert(remove_value(t, n as usize) =~= seq![h as usize] + ls[k]);
    let t2 = seq![h as usize] + ls[k];
    assert(t2[0] == h as usize);
    super::lemma_remove_first(t2);
    assert(t2.drop_first() =~= ls[k]);
    assert(buddy_index(n, k as nat) == h);
    assert(coalesce(cs, n, k, cnt) == coalesce(ms, n, k + 1, cnt));
    if k + 1 == top {
        assert(ms =~= ls);
        assert(!can_merge(ls, n, top, cnt));
        assert(coalesce(ls, n, top, cnt) == ls);
    } else {
        let cs2 = chain_state(ls, n, top, k + 1);
        assert forall|j: int| 0 <= j < ms.len() implies #[trigger] ms[j] == cs2[j] by {
            if j == k + 1 {
                assert(seq![n as usize] + (seq![(n + pow2(j as nat)) as usize] + ls[j]) =~= seq![n as usize, (n + pow2(j as nat)) as usize] + ls[j]);
            }
        }
        assert(ms =~= cs2);
        lemma_release_chain(ls, n, top, k + 1, cnt);
    }
}

} // verus!
