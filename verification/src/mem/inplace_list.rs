//! A doubly linked list that owns no memory: its nodes live in an arena
//! (a `Vec<Node<T>>`) supplied by the caller, and several lists may thread
//! through the same arena. A list is seen as the sequence of arena indices
//! from its first node onwards.

use vstd::prelude::*;
use std::marker::PhantomData;

verus! {

/// An arena slot: the object and the links of the list that holds it.
pub struct Node<T> {
    next: Option<usize>,
    prev: Option<usize>,
    object: T,
}

impl<T> Node<T> {
    /// The forward link.
    pub closed spec fn next_link(&self) -> Option<usize> {
        self.next
    }

    /// The backward link.
    pub closed spec fn prev_link(&self) -> Option<usize> {
        self.prev
    }

    /// The object held in the slot.
    pub closed spec fn obj(&self) -> T {
        self.object
    }

    /// A slot holding `object`, linked to nothing.
    pub fn new(object: T) -> (n: Self)
        ensures
            n.next_link() is None,
            n.prev_link() is None,
            n.obj() == object,
    {
        Node { next: None, prev: None, object: object }
    }

    /// Mutable access to the object; the links stay as they are.
    pub fn as_mut(&mut self) -> (r: &mut T)
        ensures
            *r == old(self).obj(),
            final(self).obj() == *final(r),
            final(self).next_link() == old(self).next_link(),
            final(self).prev_link() == old(self).prev_link(),
    {
        &mut self.object
    }

    /// Shared access to the object.
    pub fn as_ref(&self) -> (r: &T)
        ensures
            *r == self.obj(),
    {
        &self.object
    }

    /// The neighbour this slot's forward link points to (the link named
    /// `next`, returned here under the name `prev`).
    pub fn prev(&self) -> (r: Option<usize>)
        ensures
            r == self.next_link(),
    {
        self.next
    }
}

/// A list threaded through an arena of `Node<T>`.
pub struct InplaceList<T> {
    first: Option<usize>,
    seq: Ghost<Seq<usize>>,
    phantom: PhantomData<T>,
}

/// The link that node `i` of `s` has to its successor.
pub open spec fn next_of(s: Seq<usize>, i: int) -> Option<usize> {
    if i + 1 < s.len() {
        Some(s[i + 1])
    } else {
        None
    }
}

/// The link that node `i` of `s` has to its predecessor.
pub open spec fn prev_of(s: Seq<usize>, i: int) -> Option<usize> {
    if i > 0 {
        Some(s[i - 1])
    } else {
        None
    }
}

impl<T> InplaceList<T> {
    /// The arena indices of the list, from the first node onwards.
    pub closed spec fn view(&self) -> Seq<usize> {
        self.seq@
    }

    /// The links stored in `nodes` spell out exactly this list.
    pub closed spec fn wf(&self, nodes: Seq<Node<T>>) -> bool {
        let s = self.seq@;
        &&& s.no_duplicates()
        &&& forall|i: int| 0 <= i < s.len() ==> #[trigger] s[i] < nodes.len()
        &&& self.first == (if s.len() == 0 {
            None::<usize>
        } else {
            Some(s[0])
        })
        &&& forall|i: int|
            0 <= i < s.len() ==> (#[trigger] nodes[s[i] as int]).next == next_of(s, i)
                && nodes[s[i] as int].prev == prev_of(s, i)
    }

    /// A well-formed list holds each arena index at most once, all in bounds.
    pub proof fn lemma_wf_facts(&self, nodes: Seq<Node<T>>)
        requires
            self.wf(nodes),
        ensures
            self@.no_duplicates(),
            forall|i: int| 0 <= i < self@.len() ==> #[trigger] self@[i] < nodes.len(),
    {
    }

    /// An empty list.
    pub fn new() -> (l: Self)
        ensures
            l@ == Seq::<usize>::empty(),
            forall|nodes: Seq<Node<T>>| l.wf(nodes),
    {
        InplaceList { first: None, seq: Ghost(Seq::empty()), phantom: PhantomData }
    }

    /// A list stays well formed in an arena whose slots on the list keep their links.
    pub proof fn lemma_frame(&self, a: Seq<Node<T>>, b: Seq<Node<T>>)
        requires
            self.wf(a),
            a.len() <= b.len(),
            forall|i: usize|
                #![trigger self@.contains(i)]
                i < a.len() && self@.contains(i) ==> b[i as int].next_link() == a[
                    i as int
                ].next_link() && b[i as int].prev_link() == a[i as int].prev_link(),
        ensures
            self.wf(b),
    {
        let s = self.seq@;
        assert forall|i: int| 0 <= i < s.len() implies (#[trigger] b[s[i] as int]).next == next_of(s, i)
            && b[s[i] as int].prev == prev_of(s, i) by {
            assert(s.contains(s[i]));
            assert(self@.contains(s[i]));
            assert(a[s[i] as int].next == next_of(s, i));
        }
    }

    /// The first node of the list, if any.
    pub fn last(&self, Ghost(nodes): Ghost<Seq<Node<T>>>) -> (r: Option<usize>)
        requires
            self.wf(nodes),
        ensures
            r == (if self@.len() == 0 {
                None::<usize>
            } else {
                Some(self@[0])
            }),
    {
        self.first
    }

    /// Inserts node `x` in front of the list.
    pub fn insert(&mut self, nodes: &mut Vec<Node<T>>, x: usize)
        requires
            old(self).wf(old(nodes)@),
            x < old(nodes)@.len(),
            !old(self)@.contains(x),
        ensures
            final(self)@ == seq![x] + old(self)@,
            final(self).wf(final(nodes)@),
            final(nodes)@.len() == old(nodes)@.len(),
            forall|i: int|
                0 <= i < old(nodes)@.len() ==> (#[trigger] final(nodes)@[i]).obj() == old(nodes)@[i].obj(),
            forall|i: int|
                0 <= i < old(nodes)@.len() && i != x && !old(self)@.contains(i as usize)
                    ==> #[trigger] final(nodes)@[i] == old(nodes)@[i],
    {
        let ghost s = self.seq@;
        let ghost old_nodes = nodes@;
        let old_first = self.first;
        nodes[x].prev = None;
        nodes[x].next = old_first;
        if let Some(second) = old_first {
            assert(s[0] == second);
            assert(second != x);
            nodes[second].prev = Some(x);
        }
        self.first = Some(x);
        self.seq = Ghost(seq![x] + s);
        proof {
            let t = seq![x] + s;
            assert forall|i: int, j: int| 0 <= i < j < t.len() implies t[i] != t[j] by {
                if i == 0 {
                    assert(s.contains(t[j]));
                }
            }
            assert forall|i: int| 0 <= i < t.len() implies (#[trigger] nodes@[t[i] as int]).next
                == next_of(t, i) && nodes@[t[i] as int].prev == prev_of(t, i) by {
                if i > 0 {
                    assert(t[i] == s[i - 1]);
                    assert(old_nodes[s[i - 1] as int].next == next_of(s, i - 1));
                    if i > 1 {
                        assert(s[i - 1] != s[0]);
                    }
                }
            }
            assert forall|i: int|
                0 <= i < old_nodes.len() && i != x && !s.contains(i as usize) implies #[trigger] nodes@[i]
                == old_nodes[i] by {
                if s.len() > 0 {
                    assert(s.contains(s[0]));
                }
            }
        }
    }

    /// Removes node `x` from the list; the other nodes keep their order. A
    /// detached node (not on the list, with no links) is left as it is.
    pub fn remove(&mut self, nodes: &mut Vec<Node<T>>, x: usize)
        requires
            old(self).wf(old(nodes)@),
            old(self)@.contains(x) || (x < old(nodes)@.len() && old(nodes)@[x as int].next_link() is None
                && old(nodes)@[x as int].prev_link() is None),
        ensures
            old(self)@.contains(x) ==> final(self)@ == old(self)@.remove(old(self)@.index_of(x)),
            !old(self)@.contains(x) ==> final(self)@ == old(self)@ && final(nodes)@ == old(nodes)@,
            final(self).wf(final(nodes)@),
            final(nodes)@.len() == old(nodes)@.len(),
            final(nodes)@[x as int].next_link() is None,
            final(nodes)@[x as int].prev_link() is None,
            forall|i: int|
                0 <= i < old(nodes)@.len() ==> (#[trigger] final(nodes)@[i]).obj() == old(nodes)@[i].obj(),
            forall|i: int|
                0 <= i < old(nodes)@.len() && !old(self)@.contains(i as usize) ==> #[trigger] final(nodes)@[i] == old(nodes)@[i],
    {
        let ghost s = self.seq@;
        let ghost old_nodes = nodes@;
        let ghost on = s.contains(x);
        let ghost k = s.index_of(x);
        proof {
            if on {
                assert(0 <= k < s.len() && s[k] == x);
                assert(old_nodes[s[k] as int].next == next_of(s, k));
            } else if s.len() > 0 {
                assert(s[0] != x);
            }
        }
        let next = nodes[x].next;
        let prev = nodes[x].prev;
        if let Some(f) = self.first {
            if f == x {
                self.first = next;
            }
        }
        if let Some(p) = prev {
            nodes[p].next = next;
        }
        if let Some(n) = next {
            nodes[n].prev = prev;
        }
        nodes[x].next = None;
        nodes[x].prev = None;
        let ghost t = if on {
            s.remove(k)
        } else {
            s
        };
        self.seq = Ghost(t);
        proof {
            if !on {
                assert(nodes@ =~= old_nodes);
            } else {
                assert(k == 0 ==> s[0] == x);
                assert(k > 0 ==> s[0] != x);
                assert forall|i: int, j: int| 0 <= i < j < t.len() implies t[i] != t[j] by {
                    let i2 = if i < k { i } else { i + 1 };
                    let j2 = if j < k { j } else { j + 1 };
                    assert(t[i] == s[i2]);
                    assert(t[j] == s[j2]);
                }
                assert forall|i: int| 0 <= i < t.len() implies #[trigger] t[i] < nodes@.len() by {
                    let i2 = if i < k { i } else { i + 1 };
                    assert(t[i] == s[i2]);
                }
                assert forall|i: int| 0 <= i < t.len() implies (#[trigger] nodes@[t[i] as int]).next
                    == next_of(t, i) && nodes@[t[i] as int].prev == prev_of(t, i) by {
                    let i2 = if i < k { i } else { i + 1 };
                    assert(t[i] == s[i2]);
                    assert(old_nodes[s[i2] as int].next == next_of(s, i2));
                    assert(s[i2] != x);
                    if i2 == k - 1 {
                        assert(prev == Some(s[i2]));
                    } else if i2 == k + 1 {
                        assert(next == Some(s[i2]));
                        if k > 0 {
                            assert(s[k - 1] != s[i2]);
                        }
                    } else {
                        if k > 0 {
                            assert(s[k - 1] != s[i2]);
                        }
                        if k + 1 < s.len() {
                            assert(s[k + 1] != s[i2]);
                        }
                    }
                }
                assert forall|i: int|
                    0 <= i < old_nodes.len() && !s.contains(i as usize) implies #[trigger] nodes@[i]
                    == old_nodes[i] by {
                    if k > 0 {
                        assert(s.contains(s[k - 1]));
                    }
                    if k + 1 < s.len() {
                        assert(s.contains(s[k + 1]));
                    }
                }
            }
        }
    }
}

/// Taking a node off the list right after putting it on gives back the list
/// as it was.
pub proof fn lemma_insert_then_remove(s: Seq<usize>, x: usize)
    requires
        !s.contains(x),
    ensures
        (seq![x] + s).remove((seq![x] + s).index_of(x)) == s,
{
    let t = seq![x] + s;
    assert(t[0] == x);
    assert(t.contains(x));
    let k = t.index_of(x);
    assert(t[k] == x);
    if k != 0 {
        assert(s[k - 1] == t[k]);
        assert(s.contains(x));
    }
    assert(t.remove(0) =~= s);
}

} // verus!
