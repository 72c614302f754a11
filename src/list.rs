//! A doubly-linked list whose nodes live in an arena of slots.
//!
//! A node is addressed by the index of its slot (a [`NodeHandle`]); `None`
//! stands for "no node". The arena owns every node, so dropping the list
//! drops every payload exactly once, and a popped payload is moved out of
//! its slot before the slot is recycled through the free list.
use vstd::prelude::*;

verus! {

/// Identifies a node by the index of its slot, or `None` for "no node".
pub type NodeHandle = Option<usize>;

/// One element of the list: its payload and the handles of its neighbours.
pub struct Node<T> {
    pub data: T,
    pub next: NodeHandle,
    pub prev: NodeHandle,
}

/// A doubly-linked list with O(1) insertion and removal at both ends.
pub struct LinkedList<T> {
    nodes: Vec<Option<Node<T>>>,
    free: Vec<usize>,
    first: NodeHandle,
    last: NodeHandle,
    /// The slots of the nodes, front to back.
    chain: Ghost<Seq<usize>>,
}

impl<T> View for LinkedList<T> {
    type V = Seq<T>;

    /// The payloads, front to back.
    closed spec fn view(&self) -> Seq<T> {
        Seq::new(self.chain@.len(), |k: int| self.node(self.chain@[k] as int).data)
    }
}

/// The handle reached from `h` after `k` steps along the `next` links
/// (when `forward`) or the `prev` links (otherwise); null stays null.
pub open spec fn walk<T>(l: LinkedList<T>, h: NodeHandle, k: nat, forward: bool) -> NodeHandle
    decreases k,
{
    if k == 0 {
        h
    } else {
        match h {
            None => None,
            Some(i) => walk(l, if forward { l.next_of(i) } else { l.prev_of(i) }, (k - 1) as nat, forward),
        }
    }
}

impl<T> LinkedList<T> {
    /// The node in slot `i` (meaningful only for an occupied slot).
    pub closed spec fn node(&self, i: int) -> Node<T> {
        self.nodes@[i]->Some_0
    }

    /// The handle of the first node.
    pub closed spec fn head(&self) -> NodeHandle {
        self.first
    }

    /// The handle of the last node.
    pub closed spec fn tail(&self) -> NodeHandle {
        self.last
    }

    /// The successor link stored in the node of slot `i`.
    pub closed spec fn next_of(&self, i: usize) -> NodeHandle {
        self.node(i as int).next
    }

    /// The predecessor link stored in the node of slot `i`.
    pub closed spec fn prev_of(&self, i: usize) -> NodeHandle {
        self.node(i as int).prev
    }

    /// The slots of the nodes, front to back.
    pub closed spec fn slots(&self) -> Seq<usize> {
        self.chain@
    }

    /// The handle that should follow position `k` of the chain.
    spec fn succ(&self, k: int) -> NodeHandle {
        if k + 1 < self.chain@.len() {
            Some(self.chain@[k + 1])
        } else {
            None
        }
    }

    /// The handle that should precede position `k` of the chain.
    spec fn pred(&self, k: int) -> NodeHandle {
        if k > 0 {
            Some(self.chain@[k - 1])
        } else {
            None
        }
    }

    spec fn chain_wf(&self) -> bool {
        let c = self.chain@;
        &&& forall|k: int| 0 <= k < c.len() ==> #[trigger] c[k] < self.nodes@.len()
        &&& forall|k: int| 0 <= k < c.len() ==> (#[trigger] self.nodes@[c[k] as int]) is Some
        &&& forall|j: int, k: int|
            0 <= j < c.len() && 0 <= k < c.len() && j != k ==> #[trigger] c[j] != #[trigger] c[k]
        &&& forall|k: int| 0 <= k < c.len() ==> #[trigger] self.node(c[k] as int).next == self.succ(k)
        &&& forall|k: int| 0 <= k < c.len() ==> #[trigger] self.node(c[k] as int).prev == self.pred(k)
        &&& self.first == (if c.len() == 0 { None } else { Some(c[0]) })
        &&& self.last == (if c.len() == 0 { None } else { Some(c.last()) })
    }

    spec fn free_wf(&self) -> bool {
        let f = self.free@;
        &&& forall|j: int| 0 <= j < f.len() ==> #[trigger] f[j] < self.nodes@.len()
        &&& forall|j: int| 0 <= j < f.len() ==> (#[trigger] self.nodes@[f[j] as int]) is None
        &&& forall|i: int, j: int|
            0 <= i < f.len() && 0 <= j < f.len() && i != j ==> #[trigger] f[i] != #[trigger] f[j]
    }

    /// Well-formedness: the chain of slots is linked consistently both ways,
    /// its ends are `head` and `tail`, and the free list names empty slots.
    pub closed spec fn wf(&self) -> bool {
        self.chain_wf() && self.free_wf()
    }

    /// An empty list. Nothing is allocated.
    pub fn new() -> (l: Self)
        ensures
            l.wf(),
            l@ == Seq::<T>::empty(),
            l.head() is None,
            l.tail() is None,
    {
        LinkedList { nodes: Vec::new(), free: Vec::new(), first: None, last: None, chain: Ghost(Seq::empty()) }
    }

    /// Whether the list holds no element.
    pub fn is_empty(&self) -> (r: bool)
        requires
            self.wf(),
        ensures
            r == (self@.len() == 0),
    {
        self.first.is_none()
    }

    /// Puts `node` into a free slot and returns that slot.
    fn occupy(&mut self, node: Node<T>) -> (i: usize)
        requires
            old(self).wf(),
        ensures
            final(self).chain@ == old(self).chain@,
            final(self).first == old(self).first,
            final(self).last == old(self).last,
            final(self).free_wf(),
            i < final(self).nodes@.len(),
            old(self).nodes@.len() <= final(self).nodes@.len(),
            final(self).nodes@[i as int] == Some(node),
            i >= old(self).nodes@.len() || old(self).nodes@[i as int] is None,
            forall|j: int|
                0 <= j < old(self).nodes@.len() && j != i ==> final(self).nodes@[j] == old(self).nodes@[j],
    {
        match self.free.pop() {
            Some(i) => {
                proof {
                    assert(old(self).free@[old(self).free@.len() - 1] == i);
                }
                self.nodes.set(i, Some(node));
                proof {
                    let f = self.free@;
                    assert forall|j: int| 0 <= j < f.len() implies (#[trigger] self.nodes@[f[j] as int]) is None by {
                        assert(old(self).free@[j] == f[j]);
                        assert(f[j] != i);
                    }
                    assert forall|a: int, b: int|
                        0 <= a < f.len() && 0 <= b < f.len() && a != b implies #[trigger] f[a] != #[trigger] f[b] by {
                        assert(old(self).free@[a] == f[a]);
                        assert(old(self).free@[b] == f[b]);
                    }
                    assert forall|j: int| 0 <= j < f.len() implies #[trigger] f[j] < self.nodes@.len() by {
                        assert(old(self).free@[j] == f[j]);
                    }
                }
                i
            },
            None => {
                let i: usize = self.nodes.len();
                self.nodes.push(Some(node));
                i
            },
        }
    }

    /// Takes the node out of the occupied slot `i` and recycles the slot.
    fn vacate(&mut self, i: usize) -> (node: Node<T>)
        requires
            old(self).free_wf(),
            i < old(self).nodes@.len(),
            old(self).nodes@[i as int] is Some,
        ensures
            node == old(self).node(i as int),
            final(self).free_wf(),
            final(self).nodes@ == old(self).nodes@.update(i as int, None),
            final(self).chain@ == old(self).chain@,
            final(self).first == old(self).first,
            final(self).last == old(self).last,
    {
        let slot = self.nodes[i].take();
        proof {
            let f = old(self).free@;
            assert forall|j: int| 0 <= j < f.len() implies #[trigger] f[j] != i by {
                assert(old(self).nodes@[f[j] as int] is None);
            }
        }
        self.free.push(i);
        proof {
            let f = self.free@;
            let g = old(self).free@;
            assert forall|j: int| 0 <= j < f.len() implies (#[trigger] self.nodes@[f[j] as int]) is None by {
                if j < g.len() {
                    assert(g[j] == f[j]);
                }
            }
            assert forall|a: int, b: int|
                0 <= a < f.len() && 0 <= b < f.len() && a != b implies #[trigger] f[a] != #[trigger] f[b] by {
                if a < g.len() {
                    assert(g[a] == f[a]);
                    assert(g[a] != i);
                }
                if b < g.len() {
                    assert(g[b] == f[b]);
                    assert(g[b] != i);
                }
            }
            assert forall|j: int| 0 <= j < f.len() implies #[trigger] f[j] < self.nodes@.len() by {
                if j < g.len() {
                    assert(g[j] == f[j]);
                }
            }
        }
        slot.unwrap()
    }

    /// Sets the successor link of the node in the occupied slot `i`.
    fn set_next(&mut self, i: usize, h: NodeHandle)
        requires
            i < old(self).nodes@.len(),
            old(self).nodes@[i as int] is Some,
        ensures
            final(self).nodes@ == old(self).nodes@.update(
                i as int,
                Some(Node { next: h, ..old(self).node(i as int) }),
            ),
            final(self).free@ == old(self).free@,
            final(self).chain@ == old(self).chain@,
            final(self).first == old(self).first,
            final(self).last == old(self).last,
    {
        let node = self.nodes[i].take().unwrap();
        self.nodes.set(i, Some(Node { data: node.data, next: h, prev: node.prev }));
    }

    /// Sets the predecessor link of the node in the occupied slot `i`.
    fn set_prev(&mut self, i: usize, h: NodeHandle)
        requires
            i < old(self).nodes@.len(),
            old(self).nodes@[i as int] is Some,
        ensures
            final(self).nodes@ == old(self).nodes@.update(
                i as int,
                Some(Node { prev: h, ..old(self).node(i as int) }),
            ),
            final(self).free@ == old(self).free@,
            final(self).chain@ == old(self).chain@,
            final(self).first == old(self).first,
            final(self).last == old(self).last,
    {
        let node = self.nodes[i].take().unwrap();
        self.nodes.set(i, Some(Node { data: node.data, next: node.next, prev: h }));
    }

    /// Appends `t` at the back.
    pub fn push_back(&mut self, t: T)
        requires
            old(self).wf(),
        ensures
            final(self).wf(),
            final(self)@ == old(self)@.push(t),
            final(self).slots().drop_last() == old(self).slots(),
            final(self).slots().len() == old(self).slots().len() + 1,
    {
        let ghost c = self.chain@;
        let ghost before = *self;
        let i = self.occupy(Node { data: t, next: None, prev: self.last });
        proof {
            assert forall|k: int| 0 <= k < c.len() implies #[trigger] c[k] != i by {
                assert(before.nodes@[c[k] as int] is Some);
            }
        }
        match self.last {
            None => {
                self.first = Some(i);
            },
            Some(l) => {
                proof {
                    assert(c[c.len() - 1] == l);
                }
                self.set_next(l, Some(i));
            },
        }
        self.last = Some(i);
        self.chain = Ghost(c.push(i));
        proof {
            let n = self.chain@;
            assert forall|k: int| 0 <= k < n.len() implies #[trigger] self.node(n[k] as int).next == self.succ(k) by {
                if k < c.len() {
                    assert(n[k] == c[k]);
                    assert(before.node(c[k] as int).next == before.succ(k));
                }
            }
            assert forall|k: int| 0 <= k < n.len() implies #[trigger] self.node(n[k] as int).prev == self.pred(k) by {
                if k < c.len() {
                    assert(n[k] == c[k]);
                    assert(before.node(c[k] as int).prev == before.pred(k));
                    if k > 0 {
                        assert(n[k - 1] == c[k - 1]);
                    }
                }
            }
            assert forall|a: int, b: int|
                0 <= a < n.len() && 0 <= b < n.len() && a != b implies #[trigger] n[a] != #[trigger] n[b] by {
                if a < c.len() && b < c.len() {
                    assert(n[a] == c[a] && n[b] == c[b]);
                } else if a < c.len() {
                    assert(n[a] == c[a]);
                } else if b < c.len() {
                    assert(n[b] == c[b]);
                }
            }
            assert forall|k: int| 0 <= k < n.len() implies (#[trigger] self.nodes@[n[k] as int]) is Some by {
                if k < c.len() {
                    assert(n[k] == c[k]);
                }
            }
            assert forall|k: int| 0 <= k < n.len() implies #[trigger] n[k] < self.nodes@.len() by {
                if k < c.len() {
                    assert(n[k] == c[k]);
                }
            }
            assert(self@ =~= before@.push(t)) by {
                assert forall|k: int| 0 <= k < c.len() implies #[trigger] self@[k] == before@[k] by {
                    assert(n[k] == c[k]);
                }
            }
            assert(n.drop_last() =~= c);
        }
    }

    /// Prepends `t` at the front.
    pub fn push_front(&mut self, t: T)
        requires
            old(self).wf(),
        ensures
            final(self).wf(),
            final(self)@ == seq![t] + old(self)@,
            final(self).slots().drop_first() == old(self).slots(),
            final(self).slots().len() == old(self).slots().len() + 1,
    {
        let ghost c = self.chain@;
        let ghost before = *self;
        let i = self.occupy(Node { data: t, next: self.first, prev: None });
        proof {
            assert forall|k: int| 0 <= k < c.len() implies #[trigger] c[k] != i by {
                assert(before.nodes@[c[k] as int] is Some);
            }
        }
        match self.first {
            None => {
                self.last = Some(i);
            },
            Some(f) => {
                proof {
                    assert(c[0] == f);
                }
                self.set_prev(f, Some(i));
            },
        }
        self.first = Some(i);
        self.chain = Ghost(seq![i] + c);
        proof {
            let n = self.chain@;
            assert forall|k: int| 0 < k < n.len() implies n[k] == c[k - 1] by {}
            assert forall|k: int| 0 <= k < n.len() implies #[trigger] self.node(n[k] as int).next == self.succ(k) by {
                if k > 0 {
                    assert(before.node(c[k - 1] as int).next == before.succ(k - 1));
                }
            }
            assert forall|k: int| 0 <= k < n.len() implies #[trigger] self.node(n[k] as int).prev == self.pred(k) by {
                if k > 0 {
                    assert(before.node(c[k - 1] as int).prev == before.pred(k - 1));
                }
            }
            assert forall|a: int, b: int|
                0 <= a < n.len() && 0 <= b < n.len() && a != b implies #[trigger] n[a] != #[trigger] n[b] by {
                if a > 0 && b > 0 {
                    assert(c[a - 1] != c[b - 1]);
                } else if a > 0 {
                    assert(c[a - 1] != i);
                } else if b > 0 {
                    assert(c[b - 1] != i);
                }
            }
            assert forall|k: int| 0 <= k < n.len() implies (#[trigger] self.nodes@[n[k] as int]) is Some by {
                if k > 0 {
                    assert(before.nodes@[c[k - 1] as int] is Some);
                }
            }
            assert forall|k: int| 0 <= k < n.len() implies #[trigger] n[k] < self.nodes@.len() by {
                if k > 0 {
                    assert(c[k - 1] < before.nodes@.len());
                }
            }
            assert(self@ =~= seq![t] + before@) by {
                assert forall|k: int| 0 < k < n.len() implies #[trigger] self@[k] == before@[k - 1] by {
                    assert(n[k] == c[k - 1]);
                }
            }
            assert(n.drop_first() =~= c);
        }
    }

    /// Removes and returns the last element, or `None` on an empty list,
    /// which is then left untouched.
    pub fn pop_back(&mut self) -> (r: Option<T>)
        requires
            old(self).wf(),
        ensures
            final(self).wf(),
            old(self)@.len() == 0 ==> r is None && *final(self) == *old(self),
            old(self)@.len() == 1 ==> final(self).head() is None && final(self).tail() is None,
            old(self)@.len() > 0 ==> {
                &&& r == Some(old(self)@.last())
                &&& final(self)@ == old(self)@.drop_last()
                &&& final(self).slots() == old(self).slots().drop_last()
            },
    {
        match self.last {
            None => None,
            Some(l) => {
                let ghost c = self.chain@;
                let ghost before = *self;
                proof {
                    assert(c[c.len() - 1] == l);
                }
                let node = self.vacate(l);
                self.last = node.prev;
                match node.prev {
                    None => {
                        self.first = None;
                    },
                    Some(p) => {
                        proof {
                            assert(before.pred(c.len() - 1) == node.prev);
                            assert(c[c.len() - 2] == p);
                            assert(c[c.len() - 2] != c[c.len() - 1]);
                        }
                        self.set_next(p, None);
                    },
                }
                self.chain = Ghost(c.drop_last());
                proof {
                    let n = self.chain@;
                    assert(before.pred(c.len() - 1) == node.prev);
                    assert forall|k: int| 0 <= k < n.len() implies #[trigger] self.node(n[k] as int).next == self.succ(k) by {
                        assert(n[k] == c[k]);
                        assert(c[k] != c[c.len() - 1]);
                        assert(before.node(c[k] as int).next == before.succ(k));
                    }
                    assert forall|k: int| 0 <= k < n.len() implies #[trigger] self.node(n[k] as int).prev == self.pred(k) by {
                        assert(n[k] == c[k]);
                        assert(c[k] != c[c.len() - 1]);
                        assert(before.node(c[k] as int).prev == before.pred(k));
                    }
                    assert forall|k: int| 0 <= k < n.len() implies (#[trigger] self.nodes@[n[k] as int]) is Some by {
                        assert(n[k] == c[k]);
                        assert(c[k] != c[c.len() - 1]);
                    }
                    assert forall|k: int| 0 <= k < n.len() implies #[trigger] n[k] < self.nodes@.len() by {
                        assert(n[k] == c[k]);
                    }
                    assert forall|a: int, b: int|
                        0 <= a < n.len() && 0 <= b < n.len() && a != b implies #[trigger] n[a] != #[trigger] n[b] by {
                        assert(n[a] == c[a] && n[b] == c[b]);
                    }
                    assert(self@ =~= before@.drop_last()) by {
                        assert forall|k: int| 0 <= k < n.len() implies #[trigger] self@[k] == before@[k] by {
                            assert(n[k] == c[k]);
                            assert(c[k] != c[c.len() - 1]);
                        }
                    }
                }
                Some(node.data)
            },
        }
    }

    /// Removes and returns the first element, or `None` on an empty list,
    /// which is then left untouched.
    pub fn pop_front(&mut self) -> (r: Option<T>)
        requires
            old(self).wf(),
        ensures
            final(self).wf(),
            old(self)@.len() == 0 ==> r is None && *final(self) == *old(self),
            old(self)@.len() == 1 ==> final(self).head() is None && final(self).tail() is None,
            old(self)@.len() > 0 ==> {
                &&& r == Some(old(self)@[0])
                &&& final(self)@ == old(self)@.drop_first()
                &&& final(self).slots() == old(self).slots().drop_first()
            },
    {
        match self.first {
            None => None,
            Some(f) => {
                let ghost c = self.chain@;
                let ghost before = *self;
                proof {
                    assert(c[0] == f);
                }
                let node = self.vacate(f);
                self.first = node.next;
                match node.next {
                    None => {
                        self.last = None;
                    },
                    Some(s) => {
                        proof {
                            assert(before.succ(0) == node.next);
                            assert(c[1] == s);
                            assert(c[1] != c[0]);
                        }
                        self.set_prev(s, None);
                    },
                }
                self.chain = Ghost(c.drop_first());
                proof {
                    let n = self.chain@;
                    assert(before.succ(0) == node.next);
                    assert forall|k: int| 0 <= k < n.len() implies n[k] == c[k + 1] by {}
                    assert forall|k: int| 0 <= k < n.len() implies #[trigger] self.node(n[k] as int).next == self.succ(k) by {
                        assert(c[k + 1] != c[0]);
                        assert(before.node(c[k + 1] as int).next == before.succ(k + 1));
                    }
                    assert forall|k: int| 0 <= k < n.len() implies #[trigger] self.node(n[k] as int).prev == self.pred(k) by {
                        assert(c[k + 1] != c[0]);
                        assert(before.node(c[k + 1] as int).prev == before.pred(k + 1));
                    }
                    assert forall|k: int| 0 <= k < n.len() implies (#[trigger] self.nodes@[n[k] as int]) is Some by {
                        assert(c[k + 1] != c[0]);
                        assert(before.nodes@[c[k + 1] as int] is Some);
                    }
                    assert forall|k: int| 0 <= k < n.len() implies #[trigger] n[k] < self.nodes@.len() by {
                        assert(c[k + 1] < before.nodes@.len());
                    }
                    assert forall|a: int, b: int|
                        0 <= a < n.len() && 0 <= b < n.len() && a != b implies #[trigger] n[a] != #[trigger] n[b] by {
                        assert(c[a + 1] != c[b + 1]);
                    }
                    assert(self@ =~= before@.drop_first()) by {
                        assert forall|k: int| 0 <= k < n.len() implies #[trigger] self@[k] == before@[k + 1] by {
                            assert(c[k + 1] != c[0]);
                        }
                    }
                }
                Some(node.data)
            },
        }
    }

    /// The successor link of the node in the occupied slot `i`.
    fn next_handle(&self, i: usize) -> (h: NodeHandle)
        requires
            i < self.nodes@.len(),
            self.nodes@[i as int] is Some,
        ensures
            h == self.next_of(i),
    {
        match &self.nodes[i] {
            Some(node) => node.next,
            None => None,
        }
    }

    /// The two lists differ at most in the payload of the node in slot `i`.
    spec fn same_but_data(l: Self, m: Self, i: usize) -> bool {
        &&& m.nodes@.len() == l.nodes@.len()
        &&& m.nodes@[i as int] is Some
        &&& m.node(i as int).next == l.node(i as int).next
        &&& m.node(i as int).prev == l.node(i as int).prev
        &&& forall|j: int| 0 <= j < l.nodes@.len() && j != i ==> m.nodes@[j] == l.nodes@[j]
        &&& m.free@ == l.free@
        &&& m.chain@ == l.chain@
        &&& m.first == l.first
        &&& m.last == l.last
    }

    /// Replacing the payload of one node keeps a list well formed.
    proof fn lemma_data_update_wf(l: Self, i: usize)
        requires
            l.wf(),
            i < l.nodes@.len(),
            l.nodes@[i as int] is Some,
        ensures
            forall|m: Self| Self::same_but_data(l, m, i) ==> #[trigger] m.wf(),
    {
        assert forall|m: Self| Self::same_but_data(l, m, i) implies #[trigger] m.wf() by {
            let c = l.chain@;
            assert forall|k: int| 0 <= k < c.len() implies #[trigger] m.node(c[k] as int).next == m.succ(k) by {
                assert(l.node(c[k] as int).next == l.succ(k));
            }
            assert forall|k: int| 0 <= k < c.len() implies #[trigger] m.node(c[k] as int).prev == m.pred(k) by {
                assert(l.node(c[k] as int).prev == l.pred(k));
            }
            assert forall|k: int| 0 <= k < c.len() implies (#[trigger] m.nodes@[c[k] as int]) is Some by {
                assert(l.nodes@[c[k] as int] is Some);
            }
            let f = l.free@;
            assert forall|j: int| 0 <= j < f.len() implies (#[trigger] m.nodes@[f[j] as int]) is None by {
                assert(l.nodes@[f[j] as int] is None);
            }
        }
    }

    /// Exclusive access to the payload of the `k`-th node, which is in slot `i`.
    fn data_mut(&mut self, i: usize, Ghost(k): Ghost<int>) -> (r: &mut T)
        requires
            old(self).wf(),
            0 <= k < old(self)@.len(),
            old(self).slots()[k] == i,
        ensures
            *r == old(self)@[k],
            final(self).nodes@ == old(self).nodes@.update(
                i as int,
                Some(Node { data: *final(r), ..old(self).node(i as int) }),
            ),
            final(self).free@ == old(self).free@,
            final(self).chain@ == old(self).chain@,
            final(self).first == old(self).first,
            final(self).last == old(self).last,
            Self::same_but_data(*old(self), *final(self), i),
            final(self).wf(),
            final(self)@ == old(self)@.update(k, *final(r)),
            final(self).slots() == old(self).slots(),
            final(self).head() == old(self).head(),
            final(self).tail() == old(self).tail(),
    {
        proof {
            assert(self.nodes@[i as int] is Some);
            Self::lemma_data_update_wf(*self, i);
        }
        let node = self.nodes[i].as_mut().unwrap();
        &mut node.data
    }

    /// A cursor that hands out the payloads front to back.
    pub fn iter_mut(&mut self) -> (it: IterMut<'_, T>)
        requires
            old(self).wf(),
        ensures
            it.wf(),
            it.position() == 0,
            it.list()@ == old(self)@,
            it.list().slots() == old(self).slots(),
            *final(self) == *final(it.target()),
    {
        let h = self.first;
        IterMut { list: self, next: h, pos: Ghost(0) }
    }

    /// Calls `f` on each payload, front to back.
    pub fn for_each<F: FnMut(&mut T)>(&mut self, mut f: F)
        requires
            old(self).wf(),
            forall|x: &mut T| f.requires((x,)),
        ensures
            final(self).wf(),
            final(self).slots() == old(self).slots(),
            final(self)@.len() == old(self)@.len(),
    {
        let ghost fin = *final(self);
        let mut it = self.iter_mut();
        loop
            invariant
                it.wf(),
                it.list().slots() == old(self).slots(),
                *final(it.target()) == fin,
                forall|x: &mut T| f.requires((x,)),
            decreases it.list()@.len() - it.position(),
        {
            match it.next() {
                Some(x) => f(x),
                None => break,
            }
        }
        proof { it.lemma_resolved(); }
    }
}

/// In a well-formed list `head` is null exactly when `tail` is; following
/// `next` from `head` visits the slots front to back, reaching `tail` after
/// `len - 1` steps and null after `len`; following `prev` from `tail` visits
/// them back to front in the same way; and neighbouring links agree.
pub proof fn lemma_chain_consistent<T>(l: LinkedList<T>)
    requires
        l.wf(),
    ensures
        (l.head() is None) <==> (l.tail() is None),
        (l.head() is None) <==> (l@.len() == 0),
        forall|k: nat| k < l@.len() ==> #[trigger] walk(l, l.head(), k, true) == Some(l.slots()[k as int]),
        walk(l, l.head(), l@.len(), true) is None,
        l@.len() > 0 ==> walk(l, l.head(), (l@.len() - 1) as nat, true) == l.tail(),
        forall|k: nat|
            k < l@.len() ==> #[trigger] walk(l, l.tail(), k, false) == Some(l.slots()[l@.len() - 1 - k]),
        walk(l, l.tail(), l@.len(), false) is None,
        l@.len() > 0 ==> walk(l, l.tail(), (l@.len() - 1) as nat, false) == l.head(),
        forall|k: int|
            0 <= k < l@.len() - 1 ==> #[trigger] l.prev_of(l.next_of(l.slots()[k])->Some_0) == Some(l.slots()[k]),
        forall|k: int|
            0 < k < l@.len() ==> #[trigger] l.next_of(l.prev_of(l.slots()[k])->Some_0) == Some(l.slots()[k]),
{
    let c = l.chain@;
    let n = c.len();
    assert forall|k: nat| k < n implies #[trigger] walk(l, l.head(), k, true) == Some(c[k as int]) by {
        lemma_walk_forward(l, k);
    }
    assert forall|k: nat| k < n implies #[trigger] walk(l, l.tail(), k, false) == Some(c[n - 1 - k]) by {
        lemma_walk_backward(l, k);
    }
    lemma_walk_forward(l, n);
    lemma_walk_backward(l, n);
    assert forall|k: int| 0 <= k < n - 1 implies #[trigger] l.prev_of(l.next_of(c[k])->Some_0) == Some(c[k]) by {
        assert(l.node(c[k] as int).next == l.succ(k));
        assert(l.node(c[k + 1] as int).prev == l.pred(k + 1));
    }
    assert forall|k: int| 0 < k < n implies #[trigger] l.next_of(l.prev_of(c[k])->Some_0) == Some(c[k]) by {
        assert(l.node(c[k] as int).prev == l.pred(k));
        assert(l.node(c[k - 1] as int).next == l.succ(k - 1));
    }
    if n > 0 {
        assert(walk(l, l.head(), (n - 1) as nat, true) == Some(c[n - 1]));
        assert(walk(l, l.tail(), (n - 1) as nat, false) == Some(c[n - 1 - (n - 1)]));
    }
}

proof fn lemma_walk_forward<T>(l: LinkedList<T>, k: nat)
    requires
        l.wf(),
        k <= l@.len(),
    ensures
        k < l@.len() ==> walk(l, l.head(), k, true) == Some(l.chain@[k as int]),
        k == l@.len() ==> walk(l, l.head(), k, true) is None,
    decreases k,
{
    let c = l.chain@;
    if k > 0 {
        let j = k - 1;
        lemma_walk_forward(l, (k - 1) as nat);
        lemma_walk_step(l, l.head(), (k - 1) as nat, true);
        assert(l.node(c[j] as int).next == l.succ(j));
    }
}

proof fn lemma_walk_backward<T>(l: LinkedList<T>, k: nat)
    requires
        l.wf(),
        k <= l@.len(),
    ensures
        k < l@.len() ==> walk(l, l.tail(), k, false) == Some(l.chain@[l@.len() - 1 - k]),
        k == l@.len() ==> walk(l, l.tail(), k, false) is None,
    decreases k,
{
    let c = l.chain@;
    let n = c.len();
    if k > 0 {
        let j = n - 1 - (k - 1);
        lemma_walk_backward(l, (k - 1) as nat);
        lemma_walk_step(l, l.tail(), (k - 1) as nat, false);
        assert(l.node(c[j] as int).prev == l.pred(j));
    }
}

/// One more step of a walk is one step from where the walk stands.
proof fn lemma_walk_step<T>(l: LinkedList<T>, h: NodeHandle, k: nat, forward: bool)
    ensures
        walk(l, h, k + 1, forward) == match walk(l, h, k, forward) {
            None => None,
            Some(i) => if forward { l.next_of(i) } else { l.prev_of(i) },
        },
    decreases k,
{
    match h {
        None => {
            assert(walk(l, h, k + 1, forward) == None::<usize>);
            if k > 0 {
                assert(walk(l, h, k, forward) == None::<usize>);
            }
        },
        Some(i) => {
            let nx = if forward { l.next_of(i) } else { l.prev_of(i) };
            assert(walk(l, h, k + 1, forward) == walk(l, nx, k, forward));
            if k > 0 {
                assert(walk(l, h, k, forward) == walk(l, nx, (k - 1) as nat, forward));
                lemma_walk_step(l, nx, (k - 1) as nat, forward);
                assert((k - 1) as nat + 1 == k);
            }
        },
    }
}

/// Pushing `x` at the back and popping the back hands `x` back and leaves
/// the contents, the slots, `head` and `tail` as they were.
pub proof fn lemma_push_pop_back_round_trip<T>(
    before: LinkedList<T>,
    pushed: LinkedList<T>,
    after: LinkedList<T>,
    x: T,
    r: Option<T>,
)
    requires
        before.wf(),
        pushed.wf(),
        after.wf(),
        pushed@ == before@.push(x),
        pushed.slots().drop_last() == before.slots(),
        r == Some(pushed@.last()),
        after@ == pushed@.drop_last(),
        after.slots() == pushed.slots().drop_last(),
    ensures
        r == Some(x),
        after@ == before@,
        after.slots() == before.slots(),
        after.head() == before.head(),
        after.tail() == before.tail(),
{
    assert(before@.push(x).drop_last() =~= before@);
    assert(after.chain@ == before.chain@);
}

/// Pushing `x` at the front and popping the front hands `x` back and leaves
/// the contents, the slots, `head` and `tail` as they were.
pub proof fn lemma_push_pop_front_round_trip<T>(
    before: LinkedList<T>,
    pushed: LinkedList<T>,
    after: LinkedList<T>,
    x: T,
    r: Option<T>,
)
    requires
        before.wf(),
        pushed.wf(),
        after.wf(),
        pushed@ == seq![x] + before@,
        pushed.slots().drop_first() == before.slots(),
        r == Some(pushed@[0]),
        after@ == pushed@.drop_first(),
        after.slots() == pushed.slots().drop_first(),
    ensures
        r == Some(x),
        after@ == before@,
        after.slots() == before.slots(),
        after.head() == before.head(),
        after.tail() == before.tail(),
{
    assert((seq![x] + before@).drop_first() =~= before@);
    assert(after.chain@ == before.chain@);
}

/// The contents after `push_back` of each of `xs` in turn.
pub open spec fn pushed_back<T>(s: Seq<T>, xs: Seq<T>) -> Seq<T>
    decreases xs.len(),
{
    if xs.len() == 0 {
        s
    } else {
        pushed_back(s.push(xs[0]), xs.drop_first())
    }
}

/// The contents after `push_front` of each of `xs` in turn.
pub open spec fn pushed_front<T>(s: Seq<T>, xs: Seq<T>) -> Seq<T>
    decreases xs.len(),
{
    if xs.len() == 0 {
        s
    } else {
        pushed_front(seq![xs[0]] + s, xs.drop_first())
    }
}

/// What `n` calls of `pop_back` return, in the order they return it, and
/// the contents left.
pub open spec fn popped_back<T>(s: Seq<T>, n: nat) -> (Seq<Option<T>>, Seq<T>)
    decreases n,
{
    if n == 0 {
        (Seq::empty(), s)
    } else if s.len() == 0 {
        let rest = popped_back(s, (n - 1) as nat);
        (seq![None] + rest.0, rest.1)
    } else {
        let rest = popped_back(s.drop_last(), (n - 1) as nat);
        (seq![Some(s.last())] + rest.0, rest.1)
    }
}

/// What `n` calls of `pop_front` return, in the order they return it, and
/// the contents left.
pub open spec fn popped_front<T>(s: Seq<T>, n: nat) -> (Seq<Option<T>>, Seq<T>)
    decreases n,
{
    if n == 0 {
        (Seq::empty(), s)
    } else if s.len() == 0 {
        let rest = popped_front(s, (n - 1) as nat);
        (seq![None] + rest.0, rest.1)
    } else {
        let rest = popped_front(s.drop_first(), (n - 1) as nat);
        (seq![Some(s[0])] + rest.0, rest.1)
    }
}

proof fn lemma_pushed_back<T>(s: Seq<T>, xs: Seq<T>)
    ensures
        pushed_back(s, xs) == s + xs,
    decreases xs.len(),
{
    if xs.len() > 0 {
        lemma_pushed_back(s.push(xs[0]), xs.drop_first());
        assert(s.push(xs[0]) + xs.drop_first() =~= s + xs);
    }
}

proof fn lemma_pushed_front<T>(s: Seq<T>, xs: Seq<T>)
    ensures
        pushed_front(s, xs) == xs.reverse() + s,
    decreases xs.len(),
{
    if xs.len() > 0 {
        lemma_pushed_front(seq![xs[0]] + s, xs.drop_first());
        assert(xs.drop_first().reverse() + (seq![xs[0]] + s) =~= xs.reverse() + s);
    }
}

proof fn lemma_pop_back_all<T>(s: Seq<T>, xs: Seq<T>)
    ensures
        popped_back(s + xs, xs.len()) == (xs.reverse().map_values(|x: T| Some(x)), s),
    decreases xs.len(),
{
    if xs.len() > 0 {
        let ys = xs.drop_last();
        lemma_pop_back_all(s, ys);
        assert((s + xs).drop_last() =~= s + ys);
        assert((s + xs).last() == xs.last());
        assert(seq![Some(xs.last())] + ys.reverse().map_values(|x: T| Some(x))
            =~= xs.reverse().map_values(|x: T| Some(x)));
    } else {
        assert(s + xs =~= s);
        assert(xs.reverse().map_values(|x: T| Some(x)) =~= Seq::empty());
    }
}

proof fn lemma_pop_front_all<T>(xs: Seq<T>, s: Seq<T>)
    ensures
        popped_front(xs + s, xs.len()) == (xs.map_values(|x: T| Some(x)), s),
    decreases xs.len(),
{
    if xs.len() > 0 {
        let ys = xs.drop_first();
        lemma_pop_front_all(ys, s);
        assert((xs + s).drop_first() =~= ys + s);
        assert(seq![Some(xs[0])] + ys.map_values(|x: T| Some(x)) =~= xs.map_values(|x: T| Some(x)));
    } else {
        assert(xs + s =~= s);
        assert(xs.map_values(|x: T| Some(x)) =~= Seq::empty());
    }
}

/// Each end behaves as a stack: after pushing `xs` at one end of a list
/// holding `s`, as many pops from that same end hand `xs` back in reverse
/// and leave `s`. Popping the front after pushing at the back hands the
/// values back in insertion order.
pub proof fn lemma_stack_and_queue<T>(s: Seq<T>, xs: Seq<T>)
    ensures
        popped_back(pushed_back(s, xs), xs.len()) == (xs.reverse().map_values(|x: T| Some(x)), s),
        popped_front(pushed_front(s, xs), xs.len()) == (xs.reverse().map_values(|x: T| Some(x)), s),
        popped_front(pushed_back(Seq::empty(), xs), xs.len()) == (
            xs.map_values(|x: T| Some(x)),
            Seq::<T>::empty(),
        ),
{
    lemma_pushed_back(s, xs);
    lemma_pop_back_all(s, xs);
    lemma_pushed_front(s, xs);
    lemma_pop_front_all(xs.reverse(), s);
    lemma_pushed_back(Seq::empty(), xs);
    assert(Seq::<T>::empty() + xs =~= xs + Seq::<T>::empty());
    lemma_pop_front_all(xs, Seq::<T>::empty());
}

/// Exclusive, front-to-back access to the payloads of one list. The list
/// stays borrowed, so nodes can neither be added nor removed meanwhile.
pub struct IterMut<'a, T> {
    list: &'a mut LinkedList<T>,
    next: NodeHandle,
    pos: Ghost<int>,
}

impl<'a, T> IterMut<'a, T> {
    /// The borrowed list.
    pub closed spec fn target(&self) -> &'a mut LinkedList<T> {
        self.list
    }

    /// The list as it stands now.
    pub closed spec fn list(&self) -> LinkedList<T> {
        *self.list
    }

    /// How many payloads have been handed out.
    pub closed spec fn position(&self) -> int {
        self.pos@
    }

    /// The cursor points at the node at `position` of a well-formed list.
    pub closed spec fn wf(&self) -> bool {
        &&& self.list.wf()
        &&& 0 <= self.pos@ <= self.list@.len()
        &&& self.next == (if self.pos@ < self.list@.len() {
            Some(self.list.slots()[self.pos@])
        } else {
            None
        })
    }

    /// Once the cursor is no longer modified, the list stands as the
    /// borrow will leave it.
    pub proof fn lemma_resolved(&self)
        requires
            has_resolved(*self),
        ensures
            self.list() == *final(self.target()),
            self.wf() ==> self.list().wf(),
    {
    }

    /// The next payload, or `None` once every node has been visited.
    pub fn next(&mut self) -> (r: Option<&mut T>)
        requires
            old(self).wf(),
        ensures
            final(self).wf(),
            *final(final(self).target()) == *final(old(self).target()),
            final(self).list().slots() == old(self).list().slots(),
            old(self).position() == old(self).list()@.len() ==> {
                &&& r is None
                &&& final(self).position() == old(self).position()
                &&& final(self).list()@ == old(self).list()@
            },
            old(self).position() < old(self).list()@.len() ==> {
                &&& r is Some
                &&& *r->Some_0 == old(self).list()@[old(self).position()]
                &&& final(self).position() == old(self).position() + 1
                &&& final(self).list()@ == old(self).list()@.update(old(self).position(), *final(r->Some_0))
            },
    {
        match self.next {
            None => None,
            Some(i) => {
                let ghost k = self.pos@;
                proof {
                    assert(self.list.chain@[k] < self.list.nodes@.len());
                    assert(self.list.nodes@[i as int] is Some);
                    assert(self.list.node(self.list.chain@[k] as int).next == self.list.succ(k));
                }
                self.next = self.list.next_handle(i);
                self.pos = Ghost(k + 1);
                Some(self.list.data_mut(i, Ghost(k)))
            },
        }
    }
}

} // verus!
