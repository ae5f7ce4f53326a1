//! The tree that a selection store follows: parents, ordered children and
//! siblings, read by node identifier.

use vstd::prelude::*;

verus! {

/// A handle for one node of a [`NodeMap`].
#[derive(Clone, Copy, Debug, PartialEq, Eq, Hash, Structural)]
pub struct NodeId(pub u32);

/// Where `n` stands in `cs`.
pub open spec fn index_in(cs: Seq<NodeId>, n: NodeId) -> int {
    choose|j: int| 0 <= j < cs.len() && cs[j] == n
}

/// The item `delta` places after `n` in `cs`, if there is one.
pub open spec fn shifted(cs: Seq<NodeId>, n: NodeId, delta: int) -> Option<NodeId> {
    let j = index_in(cs, n) + delta;
    if 0 <= j < cs.len() {
        Some(cs[j])
    } else {
        None
    }
}

/// Finds where `n` stands in `cs`.
fn find_index(cs: &Vec<NodeId>, n: NodeId) -> (r: usize)
    requires
        cs@.contains(n),
    ensures
        r < cs@.len(),
        cs@[r as int] == n,
{
    let mut i: usize = 0;
    while i < cs.len()
        invariant
            i <= cs@.len(),
            cs@.contains(n),
            forall|k: int| 0 <= k < i ==> cs@[k] != n,
        decreases cs@.len() - i,
    {
        if cs[i] == n {
            return i;
        }
        i = i + 1;
    }
    i
}

/// A rooted forest whose nodes keep their parent and their ordered children.
pub struct NodeMap {
    parents: Vec<Option<NodeId>>,
    children: Vec<Vec<NodeId>>,
    /// Distance of each node from the root of its tree.
    depth: Ghost<Seq<nat>>,
}

impl NodeMap {
    /// Number of nodes ever made.
    pub closed spec fn size(&self) -> nat {
        self.parents@.len()
    }

    pub open spec fn contains(&self, n: NodeId) -> bool {
        n.0 < self.size()
    }

    pub closed spec fn parent_of(&self, n: NodeId) -> Option<NodeId> {
        self.parents@[n.0 as int]
    }

    pub closed spec fn children_of(&self, n: NodeId) -> Seq<NodeId> {
        self.children@[n.0 as int]@
    }

    pub closed spec fn depth_of(&self, n: NodeId) -> nat {
        self.depth@[n.0 as int]
    }

    /// Parents and children agree, every parent lies strictly closer to the
    /// root than its children, and no child is listed twice.
    pub closed spec fn wf(&self) -> bool {
        &&& self.parents@.len() == self.children@.len()
        &&& self.parents@.len() == self.depth@.len()
        &&& self.parents@.len() < u32::MAX
        &&& forall|i: int|
            0 <= i < self.parents@.len() ==> #[trigger] self.depth@[i] <= i
        &&& forall|i: int|
            #![trigger self.parents@[i]]
            0 <= i < self.parents@.len() && self.parents@[i] is Some ==> {
                let p = self.parents@[i]->Some_0;
                &&& p.0 < self.parents@.len()
                &&& self.depth@[p.0 as int] < self.depth@[i]
                &&& self.children@[p.0 as int]@.contains(NodeId(i as u32))
            }
        &&& forall|p: int, j: int|
            0 <= p < self.children@.len() && 0 <= j < self.children@[p]@.len() ==> {
                let c = #[trigger] self.children@[p]@[j];
                &&& c.0 < self.parents@.len()
                &&& self.parents@[c.0 as int] == Some(NodeId(p as u32))
            }
        &&& forall|p: int, j: int, k: int|
            0 <= p < self.children@.len() && 0 <= j < self.children@[p]@.len() && 0 <= k
                < self.children@[p]@.len() && j != k ==> #[trigger] self.children@[p]@[j]
                != #[trigger] self.children@[p]@[k]
    }

    /// Facts that the well-formedness gives about one node.
    pub proof fn lemma_node(&self, n: NodeId)
        requires
            self.wf(),
            self.contains(n),
        ensures
            self.size() < u32::MAX,
            self.depth_of(n) < self.size(),
            self.parent_of(n) matches Some(p) ==> {
                &&& self.contains(p)
                &&& self.depth_of(p) < self.depth_of(n)
                &&& self.children_of(p).contains(n)
            },
            forall|j: int|
                0 <= j < self.children_of(n).len() ==> {
                    &&& self.contains(#[trigger] self.children_of(n)[j])
                    &&& self.parent_of(self.children_of(n)[j]) == Some(n)
                },
    {
        assert(self.depth@[n.0 as int] <= n.0);
        assert(NodeId(n.0 as u32) == n);
        assert forall|j: int| 0 <= j < self.children_of(n).len() implies {
            &&& self.contains(#[trigger] self.children_of(n)[j])
            &&& self.parent_of(self.children_of(n)[j]) == Some(n)
        } by {}
    }

    /// The sibling `delta` places after `n`, if `n` has a parent and there is one.
    pub open spec fn sibling_of(&self, n: NodeId, delta: int) -> Option<NodeId> {
        match self.parent_of(n) {
            Some(p) => shifted(self.children_of(p), n, delta),
            None => None,
        }
    }

    /// In a list of children, a node stands at one place only.
    pub proof fn lemma_index_unique(&self, p: NodeId, j: int)
        requires
            self.wf(),
            self.contains(p),
            0 <= j < self.children_of(p).len(),
        ensures
            index_in(self.children_of(p), self.children_of(p)[j]) == j,
    {
        let cs = self.children_of(p);
        let k = index_in(cs, cs[j]);
        assert(0 <= k < cs.len() && cs[k] == cs[j]);
        assert(self.children@[p.0 as int]@[j] == cs[j]);
        assert(self.children@[p.0 as int]@[k] == cs[k]);
    }

    /// The parent of `n`.
    pub fn parent(&self, n: NodeId) -> (r: Option<NodeId>)
        requires
            self.wf(),
            self.contains(n),
        ensures
            r == self.parent_of(n),
    {
        self.parents[n.0 as usize]
    }

    /// The children of `n`, in order.
    pub fn children(&self, n: NodeId) -> (r: &Vec<NodeId>)
        requires
            self.wf(),
            self.contains(n),
        ensures
            r@ == self.children_of(n),
    {
        &self.children[n.0 as usize]
    }

    fn sibling(&self, n: NodeId, next: bool) -> (r: Option<NodeId>)
        requires
            self.wf(),
            self.contains(n),
        ensures
            r == self.sibling_of(n, if next { 1 } else { -1 }),
    {
        proof {
            self.lemma_node(n);
        }
        match self.parents[n.0 as usize] {
            None => None,
            Some(p) => {
                let cs = &self.children[p.0 as usize];
                let j = find_index(cs, n);
                proof {
                    self.lemma_index_unique(p, j as int);
                }
                if next {
                    if j < cs.len() - 1 {
                        Some(cs[j + 1])
                    } else {
                        None
                    }
                } else {
                    if j > 0 {
                        Some(cs[j - 1])
                    } else {
                        None
                    }
                }
            },
        }
    }

    /// The sibling right after `n`, if any.
    pub fn next_sibling(&self, n: NodeId) -> (r: Option<NodeId>)
        requires
            self.wf(),
            self.contains(n),
        ensures
            r == self.sibling_of(n, 1),
    {
        self.sibling(n, true)
    }

    /// The sibling right before `n`, if any.
    pub fn prev_sibling(&self, n: NodeId) -> (r: Option<NodeId>)
        requires
            self.wf(),
            self.contains(n),
        ensures
            r == self.sibling_of(n, -1),
    {
        self.sibling(n, false)
    }

    /// An empty forest.
    pub fn new() -> (r: NodeMap)
        ensures
            r.wf(),
            r.size() == 0,
    {
        NodeMap { parents: Vec::new(), children: Vec::new(), depth: Ghost(Seq::empty()) }
    }

    /// Adds a node with no parent and no children.
    pub fn add_root(&mut self) -> (r: NodeId)
        requires
            old(self).wf(),
            old(self).size() + 1 < u32::MAX,
        ensures
            final(self).wf(),
            r.0 == old(self).size(),
            final(self).size() == old(self).size() + 1,
            final(self).parent_of(r) is None,
            final(self).children_of(r) == Seq::<NodeId>::empty(),
            forall|n: NodeId|
                old(self).contains(n) ==> final(self).parent_of(n) == old(self).parent_of(n)
                    && final(self).children_of(n) == old(self).children_of(n),
    {
        let r = NodeId(self.parents.len() as u32);
        self.parents.push(None);
        self.children.push(Vec::new());
        self.depth = Ghost(self.depth@.push(0));
        r
    }

    /// Adds a node as the last child of `parent`.
    pub fn add_child(&mut self, parent: NodeId) -> (r: NodeId)
        requires
            old(self).wf(),
            old(self).contains(parent),
            old(self).size() + 1 < u32::MAX,
        ensures
            final(self).wf(),
            r.0 == old(self).size(),
            final(self).size() == old(self).size() + 1,
            final(self).parent_of(r) == Some(parent),
            final(self).children_of(r) == Seq::<NodeId>::empty(),
            final(self).children_of(parent) == old(self).children_of(parent).push(r),
            forall|n: NodeId|
                old(self).contains(n) && n != parent ==> final(self).parent_of(n)
                    == old(self).parent_of(n) && final(self).children_of(n)
                    == old(self).children_of(n),
            final(self).parent_of(parent) == old(self).parent_of(parent),
    {
        let ghost old_self = *self;
        let r = NodeId(self.parents.len() as u32);
        let ghost d = self.depth@[parent.0 as int] + 1;
        self.parents.push(Some(parent));
        self.children.push(Vec::new());
        self.children[parent.0 as usize].push(r);
        self.depth = Ghost(self.depth@.push(d));
        proof {
            let len = self.parents@.len();
            assert forall|p: int, j: int|
                0 <= p < self.children@.len() && 0 <= j < self.children@[p]@.len() implies {
                let c = #[trigger] self.children@[p]@[j];
                &&& c.0 < self.parents@.len()
                &&& self.parents@[c.0 as int] == Some(NodeId(p as u32))
            } by {
                if p != parent.0 || j < old_self.children@[p]@.len() {
                    let c = old_self.children@[p]@[j];
                    assert(c.0 < old_self.parents@.len());
                }
            }
            assert forall|p: int, j: int, k: int|
                0 <= p < self.children@.len() && 0 <= j < self.children@[p]@.len() && 0 <= k
                    < self.children@[p]@.len() && j != k implies #[trigger] self.children@[p]@[j]
                != #[trigger] self.children@[p]@[k] by {
                if p == parent.0 {
                    let oc = old_self.children@[p]@;
                    if j < oc.len() {
                        assert(oc[j].0 < old_self.parents@.len());
                    }
                    if k < oc.len() {
                        assert(oc[k].0 < old_self.parents@.len());
                    }
                }
            }
            assert forall|i: int|
                #![trigger self.parents@[i]]
                0 <= i < self.parents@.len() && self.parents@[i] is Some implies {
                let p = self.parents@[i]->Some_0;
                &&& p.0 < self.parents@.len()
                &&& self.depth@[p.0 as int] < self.depth@[i]
                &&& self.children@[p.0 as int]@.contains(NodeId(i as u32))
            } by {
                let p = self.parents@[i]->Some_0;
                if i < old_self.parents@.len() {
                    assert(old_self.parents@[i] == self.parents@[i]);
                    if p == parent {
                        assert(old_self.children@[p.0 as int]@.contains(NodeId(i as u32)));
                        let w = choose|w: int|
                            0 <= w < old_self.children@[p.0 as int]@.len()
                                && old_self.children@[p.0 as int]@[w] == NodeId(i as u32);
                        assert(self.children@[p.0 as int]@[w] == NodeId(i as u32));
                    }
                } else {
                    assert(self.children@[p.0 as int]@.last() == r);
                }
            }
            assert forall|n: NodeId|
                old_self.contains(n) && n != parent implies self.parent_of(n) == old_self.parent_of(
                n) && self.children_of(n) == old_self.children_of(n) by {
                assert(n.0 != parent.0);
            }
        }
        r
    }

    /// Takes `n` out of its parent's children; `n` keeps its own subtree.
    pub fn detach(&mut self, n: NodeId)
        requires
            old(self).wf(),
            old(self).contains(n),
            old(self).parent_of(n) is Some,
        ensures
            final(self).wf(),
            final(self).size() == old(self).size(),
            final(self).parent_of(n) is None,
            ({
                let p = old(self).parent_of(n)->Some_0;
                final(self).children_of(p) == old(self).children_of(p).remove(
                    index_in(old(self).children_of(p), n),
                )
            }),
            forall|m: NodeId|
                old(self).contains(m) && m != n ==> final(self).parent_of(m) == old(self).parent_of(
                    m,
                ),
            forall|m: NodeId|
                old(self).contains(m) && Some(m) != old(self).parent_of(n) ==> final(self).children_of(m) == old(self).children_of(m),
    {
        let ghost old_self = *self;
        proof {
            self.lemma_node(n);
        }
        let p = self.parents[n.0 as usize].unwrap();
        let j = find_index(&self.children[p.0 as usize], n);
        proof {
            self.lemma_index_unique(p, j as int);
        }
        self.children[p.0 as usize].remove(j);
        self.parents.set(n.0 as usize, None);
        proof {
            let oc = old_self.children@[p.0 as int]@;
            assert forall|q: int, k: int|
                0 <= q < self.children@.len() && 0 <= k < self.children@[q]@.len() implies {
                let c = #[trigger] self.children@[q]@[k];
                &&& c.0 < self.parents@.len()
                &&& self.parents@[c.0 as int] == Some(NodeId(q as u32))
            } by {
                if q == p.0 {
                    let k2 = if k < j { k } else { k + 1 };
                    assert(self.children@[q]@[k] == oc[k2]);
                    assert(old_self.children@[q]@[k2] == oc[k2]);
                    assert(oc[k2] != oc[j as int]);
                } else {
                    let c = old_self.children@[q]@[k];
                    if c == n {
                        assert(old_self.parents@[c.0 as int] == Some(NodeId(q as u32)));
                    }
                }
            }
            assert forall|q: int, a: int, b: int|
                0 <= q < self.children@.len() && 0 <= a < self.children@[q]@.len() && 0 <= b
                    < self.children@[q]@.len() && a != b implies #[trigger] self.children@[q]@[a]
                != #[trigger] self.children@[q]@[b] by {
                if q == p.0 {
                    let a2 = if a < j { a } else { a + 1 };
                    let b2 = if b < j { b } else { b + 1 };
                    assert(self.children@[q]@[a] == old_self.children@[q]@[a2]);
                    assert(self.children@[q]@[b] == old_self.children@[q]@[b2]);
                }
            }
            assert forall|i: int|
                #![trigger self.parents@[i]]
                0 <= i < self.parents@.len() && self.parents@[i] is Some implies {
                let q = self.parents@[i]->Some_0;
                &&& q.0 < self.parents@.len()
                &&& self.depth@[q.0 as int] < self.depth@[i]
                &&& self.children@[q.0 as int]@.contains(NodeId(i as u32))
            } by {
                let q = self.parents@[i]->Some_0;
                assert(old_self.parents@[i] == self.parents@[i]);
                assert(old_self.children@[q.0 as int]@.contains(NodeId(i as u32)));
                if q == p {
                    let w = choose|w: int|
                        0 <= w < oc.len() && oc[w] == NodeId(i as u32);
                    assert(i != n.0);
                    assert(w != j);
                    let w2 = if w < j { w } else { w - 1 };
                    assert(self.children@[q.0 as int]@[w2] == NodeId(i as u32));
                }
            }
            assert forall|m: NodeId|
                old_self.contains(m) && Some(m) != old_self.parent_of(n) implies self.children_of(m)
                == old_self.children_of(m) by {
                assert(m.0 != p.0);
            }
            assert forall|m: NodeId|
                old_self.contains(m) && m != n implies self.parent_of(m) == old_self.parent_of(m) by {
                assert(m.0 != n.0);
            }
        }
    }

    /// Swaps `n` with the sibling right before it; does nothing where there is none.
    pub fn move_left(&mut self, n: NodeId)
        requires
            old(self).wf(),
            old(self).contains(n),
        ensures
            final(self).wf(),
            final(self).size() == old(self).size(),
            forall|m: NodeId|
                old(self).contains(m) ==> final(self).parent_of(m) == old(self).parent_of(m),
            old(self).sibling_of(n, -1) is None ==> *final(self) == *old(self),
            old(self).sibling_of(n, -1) matches Some(s) ==> ({
                let p = old(self).parent_of(n)->Some_0;
                let j = index_in(old(self).children_of(p), n);
                final(self).children_of(p) == old(self).children_of(p).update(j - 1, n).update(
                    j,
                    s,
                )
            }),
            forall|m: NodeId|
                old(self).contains(m) && Some(m) != old(self).parent_of(n) ==> final(self).children_of(m) == old(self).children_of(m),
    {
        let ghost old_self = *self;
        proof {
            self.lemma_node(n);
        }
        let p = match self.parents[n.0 as usize] {
            None => return,
            Some(p) => p,
        };
        let j = find_index(&self.children[p.0 as usize], n);
        proof {
            self.lemma_index_unique(p, j as int);
        }
        if j == 0 {
            return;
        }
        let s = self.children[p.0 as usize][j - 1];
        self.children[p.0 as usize].set(j - 1, n);
        self.children[p.0 as usize].set(j, s);
        proof {
            let oc = old_self.children@[p.0 as int]@;
            let nc = self.children@[p.0 as int]@;
            assert forall|k: int| 0 <= k < nc.len() implies #[trigger] nc[k] == oc[if k == j - 1 {
                j as int
            } else if k == j {
                j - 1
            } else {
                k
            }] by {}
            assert forall|k: int| 0 <= k < oc.len() implies #[trigger] oc[k] == nc[if k == j - 1 {
                j as int
            } else if k == j {
                j - 1
            } else {
                k
            }] by {}
            assert forall|q: int, k: int|
                0 <= q < self.children@.len() && 0 <= k < self.children@[q]@.len() implies {
                let c = #[trigger] self.children@[q]@[k];
                &&& c.0 < self.parents@.len()
                &&& self.parents@[c.0 as int] == Some(NodeId(q as u32))
            } by {
                if q == p.0 {
                    assert(nc[k] == self.children@[q]@[k]);
                }
            }
            assert forall|q: int, a: int, b: int|
                0 <= q < self.children@.len() && 0 <= a < self.children@[q]@.len() && 0 <= b
                    < self.children@[q]@.len() && a != b implies #[trigger] self.children@[q]@[a]
                != #[trigger] self.children@[q]@[b] by {
                if q == p.0 {
                    assert(nc[a] == self.children@[q]@[a]);
                    assert(nc[b] == self.children@[q]@[b]);
                }
            }
            assert forall|i: int|
                #![trigger self.parents@[i]]
                0 <= i < self.parents@.len() && self.parents@[i] is Some implies {
                let q = self.parents@[i]->Some_0;
                &&& q.0 < self.parents@.len()
                &&& self.depth@[q.0 as int] < self.depth@[i]
                &&& self.children@[q.0 as int]@.contains(NodeId(i as u32))
            } by {
                let q = self.parents@[i]->Some_0;
                assert(old_self.children@[q.0 as int]@.contains(NodeId(i as u32)));
                if q == p {
                    let w = choose|w: int| 0 <= w < oc.len() && oc[w] == NodeId(i as u32);
                    let w2 = if w == j - 1 {
                        j as int
                    } else if w == j {
                        j - 1
                    } else {
                        w
                    };
                    assert(nc[w2] == NodeId(i as u32));
                }
            }
            assert(nc =~= oc.update(j - 1, n).update(j as int, s));
            assert forall|m: NodeId|
                old_self.contains(m) && Some(m) != old_self.parent_of(n) implies self.children_of(m)
                == old_self.children_of(m) by {
                assert(m.0 != p.0);
            }
        }
    }
}

} // verus!
