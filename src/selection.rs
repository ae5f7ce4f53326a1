//! The selection store: per branch, the child that was last selected.

use crate::slots::{
    is_key_bits, key_bits, records_get, records_insert, records_new, records_remove, slot_of_key, slots_of,
    Records,
};
use crate::tree::{index_in, NodeId, NodeMap};
use vstd::prelude::*;

verus! {

/// The record kept for one branch.
#[derive(Clone, Copy, Debug, PartialEq, Eq, Structural)]
pub struct SelectionInfo {
    /// The child of the branch that was selected last.
    pub selected_child: NodeId,
    /// Whether a walk from above ends at this branch instead of going on
    /// into `selected_child`.
    pub stop_here: bool,
}

/// A structural change of the tree, announced to the store.
#[derive(Clone, Copy, Debug, PartialEq, Eq, Structural)]
pub enum TreeEvent {
    /// A new node now exists.
    AddedToForest(NodeId),
    /// A node was attached under a parent.
    AddedToParent(NodeId),
    /// The subtree at `src` was duplicated as the subtree at `dest`, with the
    /// same shape.
    Copied { src: NodeId, dest: NodeId },
    /// The node is about to be taken from its parent; both are still linked.
    RemovingFromParent(NodeId),
    /// The node no longer exists.
    RemovedFromForest(NodeId),
}

/// For each branch of the tree that has one, the child selected there last.
pub struct Selection {
    nodes: Records,
}

/// The record that selects `child`, with the walk going on through it.
pub open spec fn pick(child: NodeId) -> SelectionInfo {
    SelectionInfo { selected_child: child, stop_here: false }
}

/// A walk from above ends at `n`: it has no record, or its record says stop.
pub open spec fn halts_at(recs: Map<NodeId, SelectionInfo>, n: NodeId) -> bool {
    !recs.contains_key(n) || recs[n].stop_here
}

/// Follows the records from `n`, at most `fuel` steps, until a node where a
/// walk halts.
pub open spec fn walk(recs: Map<NodeId, SelectionInfo>, n: NodeId, fuel: nat) -> NodeId
    decreases fuel,
{
    if fuel > 0 && !halts_at(recs, n) {
        walk(recs, recs[n].selected_child, (fuel - 1) as nat)
    } else {
        n
    }
}

/// Every record names a node of `map` and selects one of that node's children.
pub open spec fn consistent(recs: Map<NodeId, SelectionInfo>, map: NodeMap) -> bool {
    forall|n: NodeId|
        #[trigger] recs.contains_key(n) ==> {
            &&& map.contains(n)
            &&& map.contains(recs[n].selected_child)
            &&& map.parent_of(recs[n].selected_child) == Some(n)
        }
}

/// `recs` with `n`'s record, if it has one, told to stop there.
pub open spec fn mark_stop(recs: Map<NodeId, SelectionInfo>, n: NodeId) -> Map<NodeId, SelectionInfo> {
    if recs.contains_key(n) {
        recs.insert(n, SelectionInfo { stop_here: true, ..recs[n] })
    } else {
        recs
    }
}

/// Going up from `n`, at most `fuel` steps, each parent gets a record that
/// selects the node the walk came from.
pub open spec fn point_up(
    recs: Map<NodeId, SelectionInfo>,
    map: NodeMap,
    n: NodeId,
    fuel: nat,
) -> Map<NodeId, SelectionInfo>
    decreases fuel,
{
    if fuel == 0 {
        recs
    } else {
        match map.parent_of(n) {
            None => recs,
            Some(p) => point_up(recs.insert(p, pick(n)), map, p, (fuel - 1) as nat),
        }
    }
}

/// What `select(n)` makes of `recs`.
pub open spec fn selected(recs: Map<NodeId, SelectionInfo>, map: NodeMap, n: NodeId) -> Map<
    NodeId,
    SelectionInfo,
> {
    point_up(mark_stop(recs, n), map, n, map.size())
}

/// A `Copied` event can be followed: where `src` has a record, its selected
/// child stands among `src`'s children at a place that `dest`'s children have
/// too.
pub open spec fn copy_fits(recs: Map<NodeId, SelectionInfo>, map: NodeMap, src: NodeId, dest: NodeId) -> bool {
    recs.contains_key(src) ==> exists|i: int|
        0 <= i < map.children_of(src).len() && i < map.children_of(dest).len()
            && map.children_of(src)[i] == recs[src].selected_child
}

/// The nodes that `ev` names are in `map`, in the relation that `ev` claims.
pub open spec fn event_fits(recs: Map<NodeId, SelectionInfo>, map: NodeMap, ev: TreeEvent) -> bool {
    match ev {
        TreeEvent::Copied { src, dest } => map.contains(src) && map.contains(dest) && copy_fits(
            recs,
            map,
            src,
            dest,
        ),
        TreeEvent::RemovingFromParent(n) => map.contains(n) && map.parent_of(n) is Some,
        _ => true,
    }
}

/// The sibling that takes `n`'s place: the next one, else the previous one.
pub open spec fn successor(map: NodeMap, n: NodeId) -> Option<NodeId> {
    match map.sibling_of(n, 1) {
        Some(s) => Some(s),
        None => map.sibling_of(n, -1),
    }
}

/// What handling `ev` makes of `recs`.
pub open spec fn after_event(recs: Map<NodeId, SelectionInfo>, map: NodeMap, ev: TreeEvent) -> Map<
    NodeId,
    SelectionInfo,
> {
    match ev {
        TreeEvent::Copied { src, dest } => {
            if recs.contains_key(src) {
                let i = index_in(map.children_of(src), recs[src].selected_child);
                recs.insert(
                    dest,
                    SelectionInfo {
                        selected_child: map.children_of(dest)[i],
                        stop_here: recs[src].stop_here,
                    },
                )
            } else {
                recs
            }
        },
        TreeEvent::RemovingFromParent(n) => {
            let p = map.parent_of(n)->Some_0;
            if recs.contains_key(p) && recs[p].selected_child == n {
                match successor(map, n) {
                    Some(s) => recs.insert(p, SelectionInfo { selected_child: s, ..recs[p] }),
                    None => recs.remove(p),
                }
            } else {
                recs
            }
        },
        TreeEvent::RemovedFromForest(n) => recs.remove(n),
        _ => recs,
    }
}

/// The slot key of a node.
fn key(n: NodeId) -> (k: u64)
    ensures
        k == key_bits(n.0),
        is_key_bits(k),
        slot_of_key(k) == n.0,
{
    0x1_0000_0000u64 + n.0 as u64
}

impl View for Selection {
    type V = Map<NodeId, SelectionInfo>;

    closed spec fn view(&self) -> Map<NodeId, SelectionInfo> {
        Map::new(
            |n: NodeId| slots_of(self.nodes).contains_key(n.0),
            |n: NodeId| slots_of(self.nodes)[n.0].1,
        )
    }
}

impl Selection {
    /// Every occupied slot was filled with a key of version 1.
    pub closed spec fn wf(&self) -> bool {
        forall|i: u32| #[trigger] slots_of(self.nodes).contains_key(i) ==> slots_of(self.nodes)[i].0 == 1
    }

    /// A store with no record.
    pub fn new() -> (r: Selection)
        ensures
            r.wf(),
            r@ == Map::<NodeId, SelectionInfo>::empty(),
    {
        let r = Selection { nodes: records_new() };
        assert(r@ =~= Map::<NodeId, SelectionInfo>::empty());
        r
    }

    fn get(&self, n: NodeId) -> (r: Option<SelectionInfo>)
        requires
            self.wf(),
        ensures
            r == (if self@.contains_key(n) {
                Some(self@[n])
            } else {
                None
            }),
    {
        records_get(&self.nodes, key(n))
    }

    fn put(&mut self, n: NodeId, info: SelectionInfo) -> (r: Option<SelectionInfo>)
        requires
            old(self).wf(),
            n.0 < u32::MAX,
        ensures
            final(self).wf(),
            final(self)@ == old(self)@.insert(n, info),
            r == (if old(self)@.contains_key(n) {
                Some(old(self)@[n])
            } else {
                None
            }),
    {
        let r = records_insert(&mut self.nodes, key(n), info);
        assert(self@ =~= old(self)@.insert(n, info));
        r
    }

    fn delete(&mut self, n: NodeId)
        requires
            old(self).wf(),
        ensures
            final(self).wf(),
            final(self)@ == old(self)@.remove(n),
    {
        records_remove(&mut self.nodes, key(n));
        assert(self@ =~= old(self)@.remove(n));
    }

    /// The node where the walk down from `root` ends.
    pub fn current_selection(&self, map: &NodeMap, root: NodeId) -> (r: NodeId)
        requires
            self.wf(),
            map.wf(),
            map.contains(root),
            consistent(self@, *map),
        ensures
            r == walk(self@, root, map.size()),
            halts_at(self@, r),
    {
        let mut node = root;
        let ghost mut steps: nat = 0;
        proof {
            map.lemma_node(root);
        }
        loop
            invariant
                self.wf(),
                map.wf(),
                consistent(self@, *map),
                map.contains(node),
                steps <= map.depth_of(node),
                walk(self@, root, map.size()) == walk(self@, node, (map.size() - steps) as nat),
            ensures
                walk(self@, root, map.size()) == node,
                halts_at(self@, node),
            decreases map.size() - map.depth_of(node),
        {
            proof {
                map.lemma_node(node);
            }
            let info = match self.get(node) {
                None => break,
                Some(info) => info,
            };
            if info.stop_here {
                break;
            }
            proof {
                map.lemma_node(info.selected_child);
            }
            node = info.selected_child;
            proof {
                steps = steps + 1;
            }
        }
        node
    }

    /// The child that `node`'s record selects, whether or not the walk stops
    /// at `node`.
    pub fn last_selection(&self, _map: &NodeMap, node: NodeId) -> (r: Option<NodeId>)
        requires
            self.wf(),
        ensures
            r == (if self@.contains_key(node) {
                Some(self@[node].selected_child)
            } else {
                None
            }),
    {
        match self.get(node) {
            Some(info) => Some(info.selected_child),
            None => None,
        }
    }

    /// The child that `node`'s record selects, where the walk goes on
    /// through it; it is always a child of `node`.
    pub fn local_selection(&self, map: &NodeMap, node: NodeId) -> (r: Option<NodeId>)
        requires
            self.wf(),
            consistent(self@, *map),
        ensures
            r == (if self@.contains_key(node) && !self@[node].stop_here {
                Some(self@[node].selected_child)
            } else {
                None
            }),
            r matches Some(c) ==> map.parent_of(c) == Some(node),
    {
        match self.get(node) {
            Some(info) => {
                if info.stop_here {
                    None
                } else {
                    Some(info.selected_child)
                }
            },
            None => None,
        }
    }

    /// Makes `node` the selected child of its parent. Returns whether the
    /// parent's selected child changed (or the parent had no record); a
    /// node with no parent changes nothing.
    pub fn select_locally(&mut self, map: &NodeMap, node: NodeId) -> (r: bool)
        requires
            old(self).wf(),
            map.wf(),
            map.contains(node),
        ensures
            final(self).wf(),
            match map.parent_of(node) {
                None => !r && final(self)@ == old(self)@,
                Some(p) => {
                    &&& final(self)@ == old(self)@.insert(p, pick(node))
                    &&& r == (!old(self)@.contains_key(p) || old(self)@[p].selected_child != node)
                },
            },
            consistent(old(self)@, *map) ==> consistent(final(self)@, *map),
    {
        proof {
            map.lemma_node(node);
        }
        match map.parent(node) {
            Some(parent) => {
                let prev = self.put(parent, SelectionInfo { selected_child: node, stop_here: false });
                match prev {
                    Some(info) => info.selected_child != node,
                    None => true,
                }
            },
            None => false,
        }
    }

    /// Makes `node` the selection of the whole path from its root down to it:
    /// its own record, if any, is told to stop, and each ancestor selects the
    /// child on the path.
    pub fn select(&mut self, map: &NodeMap, selection: NodeId)
        requires
            old(self).wf(),
            map.wf(),
            map.contains(selection),
        ensures
            final(self).wf(),
            final(self)@ == selected(old(self)@, *map, selection),
            consistent(old(self)@, *map) ==> consistent(final(self)@, *map),
    {
        let ghost recs0 = self@;
        proof {
            map.lemma_node(selection);
        }
        if let Some(info) = self.get(selection) {
            self.put(selection, SelectionInfo { selected_child: info.selected_child, stop_here: true });
        }
        assert(self@ == mark_stop(recs0, selection));
        let mut node = selection;
        proof {
            map.lemma_node(node);
        }
        let ghost mut fuel: nat = map.size();
        loop
            invariant
                self.wf(),
                map.wf(),
                map.contains(node),
                map.depth_of(node) < fuel,
                selected(recs0, *map, selection) == point_up(self@, *map, node, fuel),
                consistent(recs0, *map) ==> consistent(self@, *map),
            ensures
                self.wf(),
                selected(recs0, *map, selection) == self@,
                consistent(recs0, *map) ==> consistent(self@, *map),
            decreases map.depth_of(node),
        {
            proof {
                map.lemma_node(node);
            }
            let parent = match map.parent(node) {
                None => break,
                Some(p) => p,
            };
            self.put(parent, SelectionInfo { selected_child: node, stop_here: false });
            node = parent;
            proof {
                fuel = (fuel - 1) as nat;
            }
        }
    }

    /// Brings the records in line with a structural change of the tree.
    pub fn handle_event(&mut self, map: &NodeMap, event: TreeEvent)
        requires
            old(self).wf(),
            map.wf(),
            event_fits(old(self)@, *map, event),
        ensures
            final(self).wf(),
            final(self)@ == after_event(old(self)@, *map, event),
            consistent(old(self)@, *map) ==> consistent(final(self)@, *map),
    {
        match event {
            TreeEvent::AddedToForest(_) => {},
            TreeEvent::AddedToParent(_) => {},
            TreeEvent::Copied { src, dest } => {
                let info = match self.get(src) {
                    None => return ,
                    Some(info) => info,
                };
                let sc = map.children(src);
                let dc = map.children(dest);
                let ghost w = choose|w: int|
                    0 <= w < sc@.len() && w < dc@.len() && sc@[w] == info.selected_child;
                let mut i: usize = 0;
                while i < sc.len() && i < dc.len() && sc[i] != info.selected_child
                    invariant
                        i <= sc@.len(),
                        i <= dc@.len(),
                        0 <= w < sc@.len() && w < dc@.len() && sc@[w] == info.selected_child,
                        forall|k: int| 0 <= k < i ==> sc@[k] != info.selected_child,
                    decreases sc@.len() - i,
                {
                    i = i + 1;
                }
                proof {
                    map.lemma_index_unique(src, i as int);
                    map.lemma_node(dest);
                }
                self.put(
                    dest,
                    SelectionInfo { selected_child: dc[i], stop_here: info.stop_here },
                );
            },
            TreeEvent::RemovingFromParent(node) => {
                proof {
                    map.lemma_node(node);
                }
                let parent = map.parent(node).unwrap();
                let info = match self.get(parent) {
                    None => return ,
                    Some(info) => info,
                };
                if info.selected_child == node {
                    let next = map.next_sibling(node);
                    let promoted = match next {
                        Some(s) => Some(s),
                        None => map.prev_sibling(node),
                    };
                    match promoted {
                        Some(s) => {
                            proof {
                                map.lemma_node(parent);
                            }
                            self.put(parent, SelectionInfo { selected_child: s, stop_here: info.stop_here });
                        },
                        None => {
                            self.delete(parent);
                        },
                    }
                }
            },
            TreeEvent::RemovedFromForest(node) => {
                self.delete(node);
            },
        }
    }
}

impl Default for Selection {
    fn default() -> (r: Selection)
        ensures
            r.wf(),
            r@ == Map::<NodeId, SelectionInfo>::empty(),
    {
        Selection::new()
    }
}

} // verus!
