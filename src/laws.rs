//! What holds of the store across several operations.

use crate::selection::{
    after_event, event_fits, halts_at, mark_stop, pick, point_up, selected, walk, SelectionInfo,
    TreeEvent,
};
use crate::tree::{NodeId, NodeMap};
use vstd::prelude::*;

verus! {

/// `path` goes down `map` one parent-to-child step at a time.
pub open spec fn is_path(map: NodeMap, path: Seq<NodeId>) -> bool {
    &&& path.len() >= 1
    &&& forall|i: int| 0 <= i < path.len() ==> map.contains(#[trigger] path[i])
    &&& forall|i: int|
        0 <= i < path.len() - 1 ==> map.parent_of(#[trigger] path[i + 1]) == Some(path[i])
}

/// Each record along `path`, but at its last node, selects the next node of
/// the path.
pub open spec fn follows(recs: Map<NodeId, SelectionInfo>, path: Seq<NodeId>) -> bool {
    forall|i: int|
        0 <= i < path.len() - 1 ==> #[trigger] recs.contains_key(path[i])
            && recs[path[i]].selected_child == path[i + 1]
}

/// A path is no longer than its last node is deep.
proof fn lemma_path_depth(map: NodeMap, path: Seq<NodeId>)
    requires
        map.wf(),
        is_path(map, path),
    ensures
        map.depth_of(path.last()) >= map.depth_of(path[0]) + path.len() - 1,
        path.len() <= map.size(),
    decreases path.len(),
{
    map.lemma_node(path.last());
    if path.len() > 1 {
        let front = path.drop_last();
        assert(is_path(map, front)) by {
            assert forall|i: int| 0 <= i < front.len() - 1 implies map.parent_of(
                #[trigger] front[i + 1],
            ) == Some(front[i]) by {
                assert(front[i + 1] == path[i + 1]);
            }
        }
        lemma_path_depth(map, front);
        let k = path.len() - 2;
        assert(map.parent_of(path[k + 1]) == Some(path[k]));
    }
}

/// A walk along records that follow a path goes down the path while no
/// record on it says stop.
proof fn lemma_walk_along(recs: Map<NodeId, SelectionInfo>, path: Seq<NodeId>, fuel: nat)
    requires
        path.len() >= 1,
        follows(recs, path),
        fuel >= path.len() - 1,
    ensures
        walk(recs, path[0], fuel) == walk(recs, path.last(), (fuel - (path.len() - 1)) as nat)
            || exists|i: int|
            0 <= i < path.len() - 1 && recs[path[i]].stop_here && walk(recs, path[0], fuel)
                == path[i],
    decreases path.len(),
{
    if path.len() > 1 {
        assert(recs.contains_key(path[0]));
        if !recs[path[0]].stop_here {
            let rest = path.drop_first();
            assert(follows(recs, rest)) by {
                assert forall|i: int| 0 <= i < rest.len() - 1 implies #[trigger] recs.contains_key(
                    rest[i],
                ) && recs[rest[i]].selected_child == rest[i + 1] by {
                    assert(rest[i] == path[i + 1]);
                }
            }
            lemma_walk_along(recs, rest, (fuel - 1) as nat);
            assert(walk(recs, path[0], fuel) == walk(recs, rest[0], (fuel - 1) as nat));
            if !(walk(recs, rest[0], (fuel - 1) as nat) == walk(
                recs,
                rest.last(),
                ((fuel - 1) as nat - (rest.len() - 1)) as nat,
            )) {
                let i = choose|i: int|
                    0 <= i < rest.len() - 1 && recs[rest[i]].stop_here && walk(
                        recs,
                        rest[0],
                        (fuel - 1) as nat,
                    ) == rest[i];
                assert(path[i + 1] == rest[i]);
            }
        }
    }
}

/// Where the records down a path from `R` each select the next node of the
/// path, and `R`'s own record lets the walk go on, the current selection
/// under `R` either reaches the path's last node and goes on from there, or
/// ends at a node strictly between whose record says stop.
pub proof fn lemma_path_consistency(recs: Map<NodeId, SelectionInfo>, map: NodeMap, path: Seq<NodeId>)
    requires
        map.wf(),
        is_path(map, path),
        follows(recs, path),
        path.len() > 1 ==> !recs[path[0]].stop_here,
    ensures
        walk(recs, path[0], map.size()) == walk(
            recs,
            path.last(),
            (map.size() - (path.len() - 1)) as nat,
        ) || exists|i: int|
            0 < i < path.len() - 1 && recs[path[i]].stop_here && walk(recs, path[0], map.size())
                == path[i],
{
    lemma_path_depth(map, path);
    lemma_walk_along(recs, path, map.size());
}

/// Going up from `n` changes no record but those of nodes above `n`.
proof fn lemma_point_up_keeps(recs: Map<NodeId, SelectionInfo>, map: NodeMap, n: NodeId, fuel: nat)
    requires
        map.wf(),
        map.contains(n),
    ensures
        forall|k: NodeId|
            !(map.contains(k) && map.depth_of(k) < map.depth_of(n)) ==> (#[trigger] point_up(
                recs,
                map,
                n,
                fuel,
            ).contains_key(k) == recs.contains_key(k) && (recs.contains_key(k) ==> point_up(
                recs,
                map,
                n,
                fuel,
            )[k] == recs[k])),
    decreases fuel,
{
    map.lemma_node(n);
    if fuel > 0 {
        if let Some(p) = map.parent_of(n) {
            let r1 = recs.insert(p, pick(n));
            lemma_point_up_keeps(r1, map, p, (fuel - 1) as nat);
            let res = point_up(recs, map, n, fuel);
            assert(res == point_up(r1, map, p, (fuel - 1) as nat));
            assert forall|k: NodeId| !(map.contains(k) && map.depth_of(k) < map.depth_of(n)) implies (
            #[trigger] res.contains_key(k) == recs.contains_key(k) && (recs.contains_key(k)
                ==> res[k] == recs[k])) by {
                assert(k != p);
                assert(point_up(r1, map, p, (fuel - 1) as nat).contains_key(k) == r1.contains_key(k));
            }
        }
    }
}

/// Going up from the last node of a path, with fuel enough, points every
/// node of the path at the next one.
proof fn lemma_point_up_path(recs: Map<NodeId, SelectionInfo>, map: NodeMap, path: Seq<NodeId>, fuel: nat)
    requires
        map.wf(),
        is_path(map, path),
        fuel >= path.len() - 1,
    ensures
        forall|i: int|
            0 <= i < path.len() - 1 ==> #[trigger] point_up(recs, map, path.last(), fuel).contains_key(path[i])
                && point_up(recs, map, path.last(), fuel)[path[i]] == pick(path[i + 1]),
    decreases path.len(),
{
    if path.len() > 1 {
        let n = path.last();
        let p = path[path.len() - 2];
        let k = path.len() - 2;
        assert(map.parent_of(path[k + 1]) == Some(path[k]));
        assert(point_up(recs, map, n, fuel) == point_up(recs.insert(p, pick(n)), map, p, (fuel - 1) as nat));
        let front = path.drop_last();
        assert(is_path(map, front)) by {
            assert forall|i: int| 0 <= i < front.len() - 1 implies map.parent_of(
                #[trigger] front[i + 1],
            ) == Some(front[i]) by {
                assert(front[i + 1] == path[i + 1]);
            }
        }
        let r1 = recs.insert(p, pick(n));
        lemma_point_up_path(r1, map, front, (fuel - 1) as nat);
        lemma_point_up_keeps(r1, map, p, (fuel - 1) as nat);
        assert forall|i: int| 0 <= i < path.len() - 1 implies #[trigger] point_up(recs, map, path.last(), fuel).contains_key(path[i])
            && point_up(recs, map, path.last(), fuel)[path[i]] == pick(path[i + 1]) by {
            let once = point_up(r1, map, p, (fuel - 1) as nat);
            if i < path.len() - 2 {
                assert(front[i] == path[i] && front[i + 1] == path[i + 1]);
                assert(front.last() == p);
                assert(once.contains_key(front[i]));
            } else {
                assert(path[i] == p);
                assert(map.contains(p));
                assert(once.contains_key(p) == r1.contains_key(p));
            }
        }
    }
}

/// After `select(n)`, the current selection under any node above `n` (or
/// under `n` itself) is `n`.
pub proof fn lemma_select_reaches(recs: Map<NodeId, SelectionInfo>, map: NodeMap, path: Seq<NodeId>)
    requires
        map.wf(),
        is_path(map, path),
    ensures
        walk(selected(recs, map, path.last()), path[0], map.size()) == path.last(),
{
    let n = path.last();
    let marked = mark_stop(recs, n);
    let after = selected(recs, map, n);
    lemma_path_depth(map, path);
    lemma_point_up_path(marked, map, path, map.size());
    lemma_point_up_keeps(marked, map, n, map.size());
    assert(halts_at(after, n));
    assert(follows(after, path)) by {
        assert forall|i: int| 0 <= i < path.len() - 1 implies #[trigger] after.contains_key(path[i])
            && after[path[i]].selected_child == path[i + 1] by {
            assert(after.contains_key(path[i]));
        }
    }
    lemma_walk_along(after, path, map.size());
    if walk(after, path[0], map.size()) != n {
        let i = choose|i: int|
            0 <= i < path.len() - 1 && after[path[i]].stop_here && walk(after, path[0], map.size())
                == path[i];
        assert(after.contains_key(path[i]));
    }
}

/// Going up twice from the same node leaves the records as going up once.
proof fn lemma_point_up_twice(recs: Map<NodeId, SelectionInfo>, map: NodeMap, n: NodeId, fuel: nat)
    requires
        map.wf(),
        map.contains(n),
    ensures
        point_up(point_up(recs, map, n, fuel), map, n, fuel) == point_up(recs, map, n, fuel),
    decreases fuel,
{
    map.lemma_node(n);
    if fuel > 0 {
        if let Some(p) = map.parent_of(n) {
            let r1 = recs.insert(p, pick(n));
            let once = point_up(r1, map, p, (fuel - 1) as nat);
            lemma_point_up_keeps(r1, map, p, (fuel - 1) as nat);
            assert(once.contains_key(p) == r1.contains_key(p));
            assert(once[p] == pick(n));
            assert(once.insert(p, pick(n)) =~= once);
            lemma_point_up_twice(r1, map, p, (fuel - 1) as nat);
        }
    }
}

/// Selecting the same node twice in a row leaves the same records as
/// selecting it once.
pub proof fn lemma_select_idempotent(recs: Map<NodeId, SelectionInfo>, map: NodeMap, n: NodeId)
    requires
        map.wf(),
        map.contains(n),
    ensures
        selected(selected(recs, map, n), map, n) == selected(recs, map, n),
{
    let marked = mark_stop(recs, n);
    let once = selected(recs, map, n);
    lemma_point_up_keeps(marked, map, n, map.size());
    assert(mark_stop(once, n) =~= once);
    lemma_point_up_twice(marked, map, n, map.size());
}

/// Removing the selected middle child of `[a, b, c]` hands the selection to
/// the next sibling `c`, and the current selection under the parent becomes
/// `c` where `c` itself ends a walk.
pub proof fn lemma_removal_promotes_next(
    recs: Map<NodeId, SelectionInfo>,
    map: NodeMap,
    p: NodeId,
    a: NodeId,
    b: NodeId,
    c: NodeId,
)
    requires
        map.wf(),
        map.contains(p),
        map.children_of(p) == seq![a, b, c],
        recs.contains_key(p),
        recs[p].selected_child == b,
        !recs[p].stop_here,
        halts_at(recs, c),
    ensures
        event_fits(recs, map, TreeEvent::RemovingFromParent(b)),
        after_event(recs, map, TreeEvent::RemovingFromParent(b))[p].selected_child == c,
        walk(after_event(recs, map, TreeEvent::RemovingFromParent(b)), p, map.size()) == c,
{
    map.lemma_node(p);
    assert(map.children_of(p)[1] == b && map.children_of(p)[2] == c);
    map.lemma_index_unique(p, 1);
    map.lemma_node(c);
    assert(c != p);
    let after = after_event(recs, map, TreeEvent::RemovingFromParent(b));
    assert(after == recs.insert(p, SelectionInfo { selected_child: c, ..recs[p] }));
    assert(walk(after, p, map.size()) == walk(after, c, (map.size() - 1) as nat));
}

/// Removing the only child of `p` drops `p`'s record, and the current
/// selection under `p` is then `p` itself.
pub proof fn lemma_removal_empties(recs: Map<NodeId, SelectionInfo>, map: NodeMap, p: NodeId, n: NodeId)
    requires
        map.wf(),
        map.contains(p),
        map.children_of(p) == seq![n],
        crate::selection::consistent(recs, map),
    ensures
        event_fits(recs, map, TreeEvent::RemovingFromParent(n)),
        !after_event(recs, map, TreeEvent::RemovingFromParent(n)).contains_key(p),
        walk(after_event(recs, map, TreeEvent::RemovingFromParent(n)), p, map.size()) == p,
{
    map.lemma_node(p);
    assert(map.children_of(p)[0] == n);
    map.lemma_index_unique(p, 0);
    if recs.contains_key(p) {
        let c = recs[p].selected_child;
        map.lemma_node(c);
        assert(map.children_of(p).contains(c));
        assert(c == n);
    }
}

/// Copying `src` with children `[x, y]`, where `y` is selected, to `dest`
/// with children `[x2, y2]` selects `y2` under `dest`, and the current
/// selection under `dest` becomes `y2` where `y2` itself ends a walk.
pub proof fn lemma_copy_remaps(
    recs: Map<NodeId, SelectionInfo>,
    map: NodeMap,
    src: NodeId,
    dest: NodeId,
    x: NodeId,
    y: NodeId,
    x2: NodeId,
    y2: NodeId,
)
    requires
        map.wf(),
        map.contains(src),
        map.contains(dest),
        map.children_of(src) == seq![x, y],
        map.children_of(dest) == seq![x2, y2],
        recs.contains_key(src),
        recs[src] == pick(y),
        halts_at(recs, y2),
    ensures
        event_fits(recs, map, TreeEvent::Copied { src, dest }),
        after_event(recs, map, TreeEvent::Copied { src, dest })[dest] == pick(y2),
        walk(after_event(recs, map, TreeEvent::Copied { src, dest }), dest, map.size()) == y2,
{
    map.lemma_node(src);
    map.lemma_node(dest);
    assert(map.children_of(src)[1] == y && map.children_of(dest)[1] == y2);
    map.lemma_index_unique(src, 1);
    map.lemma_node(y2);
    assert(y2 != dest);
    let after = after_event(recs, map, TreeEvent::Copied { src, dest });
    assert(after == recs.insert(dest, pick(y2)));
    assert(walk(after, dest, map.size()) == walk(after, y2, (map.size() - 1) as nat));
}

} // verus!
