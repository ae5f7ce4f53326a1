use selection_path::{NodeId, NodeMap, Selection, TreeEvent};

struct Layout {
    map: NodeMap,
    sel: Selection,
    root: NodeId,
}

impl Layout {
    fn new() -> Layout {
        let mut map = NodeMap::new();
        let mut sel = Selection::new();
        let root = map.add_root();
        sel.handle_event(&map, TreeEvent::AddedToForest(root));
        Layout { map, sel, root }
    }

    fn add_under(&mut self, parent: NodeId) -> NodeId {
        let n = self.map.add_child(parent);
        self.sel.handle_event(&self.map, TreeEvent::AddedToForest(n));
        self.sel.handle_event(&self.map, TreeEvent::AddedToParent(n));
        n
    }

    fn remove(&mut self, n: NodeId) {
        self.sel.handle_event(&self.map, TreeEvent::RemovingFromParent(n));
        self.map.detach(n);
        self.sel.handle_event(&self.map, TreeEvent::RemovedFromForest(n));
    }

    fn select(&mut self, n: NodeId) {
        self.sel.select(&self.map, n);
    }

    fn selection(&self) -> NodeId {
        self.sel.current_selection(&self.map, self.root)
    }
}

#[test]
fn it_moves_as_nodes_are_added_and_removed() {
    let mut tree = Layout::new();
    let root = tree.root;
    let n1 = tree.add_under(root);
    let n2 = tree.add_under(root);
    let n3 = tree.add_under(root);
    assert_eq!(tree.selection(), root);
    tree.select(n2);
    assert_eq!(tree.selection(), n2);
    tree.remove(n2);
    assert_eq!(tree.selection(), n3);
    tree.remove(n3);
    assert_eq!(tree.selection(), n1);
    tree.remove(n1);
    assert_eq!(tree.selection(), root);
}

#[test]
fn remembers_nested_paths() {
    let mut tree = Layout::new();
    let root = tree.root;
    let a1 = tree.add_under(root);
    let a2 = tree.add_under(root);
    let _b1 = tree.add_under(a2);
    let b2 = tree.add_under(a2);
    let _b3 = tree.add_under(a2);
    let a3 = tree.add_under(root);

    tree.select(b2);
    assert_eq!(tree.selection(), b2);
    tree.select(a1);
    assert_eq!(tree.selection(), a1);
    tree.select(a3);
    assert_eq!(tree.selection(), a3);
    tree.remove(a3);
    assert_eq!(tree.selection(), b2);
}

#[test]
fn preserves_selection_after_move_within_parent() {
    let mut tree = Layout::new();
    let root = tree.root;
    let _n1 = tree.add_under(root);
    let n2 = tree.add_under(root);
    let _n3 = tree.add_under(root);
    tree.select(n2);
    assert_eq!(tree.selection(), n2);
    tree.map.move_left(n2);
    assert_eq!(tree.map.children(root)[0], n2);
    assert_eq!(tree.selection(), n2);
}

#[test]
fn allows_parent_selection() {
    let mut tree = Layout::new();
    let root = tree.root;
    let _a1 = tree.add_under(root);
    let a2 = tree.add_under(root);
    let b1 = tree.add_under(a2);
    tree.select(b1);
    assert_eq!(tree.selection(), b1);
    tree.select(a2);
    assert_eq!(tree.selection(), a2);
}

#[test]
fn select_twice_keeps_the_selection() {
    let mut tree = Layout::new();
    let root = tree.root;
    let a = tree.add_under(root);
    let b = tree.add_under(a);
    let _c = tree.add_under(b);
    tree.select(b);
    assert_eq!(tree.selection(), b);
    tree.select(b);
    assert_eq!(tree.selection(), b);
    assert_eq!(tree.sel.current_selection(&tree.map, a), b);
    assert_eq!(tree.sel.current_selection(&tree.map, b), b);
}

#[test]
fn removal_prefers_next_sibling() {
    let mut tree = Layout::new();
    let p = tree.add_under(tree.root);
    let _a = tree.add_under(p);
    let b = tree.add_under(p);
    let c = tree.add_under(p);
    tree.select(b);
    tree.remove(b);
    assert_eq!(tree.sel.current_selection(&tree.map, p), c);
    assert_eq!(tree.sel.last_selection(&tree.map, p), Some(c));
}

#[test]
fn removal_of_only_child_drops_the_record() {
    let mut tree = Layout::new();
    let p = tree.add_under(tree.root);
    let n = tree.add_under(p);
    tree.select(n);
    assert_eq!(tree.sel.last_selection(&tree.map, p), Some(n));
    tree.remove(n);
    assert_eq!(tree.sel.last_selection(&tree.map, p), None);
    assert_eq!(tree.sel.current_selection(&tree.map, p), p);
}

#[test]
fn removal_of_unselected_child_changes_nothing() {
    let mut tree = Layout::new();
    let root = tree.root;
    let a = tree.add_under(root);
    let b = tree.add_under(root);
    tree.select(a);
    tree.remove(b);
    assert_eq!(tree.selection(), a);
}

#[test]
fn copy_remaps_by_position() {
    let mut tree = Layout::new();
    let src = tree.add_under(tree.root);
    let _x = tree.add_under(src);
    let y = tree.add_under(src);
    tree.select(y);
    let dest = tree.add_under(tree.root);
    let _x2 = tree.add_under(dest);
    let y2 = tree.add_under(dest);
    tree.sel.handle_event(&tree.map, TreeEvent::Copied { src, dest });
    assert_eq!(tree.sel.current_selection(&tree.map, dest), y2);
    assert_eq!(tree.sel.local_selection(&tree.map, dest), Some(y2));
}

#[test]
fn copy_keeps_the_stop_flag() {
    let mut tree = Layout::new();
    let src = tree.add_under(tree.root);
    let x = tree.add_under(src);
    let _y = tree.add_under(src);
    tree.select(x);
    tree.select(src);
    let dest = tree.add_under(tree.root);
    let x2 = tree.add_under(dest);
    let _y2 = tree.add_under(dest);
    tree.sel.handle_event(&tree.map, TreeEvent::Copied { src, dest });
    assert_eq!(tree.sel.current_selection(&tree.map, dest), dest);
    assert_eq!(tree.sel.last_selection(&tree.map, dest), Some(x2));
    assert_eq!(tree.sel.local_selection(&tree.map, dest), None);
}

#[test]
fn copy_of_unselected_node_adds_nothing() {
    let mut tree = Layout::new();
    let src = tree.add_under(tree.root);
    let _x = tree.add_under(src);
    let dest = tree.add_under(tree.root);
    let _x2 = tree.add_under(dest);
    tree.sel.handle_event(&tree.map, TreeEvent::Copied { src, dest });
    assert_eq!(tree.sel.last_selection(&tree.map, dest), None);
}

#[test]
fn removed_from_forest_drops_own_record() {
    let mut tree = Layout::new();
    let a = tree.add_under(tree.root);
    let b = tree.add_under(a);
    tree.select(b);
    assert_eq!(tree.sel.last_selection(&tree.map, a), Some(b));
    tree.sel.handle_event(&tree.map, TreeEvent::RemovedFromForest(a));
    assert_eq!(tree.sel.last_selection(&tree.map, a), None);
}

#[test]
fn select_locally_reports_change() {
    let mut tree = Layout::new();
    let root = tree.root;
    let a = tree.add_under(root);
    let b = tree.add_under(root);
    assert!(tree.sel.select_locally(&tree.map, a));
    assert!(!tree.sel.select_locally(&tree.map, a));
    assert!(tree.sel.select_locally(&tree.map, b));
    assert!(!tree.sel.select_locally(&tree.map, root));
    assert_eq!(tree.selection(), b);
}

#[test]
fn select_locally_clears_stop() {
    let mut tree = Layout::new();
    let root = tree.root;
    let a = tree.add_under(root);
    let b = tree.add_under(a);
    tree.select(b);
    tree.select(a);
    assert_eq!(tree.sel.local_selection(&tree.map, a), None);
    assert_eq!(tree.sel.last_selection(&tree.map, a), Some(b));
    assert!(!tree.sel.select_locally(&tree.map, b));
    assert_eq!(tree.sel.local_selection(&tree.map, a), Some(b));
    assert_eq!(tree.selection(), b);
}

#[test]
fn empty_store_selects_root() {
    let mut map = NodeMap::new();
    let root = map.add_root();
    let sel = Selection::default();
    assert_eq!(sel.current_selection(&map, root), root);
    assert_eq!(sel.last_selection(&map, root), None);
    assert_eq!(sel.local_selection(&map, root), None);
}

#[test]
fn siblings_follow_child_order() {
    let mut tree = Layout::new();
    let root = tree.root;
    let a = tree.add_under(root);
    let b = tree.add_under(root);
    assert_eq!(tree.map.next_sibling(a), Some(b));
    assert_eq!(tree.map.prev_sibling(b), Some(a));
    assert_eq!(tree.map.prev_sibling(a), None);
    assert_eq!(tree.map.next_sibling(b), None);
    assert_eq!(tree.map.parent(b), Some(root));
    assert_eq!(tree.map.parent(root), None);
    assert_eq!(b, NodeId(2));
}
