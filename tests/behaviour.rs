use vec_tree::{AppendError, Index, VecTree};

fn vals(tree: &VecTree<i32>, ids: &[Index]) -> Vec<i32> {
    ids.iter().map(|id| *tree.get(*id).unwrap()).collect()
}

#[test]
fn inserted_value_is_found_again() {
    let mut tree = VecTree::new();
    let root = tree.insert_root(-7);
    let a = tree.insert(11, root);
    let b = tree.try_insert(12, a).unwrap();
    assert_eq!(tree.get(root), Some(&-7));
    assert_eq!(tree.get(a), Some(&11));
    assert_eq!(tree.get(b), Some(&12));
    assert_eq!(tree.parent(b), Some(a));
    assert_eq!(tree.parent(root), None);
}

#[test]
fn removed_handle_stays_dead_after_slot_reuse() {
    let mut tree = VecTree::with_capacity(2);
    let root = tree.insert_root(1);
    let h = tree.insert(2, root);
    assert_eq!(tree.remove(h), Some(2));
    assert!(!tree.contains(h));
    assert!(tree.get(h).is_none());
    let h2 = tree.try_insert(3, root).unwrap();
    assert_eq!(h2.slot, h.slot);
    assert_ne!(h2, h);
    assert!(tree.get(h).is_none());
    assert_eq!(tree.get(h2), Some(&3));
    assert_eq!(tree.remove(h), None);
    assert_eq!(tree.get(h2), Some(&3));
}

#[test]
fn appended_children_keep_their_order() {
    let mut tree = VecTree::new();
    let p = tree.insert_root(0);
    let mut expected = Vec::new();
    for i in 1..6 {
        let c = tree.insert(i, p);
        tree.detach(c);
        assert_eq!(tree.parent(c), None);
        tree.append_child(p, c).unwrap();
        expected.push(c);
    }
    assert_eq!(tree.children(p), expected);
    assert_eq!(vals(&tree, &tree.children(p)), [1, 2, 3, 4, 5]);
}

#[test]
fn moving_a_node_carries_its_subtree() {
    let mut tree = VecTree::new();
    let root = tree.insert_root(0);
    let old_parent = tree.insert(1, root);
    let new_parent = tree.insert(2, root);
    let x = tree.insert(3, new_parent);
    let c = tree.insert(4, old_parent);
    let y = tree.insert(5, old_parent);
    let g1 = tree.insert(6, c);
    let g2 = tree.insert(7, g1);
    let before = tree.descendants(c);
    assert_eq!(tree.append_child(new_parent, c), Ok(()));
    assert_eq!(tree.children(old_parent), vec![y]);
    assert_eq!(tree.children(new_parent), vec![x, c]);
    assert_eq!(tree.parent(c), Some(new_parent));
    assert_eq!(tree.descendants(c), before);
    assert_eq!(vals(&tree, &tree.descendants(c)), [4, 6, 7]);
    assert_eq!(tree.parent(g2), Some(g1));
}

#[test]
fn removing_a_subtree_leaves_the_rest() {
    let mut tree = VecTree::new();
    let root = tree.insert_root(0);
    let s1 = tree.insert(1, root);
    let a = tree.insert(2, root);
    let s2 = tree.insert(3, root);
    let b = tree.insert(4, a);
    let c = tree.insert(5, b);
    let t = tree.insert(6, s1);
    assert_eq!(tree.remove(a), Some(2));
    assert!(!tree.contains(a));
    assert!(!tree.contains(b));
    assert!(!tree.contains(c));
    assert_eq!(tree.children(root), vec![s1, s2]);
    assert_eq!(tree.get(s1), Some(&1));
    assert_eq!(tree.get(s2), Some(&3));
    assert_eq!(tree.children(s1), vec![t]);
    assert_eq!(tree.following_siblings(s1), vec![s1, s2]);
    assert_eq!(tree.preceding_siblings(s2), vec![s2, s1]);
    assert_eq!(vals(&tree, &tree.descendants(root)), [0, 1, 6, 3]);
}

#[test]
fn removing_the_root_clears_it() {
    let mut tree = VecTree::new();
    let root = tree.insert_root(0);
    let a = tree.insert(1, root);
    assert_eq!(tree.get_root_index(), Some(root));
    assert_eq!(tree.remove(root), Some(0));
    assert_eq!(tree.get_root_index(), None);
    assert!(!tree.contains(a));
    let again = tree.insert_root(9);
    assert_eq!(tree.get_root_index(), Some(again));
}

#[test]
fn depths_of_a_walk() {
    let mut tree = VecTree::new();
    let n0 = tree.insert_root(0);
    let n1 = tree.insert(1, n0);
    let n2 = tree.insert(2, n0);
    let n3 = tree.insert(3, n0);
    let n4 = tree.insert(4, n1);
    let n5 = tree.insert(5, n1);
    let n6 = tree.insert(6, n4);
    let n7 = tree.insert(7, n2);
    assert_eq!(
        tree.descendants_with_depth(n0),
        vec![(n0, 0), (n1, 1), (n4, 2), (n6, 3), (n5, 2), (n2, 1), (n7, 2), (n3, 1)]
    );
    assert_eq!(tree.descendants_with_depth(n1), vec![(n1, 0), (n4, 1), (n6, 2), (n5, 1)]);
    assert_eq!(tree.descendants_with_depth(n3), vec![(n3, 0)]);
}

#[test]
fn growth_keeps_every_handle() {
    let mut tree = VecTree::with_capacity(4);
    let root = tree.insert_root(100);
    let mut handles = vec![root];
    for i in 0..3 {
        handles.push(tree.try_insert(i, root).unwrap());
    }
    assert_eq!(tree.capacity(), 4);
    assert_eq!(tree.try_insert(50, root), Err(50));
    let extra = tree.insert(51, root);
    assert_eq!(tree.capacity(), 8);
    assert_eq!(tree.get(extra), Some(&51));
    assert_eq!(tree.get(handles[0]), Some(&100));
    for (i, h) in handles.iter().skip(1).enumerate() {
        assert_eq!(tree.get(*h), Some(&(i as i32)));
    }
}

#[test]
fn detaching_a_detached_node_twice_changes_nothing() {
    let mut tree = VecTree::new();
    let root = tree.insert_root(0);
    let a = tree.insert(1, root);
    let b = tree.insert(2, root);
    let c = tree.insert(3, a);
    tree.detach(a);
    assert_eq!(tree.parent(a), None);
    assert_eq!(tree.children(root), vec![b]);
    tree.detach(a);
    tree.detach(a);
    assert_eq!(tree.parent(a), None);
    assert_eq!(tree.children(root), vec![b]);
    assert_eq!(tree.children(a), vec![c]);
    assert_eq!(tree.following_siblings(b), vec![b]);
    tree.detach(root);
    assert_eq!(tree.children(root), vec![b]);
}

#[test]
fn append_refuses_dead_handles() {
    let mut tree = VecTree::new();
    let root = tree.insert_root(0);
    let a = tree.insert(1, root);
    let b = tree.insert(2, root);
    tree.remove(b);
    assert_eq!(tree.append_child(b, a), Err(AppendError::InvalidParent));
    assert_eq!(tree.append_child(a, b), Err(AppendError::InvalidChild));
    assert_eq!(tree.children(root), vec![a]);
}

#[test]
fn append_refuses_cycles_and_the_root() {
    let mut tree = VecTree::new();
    let root = tree.insert_root(0);
    let a = tree.insert(1, root);
    let b = tree.insert(2, a);
    assert_eq!(tree.append_child(a, a), Err(AppendError::WouldCycle));
    assert_eq!(tree.append_child(b, a), Err(AppendError::WouldCycle));
    assert_eq!(tree.append_child(a, root), Err(AppendError::WouldCycle));
    let d = tree.insert(9, a);
    tree.detach(d);
    assert_eq!(tree.append_child(d, root), Err(AppendError::ChildIsRoot));
    assert_eq!(tree.parent(root), None);
    assert_eq!(tree.children(root), vec![a]);
    assert_eq!(tree.children(a), vec![b]);
    assert_eq!(tree.append_child(root, b), Ok(()));
    assert_eq!(tree.children(root), vec![a, b]);
    assert_eq!(tree.children(a), Vec::<Index>::new());
}

#[test]
fn stale_handles_give_empty_walks() {
    let mut tree = VecTree::new();
    let root = tree.insert_root(0);
    let a = tree.insert(1, root);
    tree.remove(a);
    assert!(tree.children(a).is_empty());
    assert!(tree.descendants(a).is_empty());
    assert!(tree.descendants_with_depth(a).is_empty());
    assert!(tree.ancestors(a).is_empty());
    assert!(tree.preceding_siblings(a).is_empty());
    assert!(tree.following_siblings(a).is_empty());
    assert_eq!(tree.parent(a), None);
    assert!(tree.get_mut(a).is_none());
}

#[test]
fn clear_keeps_capacity_and_kills_handles() {
    let mut tree = VecTree::with_capacity(1);
    let root = tree.insert_root(42);
    let a = tree.insert(43, root);
    assert_eq!(tree.capacity(), 2);
    tree.clear();
    assert_eq!(tree.capacity(), 2);
    assert!(!tree.contains(root));
    assert!(!tree.contains(a));
    assert_eq!(tree.get_root_index(), None);
    let again = tree.insert_root(1);
    assert_ne!(again, root);
    assert_eq!(tree.get(again), Some(&1));
}

#[test]
fn zero_capacity_means_one() {
    let mut tree: VecTree<u8> = VecTree::with_capacity(0);
    assert_eq!(tree.capacity(), 1);
    let root = tree.try_insert_root(1).unwrap();
    assert_eq!(tree.try_insert(2, root), Err(2));
    let new_tree: VecTree<u8> = VecTree::new();
    assert_eq!(new_tree.capacity(), 4);
}

#[test]
fn ancestors_climb_to_a_parentless_node() {
    let mut tree = VecTree::new();
    let root = tree.insert_root(0);
    let a = tree.insert(1, root);
    let b = tree.insert(2, a);
    let c = tree.insert(3, b);
    assert_eq!(tree.ancestors(c), vec![c, b, a, root]);
    tree.detach(b);
    assert_eq!(tree.ancestors(c), vec![c, b]);
}

#[test]
fn default_is_an_empty_tree() {
    let mut tree: VecTree<i32> = VecTree::default();
    assert_eq!(tree.capacity(), 4);
    assert_eq!(tree.get_root_index(), None);
    let root = tree.insert_root(3);
    assert_eq!(tree.get(root), Some(&3));
}

fn drain_children(tree: &VecTree<i32>, h: Index) -> Vec<Index> {
    let mut it = vec_tree::ChildrenIter::new(tree, h);
    let mut out = Vec::new();
    while let Some(x) = it.next(tree) {
        out.push(x);
    }
    out
}

#[test]
fn cursors_agree_with_the_collected_walks() {
    let mut tree = VecTree::new();
    let n0 = tree.insert_root(0);
    let n1 = tree.insert(1, n0);
    let n2 = tree.insert(2, n0);
    let n3 = tree.insert(3, n0);
    let n4 = tree.insert(4, n1);
    let _n5 = tree.insert(5, n1);
    let _n6 = tree.insert(6, n4);
    let _n7 = tree.insert(7, n2);

    assert_eq!(drain_children(&tree, n0), vec![n1, n2, n3]);
    assert_eq!(drain_children(&tree, n3), Vec::<Index>::new());

    let mut it = vec_tree::FollowingSiblingsIter::new(n1);
    let mut out = Vec::new();
    while let Some(x) = it.next(&tree) {
        out.push(x);
    }
    assert_eq!(out, tree.following_siblings(n1));

    let mut it = vec_tree::PrecedingSiblingsIter::new(n3);
    let mut out = Vec::new();
    while let Some(x) = it.next(&tree) {
        out.push(x);
    }
    assert_eq!(out, vec![n3, n2, n1]);

    let mut it = vec_tree::AncestorsIter::new(n4);
    let mut out = Vec::new();
    while let Some(x) = it.next(&tree) {
        out.push(x);
    }
    assert_eq!(out, vec![n4, n1, n0]);

    let mut it = vec_tree::TraverseIter::new(n1);
    let mut edges = Vec::new();
    while let Some(edge) = it.next(&tree) {
        edges.push(match edge {
            vec_tree::NodeEdge::Start(x) => (true, *tree.get(x).unwrap()),
            vec_tree::NodeEdge::End(x) => (false, *tree.get(x).unwrap()),
        });
    }
    assert_eq!(
        edges,
        vec![(true, 1), (true, 4), (true, 6), (false, 6), (false, 4), (true, 5), (false, 5), (false, 1)]
    );

    let mut it = vec_tree::TraverseWithDepthIter::new(n0);
    let mut starts = Vec::new();
    while let Some(edge) = it.next(&tree) {
        if let vec_tree::NodeEdgeWithDepth::Start(x, d) = edge {
            starts.push((x, d));
        }
    }
    assert_eq!(starts, tree.descendants_with_depth(n0));
}

#[test]
fn a_walk_stops_when_its_node_is_removed() {
    let mut tree = VecTree::new();
    let n0 = tree.insert_root(0);
    let n1 = tree.insert(1, n0);
    let _n2 = tree.insert(2, n1);
    let mut it = vec_tree::TraverseIter::new(n1);
    assert!(it.next(&tree).is_some());
    tree.remove(n1);
    assert!(it.next(&tree).is_some());
    assert!(it.next(&tree).is_none());
    assert!(it.next(&tree).is_none());
}

#[test]
fn descendant_cursors_skip_end_edges() {
    let mut tree = VecTree::new();
    let n0 = tree.insert_root(0);
    let n1 = tree.insert(1, n0);
    let n2 = tree.insert(2, n0);
    let _n3 = tree.insert(3, n0);
    let n4 = tree.insert(4, n1);
    let _n5 = tree.insert(5, n1);
    let _n6 = tree.insert(6, n4);
    let _n7 = tree.insert(7, n2);

    let mut it = vec_tree::DescendantsIter::new(n0);
    let mut out = Vec::new();
    while let Some(x) = it.next(&tree) {
        out.push(*tree.get(x).unwrap());
    }
    assert_eq!(out, [0, 1, 4, 6, 5, 2, 7, 3]);
    assert_eq!(it.next(&tree), None);

    let mut it = vec_tree::DescendantsWithDepthIter::new(n0);
    let mut out = Vec::new();
    while let Some((x, d)) = it.next(&tree) {
        out.push((*tree.get(x).unwrap(), d));
    }
    assert_eq!(out, [(0, 0), (1, 1), (4, 2), (6, 3), (5, 2), (2, 1), (7, 2), (3, 1)]);

    let mut it = vec_tree::DescendantsIter::new(n4);
    assert_eq!(it.next(&tree), Some(n4));
    assert_eq!(it.next(&tree).map(|x| *tree.get(x).unwrap()), Some(6));
    assert_eq!(it.next(&tree), None);
}

#[test]
fn reserving_nothing_keeps_insertion_working() {
    let mut tree = VecTree::with_capacity(1);
    tree.reserve(0);
    assert_eq!(tree.capacity(), 1);
    let root = tree.try_insert_root(1).unwrap();
    tree.reserve(0);
    assert_eq!(tree.try_insert(2, root), Err(2));
    let child = tree.insert(2, root);
    tree.reserve(0);
    let other = tree.insert(3, root);
    assert_eq!(tree.children(root), vec![child, other]);
}

#[test]
fn index_reads_a_live_payload() {
    let mut tree = VecTree::new();
    let root = tree.insert_root(40);
    let child = tree.insert(41, root);
    assert_eq!(*tree.index(root), 40);
    assert_eq!(*tree.index(child), 41);
}
