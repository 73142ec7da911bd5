use min_heap::node::{Node, NodeError, Tree};

#[test]
fn orphan_has_no_relations() {
    let mut tree = Tree::new();
    let node = Node::new_orphan(&mut tree, 42);
    assert_eq!(tree.get(node).get_parent(), None);
    assert_eq!(Node::get_child_values(&tree, node), Vec::<i32>::new());
}

#[test]
fn attach_appends_at_end_and_sets_parent() {
    let mut tree = Tree::new();
    let root = Node::new_orphan(&mut tree, 10);
    let first = Node::new_child(&mut tree, root, 20);
    let second = Node::new_child(&mut tree, root, 30);

    assert_eq!(Node::get_child_values(&tree, root), vec![20, 30]);
    assert_eq!(tree.get(first).get_parent(), Some(root));
    assert_eq!(tree.get(second).get_parent(), Some(root));
}

#[test]
fn link_round_trip_is_mutual() {
    let mut tree = Tree::new();
    let parent = Node::new_orphan(&mut tree, 1);
    let child = Node::new_orphan(&mut tree, 2);
    let other = Node::new_orphan(&mut tree, 3);

    Node::parent_child(&mut tree, parent, child).unwrap();

    // the child's back-reference resolves to the parent, and the parent's
    // children hold the child's value; the untouched node shows neither
    assert_eq!(tree.get(child).get_parent(), Some(parent));
    assert_eq!(Node::get_child_values(&tree, parent), vec![2]);
    assert_eq!(tree.get(other).get_parent(), None);
    assert_eq!(Node::get_child_values(&tree, other), Vec::<i32>::new());
}

#[test]
fn link_rejects_already_attached() {
    let mut tree = Tree::new();
    let first_parent = Node::new_orphan(&mut tree, 1);
    let second_parent = Node::new_orphan(&mut tree, 2);
    let child = Node::new_child(&mut tree, first_parent, 3);

    let result = Node::parent_child(&mut tree, second_parent, child);

    assert_eq!(result, Err(NodeError::AlreadyAttached));
    // nothing moved: the child still belongs to its first parent only
    assert_eq!(tree.get(child).get_parent(), Some(first_parent));
    assert_eq!(Node::get_child_values(&tree, first_parent), vec![3]);
    assert_eq!(Node::get_child_values(&tree, second_parent), Vec::<i32>::new());
}

#[test]
fn swap_exchanges_values_only() {
    // root R(5); attach 24, then 3; exchanging with the second child changes
    // the two values and nothing else, read by position
    let mut tree = Tree::new();
    let root = Node::new_orphan(&mut tree, 5);
    let _first = Node::new_child(&mut tree, root, 24);
    assert_eq!(Node::get_child_values(&tree, root), vec![24]);
    let second = Node::new_child(&mut tree, root, 3);
    assert_eq!(Node::get_child_values(&tree, root), vec![24, 3]);

    Node::swap(&mut tree, root, second).unwrap();

    assert_eq!(tree.get(root).get_value(), 3);
    assert_eq!(tree.get(second).get_value(), 5);
    assert_eq!(Node::get_child_values(&tree, root), vec![24, 5]);
    assert_eq!(tree.get(second).get_parent(), Some(root));
}

#[test]
fn swap_twice_restores_everything() {
    let mut tree = Tree::new();
    let root = Node::new_orphan(&mut tree, 9);
    let child = Node::new_child(&mut tree, root, 4);
    let grandchild = Node::new_child(&mut tree, child, 7);

    Node::swap(&mut tree, root, child).unwrap();
    Node::swap(&mut tree, root, child).unwrap();

    assert_eq!(tree.get(root).get_value(), 9);
    assert_eq!(tree.get(child).get_value(), 4);
    assert_eq!(tree.get(grandchild).get_value(), 7);
    assert_eq!(tree.get(child).get_parent(), Some(root));
    assert_eq!(tree.get(grandchild).get_parent(), Some(child));
    assert_eq!(Node::get_child_values(&tree, root), vec![4]);
    assert_eq!(Node::get_child_values(&tree, child), vec![7]);
}

#[test]
fn swap_with_equal_values_is_allowed() {
    let mut tree = Tree::new();
    let root = Node::new_orphan(&mut tree, 6);
    let child = Node::new_child(&mut tree, root, 6);

    Node::swap(&mut tree, root, child).unwrap();

    assert_eq!(tree.get(root).get_value(), 6);
    assert_eq!(tree.get(child).get_value(), 6);
}

#[test]
fn swap_rejects_non_child() {
    let mut tree = Tree::new();
    let root = Node::new_orphan(&mut tree, 1);
    let stranger = Node::new_orphan(&mut tree, 2);
    let child = Node::new_child(&mut tree, root, 3);
    let grandchild = Node::new_child(&mut tree, child, 4);

    // a node from another tree is refused
    assert_eq!(Node::swap(&mut tree, root, stranger), Err(NodeError::InvalidRelation));
    // a descendant that is not a direct child is refused too
    assert_eq!(Node::swap(&mut tree, root, grandchild), Err(NodeError::InvalidRelation));
    // both values are unchanged
    assert_eq!(tree.get(root).get_value(), 1);
    assert_eq!(tree.get(stranger).get_value(), 2);
    assert_eq!(tree.get(grandchild).get_value(), 4);
}

#[test]
fn release_cascades_through_the_subtree() {
    let mut tree = Tree::new();
    let root = Node::new_orphan(&mut tree, 1);
    let doomed = Node::new_child(&mut tree, root, 2);
    let kept = Node::new_child(&mut tree, root, 3);
    let grandchild_a = Node::new_child(&mut tree, doomed, 4);
    let grandchild_b = Node::new_child(&mut tree, doomed, 5);
    let great_grandchild = Node::new_child(&mut tree, grandchild_a, 6);

    Node::release(&mut tree, doomed);

    // the whole released subtree is gone
    assert!(!tree.is_live(doomed));
    assert!(!tree.is_live(grandchild_a));
    assert!(!tree.is_live(grandchild_b));
    assert!(!tree.is_live(great_grandchild));
    // everything outside it is untouched, except the parent's children list
    assert!(tree.is_live(root));
    assert!(tree.is_live(kept));
    assert_eq!(Node::get_child_values(&tree, root), vec![3]);
    assert_eq!(tree.get(kept).get_parent(), Some(root));
    assert_eq!(tree.get(root).get_value(), 1);
}

#[test]
fn release_of_a_root_frees_its_tree_only() {
    let mut tree = Tree::new();
    let root = Node::new_orphan(&mut tree, 1);
    let child = Node::new_child(&mut tree, root, 2);
    let other_root = Node::new_orphan(&mut tree, 3);

    Node::release(&mut tree, root);

    assert!(!tree.is_live(root));
    assert!(!tree.is_live(child));
    assert!(tree.is_live(other_root));
    assert_eq!(tree.get(other_root).get_value(), 3);
}

#[test]
fn release_of_a_middle_child_keeps_sibling_order() {
    let mut tree = Tree::new();
    let root = Node::new_orphan(&mut tree, 1);
    let _left = Node::new_child(&mut tree, root, 2);
    let middle = Node::new_child(&mut tree, root, 3);
    let _right = Node::new_child(&mut tree, root, 4);

    Node::release(&mut tree, middle);

    assert_eq!(Node::get_child_values(&tree, root), vec![2, 4]);
}

#[test]
fn release_of_a_leaf_detaches_it() {
    let mut tree = Tree::new();
    let root = Node::new_orphan(&mut tree, 1);
    let first = Node::new_child(&mut tree, root, 2);
    let second = Node::new_child(&mut tree, root, 3);

    Node::release(&mut tree, first);

    assert!(!tree.is_live(first));
    assert_eq!(Node::get_child_values(&tree, root), vec![3]);
    assert_eq!(tree.get(second).get_parent(), Some(root));
}
