use min_heap::node::{Node, Tree};

#[test]
fn new_node() {
    let mut tree = Tree::new();
    let node = Node::new_orphan(&mut tree, 7);
    assert_eq!(tree.get(node).get_value(), 7)
}

// test that parent has ref to child and child has ref to parent
#[test]
fn parent_child_relationship() {
    let mut tree = Tree::new();
    let leaf = Node::new_orphan(&mut tree, 3);
    let branch = Node::new_orphan(&mut tree, 5);

    Node::parent_child(&mut tree, branch, leaf).unwrap();

    let branch_child = Node::get_child_values(&tree, branch);
    match tree.get(leaf).get_parent() {
        None => panic!("child does not have a parent value"),
        Some(x) => assert_eq!(tree.get(x).get_value(), tree.get(branch).get_value()),
    };
    assert_eq!(branch_child[0], tree.get(leaf).get_value());
}

#[test]
fn get_child_values() {
    let mut tree = Tree::new();
    let node1 = Node::new_orphan(&mut tree, 1);
    let node2 = Node::new_orphan(&mut tree, 2);
    let node3 = Node::new_orphan(&mut tree, 3);

    Node::parent_child(&mut tree, node1, node2).unwrap();
    Node::parent_child(&mut tree, node1, node3).unwrap();

    let arr: Vec<i32> = vec![2, 3];
    assert_eq!(arr, Node::get_child_values(&tree, node1))
}

#[test]
fn one_new_child() {
    let mut tree = Tree::new();
    let parent = Node::new_orphan(&mut tree, 5);
    let val = vec![24];
    Node::new_child(&mut tree, parent, 24);
    assert_eq!(Node::get_child_values(&tree, parent), val)
}
