use linked_tree::model::{Edge, Side};
use linked_tree::node::{Node, NodeLink};
use linked_tree::tree::{Tree, TreeError};

fn value_of(tree: &Tree, link: NodeLink) -> i32 {
    tree.node(link).value
}

/// root 88 with left 48 and right 888
fn three_nodes() -> (Tree, NodeLink, NodeLink, NodeLink) {
    let mut tree = Node::new_nodelink(88);
    let root = tree.root().unwrap();
    let left = Node::add_left_child(&mut tree, root, 48).unwrap();
    let right = Node::add_right_child(&mut tree, root, 888).unwrap();
    (tree, root, left, right)
}

#[test]
fn scenario_root_with_two_children() {
    let (tree, root, left, right) = three_nodes();
    assert_eq!(Node::count_nodes(&tree), 3);
    assert_eq!(Node::tree_depth(&tree, root), 2);
    assert_eq!(Node::get_sibling(&tree, left), Some(right));
    assert_eq!(value_of(&tree, Node::get_sibling(&tree, left).unwrap()), 888);
}

#[test]
fn scenario_right_child_under_left() {
    let (mut tree, root, left, _right) = three_nodes();
    let n84 = Node::add_right_child(&mut tree, left, 84).unwrap();
    assert_eq!(value_of(&tree, n84), 84);
    assert_eq!(Node::count_nodes(&tree), 4);
    assert_eq!(Node::tree_depth(&tree, root), 3);
}

#[test]
fn scenario_left_child_under_right() {
    let (mut tree, root, left, right) = three_nodes();
    Node::add_right_child(&mut tree, left, 84).unwrap();
    let n848 = Node::add_left_child(&mut tree, right, 848).unwrap();
    assert_eq!(value_of(&tree, n848), 848);
    assert_eq!(Node::count_nodes(&tree), 5);
    assert_eq!(Node::tree_depth(&tree, root), 3);
    assert_eq!(Node::count_nodes_by_nodelink(&tree, right), 2);
}

#[test]
fn scenario_discard_right_subtree() {
    let (mut tree, root, left, right) = three_nodes();
    Node::add_right_child(&mut tree, left, 84).unwrap();
    let n848 = Node::add_left_child(&mut tree, right, 848).unwrap();
    assert!(Node::discard_node_by_value(&mut tree, 888));
    assert_eq!(Node::count_nodes(&tree), 3);
    assert_eq!(Node::tree_depth(&tree, root), 3);
    assert_eq!(Node::get_node_by_value(&tree, root, 888), None);
    assert_eq!(Node::get_node_by_value(&tree, root, 848), None);
    assert_eq!(Node::get_node_by_full_property(&tree, root, n848), None);
    assert_eq!(Node::get_node_by_full_property(&tree, root, right), None);
    assert_eq!(Node::get_sibling(&tree, left), None);
    assert_eq!(tree.node(right).parent, None);
    assert_eq!(tree.node(root).right, None);
}

#[test]
fn single_node_tree() {
    let tree = Node::new_nodelink(7);
    let root = tree.root().unwrap();
    assert_eq!(root, 0);
    assert_eq!(tree.len(), 1);
    assert_eq!(Node::count_nodes(&tree), 1);
    assert_eq!(Node::tree_depth(&tree, root), 1);
    assert_eq!(Node::get_sibling(&tree, root), None);
    assert_eq!(tree.value_at(root), Some(7));
    assert_eq!(tree.value_at(5), None);
}

#[test]
fn count_grows_by_one_per_insertion() {
    let mut tree = Node::new_nodelink(1);
    let mut last = tree.root().unwrap();
    for v in 2..10 {
        last = Node::add_left_child(&mut tree, last, v).unwrap();
        assert_eq!(Node::count_nodes(&tree), v as usize);
        assert_eq!(Node::count_nodes(&tree), tree.len());
    }
    assert_eq!(Node::tree_depth(&tree, 0), 9);
}

#[test]
fn child_under_leaf_adds_one_level() {
    let (mut tree, root, left, _right) = three_nodes();
    assert_eq!(Node::tree_depth(&tree, left), 1);
    Node::add_left_child(&mut tree, left, 5).unwrap();
    assert_eq!(Node::tree_depth(&tree, left), 2);
    assert_eq!(Node::tree_depth(&tree, root), 3);
}

#[test]
fn siblings_are_symmetric() {
    let (tree, root, left, right) = three_nodes();
    assert_eq!(Node::get_sibling(&tree, left), Some(right));
    assert_eq!(Node::get_sibling(&tree, right), Some(left));
    assert_eq!(Node::get_sibling(&tree, root), None);
    assert_eq!(Node::get_sibling(&tree, 99), None);
}

#[test]
fn only_child_has_no_sibling() {
    let mut tree = Node::new_nodelink(1);
    let c = Node::add_right_child(&mut tree, 0, 2).unwrap();
    assert_eq!(Node::get_sibling(&tree, c), None);
}

#[test]
fn back_links_name_the_parent() {
    let (mut tree, root, left, right) = three_nodes();
    let n84 = Node::add_right_child(&mut tree, left, 84).unwrap();
    assert_eq!(tree.node(left).parent, Some(root));
    assert_eq!(tree.node(right).parent, Some(root));
    assert_eq!(tree.node(n84).parent, Some(left));
    assert_eq!(tree.node(left).right, Some(n84));
    assert_eq!(tree.node(root).parent, None);
}

#[test]
fn occupied_slot_is_refused() {
    let (mut tree, root, _left, _right) = three_nodes();
    assert_eq!(Node::add_left_child(&mut tree, root, 5), Err(TreeError::Occupied));
    assert_eq!(Node::add_right_child(&mut tree, root, 5), Err(TreeError::Occupied));
    assert_eq!(Node::count_nodes(&tree), 3);
    assert_eq!(tree.len(), 3);
}

#[test]
fn duplicate_value_is_refused() {
    let (mut tree, _root, left, _right) = three_nodes();
    assert_eq!(Node::add_left_child(&mut tree, left, 888), Err(TreeError::Duplicate));
    assert_eq!(tree.len(), 3);
}

#[test]
fn insertion_under_cut_node_is_refused() {
    let (mut tree, _root, _left, right) = three_nodes();
    assert!(Node::discard_node_by_value(&mut tree, 888));
    assert_eq!(Node::add_left_child(&mut tree, right, 5), Err(TreeError::Detached));
    assert_eq!(Node::add_left_child(&mut tree, 42, 5), Err(TreeError::Detached));
}

#[test]
fn value_of_cut_node_can_be_used_again() {
    let (mut tree, root, _left, _right) = three_nodes();
    assert!(Node::discard_node_by_value(&mut tree, 888));
    let again = Node::add_right_child(&mut tree, root, 888).unwrap();
    assert_eq!(again, 3);
    assert_eq!(Node::get_node_by_value(&tree, root, 888), Some(again));
    assert_eq!(Node::count_nodes(&tree), 3);
}

#[test]
fn discard_missing_value_changes_nothing() {
    let (mut tree, root, _left, _right) = three_nodes();
    assert!(!Node::discard_node_by_value(&mut tree, 5));
    assert_eq!(Node::count_nodes(&tree), 3);
    assert_eq!(tree.root(), Some(root));
}

#[test]
fn discard_root_empties_tree() {
    let (mut tree, root, left, _right) = three_nodes();
    assert!(Node::discard_node_by_value(&mut tree, 88));
    assert_eq!(tree.root(), None);
    assert_eq!(Node::count_nodes(&tree), 0);
    assert!(!Node::discard_node_by_value(&mut tree, 48));
    assert_eq!(Node::add_left_child(&mut tree, left, 1), Err(TreeError::Detached));
    assert_eq!(Node::count_nodes_by_nodelink(&tree, root), 0);
    assert_eq!(Node::tree_depth(&tree, root), 0);
    assert_eq!(Node::get_node_by_value(&tree, root, 88), None);
    assert_eq!(Node::get_node_by_value(&tree, left, 48), None);
    assert_eq!(Node::get_node_by_full_property(&tree, root, left), None);
    assert_eq!(Node::get_sibling(&tree, left), None);
}

#[test]
fn discard_single_root_leaves_nothing_to_find() {
    let mut tree = Node::new_nodelink(88);
    assert!(Node::discard_node_by_value(&mut tree, 88));
    assert_eq!(Node::get_node_by_value(&tree, 0, 88), None);
    assert_eq!(Node::count_nodes(&tree), 0);
    assert_eq!(Node::count_nodes_by_nodelink(&tree, 0), 0);
}

#[test]
fn queries_from_cut_subtree_find_nothing() {
    let (mut tree, _root, _left, right) = three_nodes();
    let n848 = Node::add_left_child(&mut tree, right, 848).unwrap();
    assert!(Node::discard_node_by_value(&mut tree, 888));
    assert_eq!(Node::count_nodes_by_nodelink(&tree, right), 0);
    assert_eq!(Node::tree_depth(&tree, right), 0);
    assert_eq!(Node::get_node_by_value(&tree, right, 848), None);
    assert_eq!(Node::get_node_by_full_property(&tree, right, n848), None);
    assert_eq!(Node::get_sibling(&tree, n848), None);
}

#[test]
fn root_depth_grows_only_through_deepest_leaf() {
    let (mut tree, root, left, right) = three_nodes();
    let n84 = Node::add_right_child(&mut tree, left, 84).unwrap();
    assert_eq!(Node::tree_depth(&tree, root), 3);
    Node::add_left_child(&mut tree, right, 848).unwrap();
    assert_eq!(Node::tree_depth(&tree, root), 3);
    Node::add_left_child(&mut tree, n84, 7).unwrap();
    assert_eq!(Node::tree_depth(&tree, root), 4);
}

#[test]
fn discard_shrinks_count_by_subtree_size() {
    let (mut tree, root, left, _right) = three_nodes();
    let n84 = Node::add_right_child(&mut tree, left, 84).unwrap();
    Node::add_left_child(&mut tree, n84, 11).unwrap();
    let before = Node::count_nodes(&tree);
    let cut = Node::count_nodes_by_nodelink(&tree, left);
    assert_eq!(cut, 3);
    assert!(Node::discard_node_by_value(&mut tree, 48));
    assert_eq!(Node::count_nodes(&tree), before - cut);
    assert_eq!(Node::get_node_by_value(&tree, root, 48), None);
    assert_eq!(Node::tree_depth(&tree, root), 2);
}

#[test]
fn lookup_by_value_walks_pre_order() {
    let (mut tree, root, left, right) = three_nodes();
    let n84 = Node::add_right_child(&mut tree, left, 84).unwrap();
    assert_eq!(Node::get_node_by_value(&tree, root, 88), Some(root));
    assert_eq!(Node::get_node_by_value(&tree, root, 84), Some(n84));
    assert_eq!(Node::get_node_by_value(&tree, root, 888), Some(right));
    assert_eq!(Node::get_node_by_value(&tree, left, 888), None);
    assert_eq!(Node::get_node_by_value(&tree, root, 3), None);
    assert_eq!(Node::get_node_by_value(&tree, 77, 88), None);
}

#[test]
fn lookup_by_identity() {
    let (tree, root, left, right) = three_nodes();
    assert_eq!(Node::get_node_by_full_property(&tree, root, left), Some(left));
    assert_eq!(Node::get_node_by_full_property(&tree, root, root), Some(root));
    assert_eq!(Node::get_node_by_full_property(&tree, left, right), None);
    assert_eq!(Node::get_node_by_full_property(&tree, root, 50), None);
}

#[test]
fn count_and_depth_outside_arena_are_zero() {
    let (tree, _root, _left, _right) = three_nodes();
    assert_eq!(Node::count_nodes_by_nodelink(&tree, 3), 0);
    assert_eq!(Node::tree_depth(&tree, 3), 0);
}

#[test]
fn plain_node_constructors() {
    let n = Node::new(5);
    assert_eq!((n.value, n.parent, n.left, n.right), (5, None, None, None));
    let mut m = Node::new_with_parent(2, 6);
    assert_eq!((m.value, m.parent, m.left, m.right), (6, Some(2), None, None));
    m.add_parent(4);
    assert_eq!(m.parent, Some(4));
}

#[test]
fn edges_in_pre_order() {
    let (mut tree, _root, left, _right) = three_nodes();
    Node::add_right_child(&mut tree, left, 84).unwrap();
    let edges = Node::dot_edges(&tree);
    assert_eq!(
        edges,
        vec![
            Edge { parent: 88, side: Side::Left, child: 48 },
            Edge { parent: 48, side: Side::Right, child: 84 },
            Edge { parent: 88, side: Side::Right, child: 888 },
        ]
    );
    assert!(Node::discard_node_by_value(&mut tree, 88));
    assert!(Node::dot_edges(&tree).is_empty());
}

#[test]
fn single_node_has_no_edges() {
    let tree = Node::new_nodelink(1);
    assert!(Node::dot_edges(&tree).is_empty());
}
