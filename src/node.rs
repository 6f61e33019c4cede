use vstd::prelude::*;

verus! {

/// Position of a node in the arena of a [`crate::tree::Tree`].
pub type NodeLink = usize;

/// One vertex of the tree: its payload, the owning links to its children and
/// the non-owning link back to its parent, all given as arena positions.
#[derive(Clone, Copy, Debug)]
pub struct Node {
    pub value: i32,
    pub parent: Option<NodeLink>,
    pub left: Option<NodeLink>,
    pub right: Option<NodeLink>,
}

impl Node {
    /// A node that holds `value` and has no links yet.
    pub fn new(value: i32) -> (r: Node)
        ensures
            r == (Node { value, parent: None, left: None, right: None }),
    {
        Node { value: value, left: None, right: None, parent: None }
    }

    /// A childless node that holds `value` under `parent`.
    pub fn new_with_parent(parent: NodeLink, value: i32) -> (r: Node)
        ensures
            r == (Node { value, parent: Some(parent), left: None, right: None }),
    {
        let mut node = Node::new(value);
        node.add_parent(parent);
        node
    }

    /// Points the back-link of this node at `parent`.
    pub fn add_parent(&mut self, parent: NodeLink)
        ensures
            *final(self) == (Node { parent: Some(parent), ..*old(self) }),
    {
        self.parent = Some(parent);
    }
}

} // verus!
