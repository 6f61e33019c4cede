//! The tree itself: an arena of nodes and the position of its root, with the
//! operations that grow, cut and query it.
use vstd::prelude::*;
use vstd::set_lib::lemma_set_difference_len;
use crate::model::{
    attached, count_at, depth_at, detached, edges_at, find_value, lemma_attached_links,
    lemma_attached_subtree, lemma_count_is_card, lemma_depth_bound, lemma_detached_links,
    lemma_detached_subtree, lemma_find_value, lemma_parent_inside, lemma_subtree_nested,
    lemma_subtree_range, links_ok, node_ok, sibling_of, slot, subtree, values_distinct, Edge, Side,
};
use crate::node::{Node, NodeLink};

verus! {

/// Why an insertion was refused.
#[derive(Clone, Copy, Debug, PartialEq, Eq, Structural)]
pub enum TreeError {
    /// The parent is not a node of the live tree.
    Detached,
    /// The parent already has a child on that side.
    Occupied,
    /// A node of the live tree already holds that value.
    Duplicate,
    /// The arena has no room for another node.
    Full,
}

/// A binary tree kept in an arena. Children are owned through their slots in
/// the parent; the parent is reached through a back-link. Nodes cut from the
/// tree stay in the arena, unreachable from the root.
#[derive(Debug)]
pub struct Tree {
    nodes: Vec<Node>,
    root: Option<NodeLink>,
}

impl Tree {
    /// The arena, slot by slot.
    pub closed spec fn slots(self) -> Seq<Node> {
        self.nodes@
    }

    /// The position of the root, or `None` once the root has been discarded.
    pub closed spec fn top(self) -> Option<usize> {
        self.root
    }

    /// The positions reachable from the root.
    pub open spec fn live(self) -> Set<int> {
        match self.top() {
            Some(r) => subtree(self.slots(), r as int),
            None => Set::empty(),
        }
    }

    /// The number of nodes reachable from the root.
    pub open spec fn size(self) -> nat {
        match self.top() {
            Some(r) => count_at(self.slots(), r as int),
            None => 0,
        }
    }

    /// The depth of the tree; zero once it is empty.
    pub open spec fn height(self) -> nat {
        match self.top() {
            Some(r) => depth_at(self.slots(), r as int),
            None => 0,
        }
    }

    /// Links agree in both directions, the root has no parent, and the live
    /// nodes hold pairwise distinct values.
    pub open spec fn wf(self) -> bool {
        &&& links_ok(self.slots())
        &&& self.slots().len() < usize::MAX
        &&& match self.top() {
            Some(r) => r < self.slots().len() && self.slots()[r as int].parent is None,
            None => true,
        }
        &&& values_distinct(self.slots(), self.live())
    }

    /// The position of the root.
    pub fn root(&self) -> (r: Option<NodeLink>)
        ensures
            r == self.top(),
    {
        self.root
    }

    /// The number of slots in the arena, live or cut off.
    pub fn len(&self) -> (r: usize)
        ensures
            r == self.slots().len(),
    {
        self.nodes.len()
    }

    /// The node at `link`.
    pub fn node(&self, link: NodeLink) -> (r: &Node)
        requires
            link < self.slots().len(),
        ensures
            *r == self.slots()[link as int],
    {
        &self.nodes[link]
    }

    /// The value held at `link`, if there is such a slot.
    pub fn value_at(&self, link: NodeLink) -> (r: Option<i32>)
        ensures
            r == (if link < self.slots().len() {
                Some(self.slots()[link as int].value)
            } else {
                None
            }),
    {
        if link < self.nodes.len() {
            Some(self.nodes[link].value)
        } else {
            None
        }
    }

    /// Why hanging a new node holding `value` in the slot `side` of `parent`
    /// is refused, checked in this order; `None` when it is allowed.
    pub open spec fn attach_error(self, parent: NodeLink, side: Side, value: i32) -> Option<
        TreeError,
    > {
        if !self.live().contains(parent as int) {
            Some(TreeError::Detached)
        } else if slot(self.slots()[parent as int], side) is Some {
            Some(TreeError::Occupied)
        } else if exists|j: int| #[trigger]
            self.live().contains(j) && self.slots()[j].value == value {
            Some(TreeError::Duplicate)
        } else if self.slots().len() + 1 >= usize::MAX {
            Some(TreeError::Full)
        } else {
            None
        }
    }

    /// The outcome of hanging `value` in the slot `side` of `parent`: the
    /// error and an unchanged tree, or the position of the new node, which is
    /// appended to the arena and becomes part of the live tree.
    pub open spec fn attach_outcome(
        self,
        after: Tree,
        parent: NodeLink,
        side: Side,
        value: i32,
        r: Result<NodeLink, TreeError>,
    ) -> bool {
        match self.attach_error(parent, side, value) {
            Some(e) => r == Err::<NodeLink, TreeError>(e) && after == self,
            None => {
                &&& r == Ok::<NodeLink, TreeError>(self.slots().len() as usize)
                &&& after.slots() == attached(self.slots(), parent as int, side, value)
                &&& after.top() == self.top()
                &&& after.live() == self.live().insert(self.slots().len() as int)
                &&& after.size() == self.size() + 1
            },
        }
    }

    fn attach(&mut self, parent: NodeLink, side: Side, value: i32) -> (r: Result<
        NodeLink,
        TreeError,
    >)
        requires
            old(self).wf(),
        ensures
            final(self).wf(),
            old(self).attach_outcome(*final(self), parent, side, value, r),
    {
        let ghost s = self.slots();
        let root = match self.root {
            Some(root) => root,
            None => return Err(TreeError::Detached),
        };
        if parent >= self.nodes.len() || !self.holds_from(root, parent) {
            proof {
                lemma_subtree_range(s, root as int);
            }
            return Err(TreeError::Detached);
        }
        let mut pn = self.nodes[parent];
        let occupied = match side {
            Side::Left => pn.left.is_some(),
            Side::Right => pn.right.is_some(),
        };
        if occupied {
            return Err(TreeError::Occupied);
        }
        proof {
            lemma_find_value(s, root as int, value);
        }
        if self.find_from(root, value).is_some() {
            return Err(TreeError::Duplicate);
        }
        if self.nodes.len() >= usize::MAX - 1 {
            return Err(TreeError::Full);
        }
        let n = self.nodes.len();
        match side {
            Side::Left => pn.left = Some(n),
            Side::Right => pn.right = Some(n),
        }
        self.nodes.set(parent, pn);
        self.nodes.push(Node::new_with_parent(parent, value));
        proof {
            let t = self.slots();
            assert(t =~= attached(s, parent as int, side, value));
            lemma_attached_links(s, parent as int, side, value);
            lemma_attached_subtree(s, parent as int, side, value, root as int);
            lemma_subtree_range(s, root as int);
            lemma_count_is_card(s, root as int);
            lemma_count_is_card(t, root as int);
            assert(self.live() =~= old(self).live().insert(n as int));
            assert(forall|j: int| 0 <= j < n ==> t[j].value == s[j].value);
        }
        Ok(n)
    }

    /// The outcome of discarding the first node, in pre-order from the root,
    /// that holds `value`: nothing changes when there is none; the tree
    /// becomes empty when it is the root; otherwise that node and everything
    /// below it are cut from the tree.
    pub open spec fn discard_outcome(self, after: Tree, value: i32, r: bool) -> bool {
        match self.top() {
            None => !r && after == self,
            Some(root) => match find_value(self.slots(), root as int, value) {
                None => !r && after == self,
                Some(d) => r && if d == root {
                    &&& after.top() is None
                    &&& after.slots() == self.slots()
                } else {
                    &&& after.top() == self.top()
                    &&& after.slots() == detached(self.slots(), d as int)
                    &&& after.live() == self.live().difference(subtree(self.slots(), d as int))
                    &&& after.size() == self.size() - count_at(self.slots(), d as int)
                },
            },
        }
    }

    fn discard(&mut self, value: i32) -> (r: bool)
        requires
            old(self).wf(),
        ensures
            final(self).wf(),
            old(self).discard_outcome(*final(self), value, r),
    {
        let ghost s = self.slots();
        let root = match self.root {
            Some(root) => root,
            None => return false,
        };
        let d = match self.find_from(root, value) {
            Some(d) => d,
            None => return false,
        };
        proof {
            lemma_find_value(s, root as int, value);
        }
        if d == root {
            self.root = None;
            proof {
                assert(self.live() =~= Set::empty());
            }
            return true;
        }
        proof {
            lemma_subtree_range(s, root as int);
            lemma_parent_inside(s, root as int, d as int);
            assert(node_ok(s, d as int));
        }
        let p = self.nodes[d].parent.unwrap();
        let mut pn = self.nodes[p];
        if pn.left == Some(d) {
            pn.left = None;
        } else {
            pn.right = None;
        }
        self.nodes.set(p, pn);
        let mut dn = self.nodes[d];
        dn.parent = None;
        self.nodes.set(d, dn);
        proof {
            let t = self.slots();
            assert(t =~= detached(s, d as int));
            lemma_detached_links(s, d as int);
            lemma_detached_subtree(s, d as int, root as int);
            lemma_subtree_range(s, root as int);
            lemma_subtree_range(s, d as int);
            lemma_subtree_nested(s, root as int, d as int);
            lemma_count_is_card(s, root as int);
            lemma_count_is_card(s, d as int);
            lemma_count_is_card(t, root as int);
            let a = subtree(s, root as int);
            let b = subtree(s, d as int);
            assert(a.intersect(b) =~= b);
            lemma_set_difference_len(a, b);
        }
        true
    }

    fn edges_from(&self, i: usize, out: &mut Vec<Edge>)
        requires
            self.wf(),
            i < self.slots().len(),
        ensures
            final(out)@ == old(out)@ + edges_at(self.slots(), i as int),
        decreases self.slots().len() - i,
    {
        proof {
            assert(node_ok(self.slots(), i as int));
        }
        let node = self.nodes[i];
        if let Some(l) = node.left {
            out.push(Edge { parent: node.value, side: Side::Left, child: self.nodes[l].value });
            self.edges_from(l, out);
        }
        if let Some(r) = node.right {
            out.push(Edge { parent: node.value, side: Side::Right, child: self.nodes[r].value });
            self.edges_from(r, out);
        }
    }

    /// What a value lookup from `start` finds: the pre-order search when
    /// `start` is part of the live tree, nothing otherwise.
    pub open spec fn lookup(self, start: NodeLink, value: i32) -> Option<usize> {
        if self.live().contains(start as int) {
            find_value(self.slots(), start as int, value)
        } else {
            None
        }
    }

    /// Everything below a live node is live.
    pub proof fn lemma_live_closed(self, k: int)
        requires
            self.wf(),
            self.live().contains(k),
        ensures
            subtree(self.slots(), k).subset_of(self.live()),
            0 <= k < self.slots().len(),
    {
        let root = self.top().unwrap() as int;
        lemma_subtree_range(self.slots(), root);
        lemma_subtree_nested(self.slots(), root, k);
    }

    fn is_live(&self, link: NodeLink) -> (r: bool)
        requires
            self.wf(),
        ensures
            r == self.live().contains(link as int),
            r ==> link < self.slots().len(),
    {
        match self.root {
            Some(root) => {
                proof {
                    lemma_subtree_range(self.slots(), root as int);
                }
                link < self.nodes.len() && self.holds_from(root, link)
            },
            None => false,
        }
    }

    fn count_from(&self, i: usize) -> (r: usize)
        requires
            self.wf(),
            i < self.slots().len(),
        ensures
            r == count_at(self.slots(), i as int),
        decreases self.slots().len() - i,
    {
        proof {
            assert(node_ok(self.slots(), i as int));
            lemma_count_is_card(self.slots(), i as int);
        }
        let node = self.nodes[i];
        let mut count: usize = 1;
        if let Some(l) = node.left {
            count = count + self.count_from(l);
        }
        if let Some(r) = node.right {
            count = count + self.count_from(r);
        }
        count
    }

    fn depth_from(&self, i: usize) -> (r: usize)
        requires
            self.wf(),
            i < self.slots().len(),
        ensures
            r == depth_at(self.slots(), i as int),
        decreases self.slots().len() - i,
    {
        proof {
            assert(node_ok(self.slots(), i as int));
            lemma_depth_bound(self.slots(), i as int);
        }
        let node = self.nodes[i];
        let l: usize = match node.left {
            Some(k) => self.depth_from(k),
            None => 0,
        };
        let r: usize = match node.right {
            Some(k) => self.depth_from(k),
            None => 0,
        };
        if l >= r {
            l + 1
        } else {
            r + 1
        }
    }

    fn find_from(&self, i: usize, value: i32) -> (r: Option<NodeLink>)
        requires
            self.wf(),
            i < self.slots().len(),
        ensures
            r == find_value(self.slots(), i as int, value),
        decreases self.slots().len() - i,
    {
        proof {
            assert(node_ok(self.slots(), i as int));
        }
        let node = self.nodes[i];
        if node.value == value {
            return Some(i);
        }
        if let Some(l) = node.left {
            let found = self.find_from(l, value);
            if found.is_some() {
                return found;
            }
        }
        match node.right {
            Some(r) => self.find_from(r, value),
            None => None,
        }
    }

    fn holds_from(&self, i: usize, target: NodeLink) -> (r: bool)
        requires
            self.wf(),
            i < self.slots().len(),
        ensures
            r == subtree(self.slots(), i as int).contains(target as int),
        decreases self.slots().len() - i,
    {
        proof {
            assert(node_ok(self.slots(), i as int));
        }
        if i == target {
            return true;
        }
        let node = self.nodes[i];
        if let Some(l) = node.left {
            if self.holds_from(l, target) {
                return true;
            }
        }
        match node.right {
            Some(r) => self.holds_from(r, target),
            None => false,
        }
    }
}


impl Node {
    /// A tree of one node, holding `value`, which is its root.
    pub fn new_nodelink(value: i32) -> (r: Tree)
        ensures
            r.wf(),
            r.top() == Some(0usize),
            r.slots() == seq![Node { value, parent: None, left: None, right: None }],
            r.size() == 1,
            r.height() == 1,
    {
        let mut nodes: Vec<Node> = Vec::new();
        nodes.push(Node::new(value));
        let r = Tree { nodes, root: Some(0) };
        proof {
            assert(node_ok(r.slots(), 0));
            assert(r.live() =~= set![0int]);
        }
        r
    }

    /// Hangs a new node holding `value` as the left child of `parent`.
    pub fn add_left_child(tree: &mut Tree, parent: NodeLink, value: i32) -> (r: Result<
        NodeLink,
        TreeError,
    >)
        requires
            old(tree).wf(),
        ensures
            final(tree).wf(),
            old(tree).attach_outcome(*final(tree), parent, Side::Left, value, r),
    {
        tree.attach(parent, Side::Left, value)
    }

    /// Hangs a new node holding `value` as the right child of `parent`.
    pub fn add_right_child(tree: &mut Tree, parent: NodeLink, value: i32) -> (r: Result<
        NodeLink,
        TreeError,
    >)
        requires
            old(tree).wf(),
        ensures
            final(tree).wf(),
            old(tree).attach_outcome(*final(tree), parent, Side::Right, value, r),
    {
        tree.attach(parent, Side::Right, value)
    }

    /// Cuts the first node, in pre-order from the root, that holds `value` out
    /// of the tree together with everything below it. Reports whether there
    /// was such a node.
    pub fn discard_node_by_value(tree: &mut Tree, value: i32) -> (r: bool)
        requires
            old(tree).wf(),
        ensures
            final(tree).wf(),
            old(tree).discard_outcome(*final(tree), value, r),
    {
        tree.discard(value)
    }

    /// Every parent-to-child edge of the live tree, in pre-order from the
    /// root; none for an empty tree.
    pub fn dot_edges(tree: &Tree) -> (r: Vec<Edge>)
        requires
            tree.wf(),
        ensures
            r@ == match tree.top() {
                Some(root) => edges_at(tree.slots(), root as int),
                None => Seq::empty(),
            },
    {
        let mut out: Vec<Edge> = Vec::new();
        if let Some(root) = tree.root {
            tree.edges_from(root, &mut out);
        }
        proof {
            assert(out@ =~= match tree.top() {
                Some(root) => edges_at(tree.slots(), root as int),
                None => Seq::empty(),
            });
        }
        out
    }

    /// The number of nodes reachable from the root of `tree`.
    pub fn count_nodes(tree: &Tree) -> (r: usize)
        requires
            tree.wf(),
        ensures
            r == tree.size(),
    {
        match tree.root {
            Some(root) => tree.count_from(root),
            None => 0,
        }
    }

    /// The number of nodes in the subtree at `node`, itself included; zero
    /// for a position that is not part of the live tree.
    pub fn count_nodes_by_nodelink(tree: &Tree, node: NodeLink) -> (r: usize)
        requires
            tree.wf(),
        ensures
            r == (if tree.live().contains(node as int) {
                count_at(tree.slots(), node as int)
            } else {
                0
            }),
    {
        if tree.is_live(node) {
            tree.count_from(node)
        } else {
            0
        }
    }

    /// The height of the subtree at `node`, counted in nodes; zero for a
    /// position that is not part of the live tree.
    pub fn tree_depth(tree: &Tree, node: NodeLink) -> (r: usize)
        requires
            tree.wf(),
        ensures
            r == (if tree.live().contains(node as int) {
                depth_at(tree.slots(), node as int)
            } else {
                0
            }),
    {
        if tree.is_live(node) {
            tree.depth_from(node)
        } else {
            0
        }
    }

    /// The first node below `start`, in pre-order, that holds `value`; none
    /// when `start` is not part of the live tree.
    pub fn get_node_by_value(tree: &Tree, start: NodeLink, value: i32) -> (r: Option<NodeLink>)
        requires
            tree.wf(),
        ensures
            r == tree.lookup(start, value),
            r matches Some(j) ==> tree.live().contains(j as int) && subtree(
                tree.slots(),
                start as int,
            ).contains(j as int) && tree.slots()[j as int].value == value,
            tree.live().contains(start as int) ==> (r is None <==> forall|j: int| #[trigger]
                subtree(tree.slots(), start as int).contains(j) ==> tree.slots()[j].value
                    != value),
    {
        proof {
            lemma_find_value(tree.slots(), start as int, value);
            if tree.live().contains(start as int) {
                tree.lemma_live_closed(start as int);
            }
        }
        if tree.is_live(start) {
            tree.find_from(start, value)
        } else {
            None
        }
    }

    /// `node` itself if `start` is part of the live tree and `node` lies in
    /// the subtree at `start`, else `None`: the way to tell whether a
    /// position kept from earlier still belongs there.
    pub fn get_node_by_full_property(tree: &Tree, start: NodeLink, node: NodeLink) -> (r: Option<
        NodeLink,
    >)
        requires
            tree.wf(),
        ensures
            r == (if tree.live().contains(start as int) && subtree(
                tree.slots(),
                start as int,
            ).contains(node as int) {
                Some(node)
            } else {
                None
            }),
    {
        if tree.is_live(start) && tree.holds_from(start, node) {
            Some(node)
        } else {
            None
        }
    }

    /// The other child of the parent of `node`, if `node` is part of the live
    /// tree and there is such a child.
    pub fn get_sibling(tree: &Tree, node: NodeLink) -> (r: Option<NodeLink>)
        requires
            tree.wf(),
        ensures
            r == (if tree.live().contains(node as int) {
                sibling_of(tree.slots(), node as int)
            } else {
                None
            }),
    {
        if !tree.is_live(node) {
            return None;
        }
        let p = match tree.nodes[node].parent {
            Some(p) => p,
            None => return None,
        };
        if p >= tree.nodes.len() {
            return None;
        }
        let parent = tree.nodes[p];
        if parent.left == Some(node) {
            parent.right
        } else if parent.right == Some(node) {
            parent.left
        } else {
            None
        }
    }
}

} // verus!
