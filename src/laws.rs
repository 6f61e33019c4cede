//! Laws that relate the operations of the tree to one another.
use vstd::prelude::*;
use vstd::set_lib::{lemma_int_range, set_int_range};
use crate::model::{
    count_at, depth_at, find_value, lemma_count_is_card, lemma_detached_links,
    lemma_find_value, lemma_leaf_child_depth, lemma_parent_inside, lemma_subtree_range,
    lemma_subtree_unfold, level, node_ok, sibling_of,
    subtree, Side,
};
use crate::node::NodeLink;
use crate::tree::Tree;

verus! {

/// The count of a tree is the number of distinct nodes that a full walk from
/// the root reaches.
pub proof fn law_count_is_reachable_nodes(t: Tree)
    requires
        t.wf(),
    ensures
        t.live().finite(),
        t.size() == t.live().len(),
{
    match t.top() {
        Some(r) => {
            lemma_count_is_card(t.slots(), r as int);
            lemma_subtree_range(t.slots(), r as int);
        },
        None => {},
    }
}

/// A tree in which every slot of the arena is reachable, as in one grown
/// from a single root by insertions alone, counts one node per slot: the
/// root and one for each insertion.
pub proof fn law_grown_tree_counts_every_slot(t: Tree)
    requires
        t.wf(),
        t.live() == set_int_range(0, t.slots().len() as int),
    ensures
        t.size() == t.slots().len(),
{
    law_count_is_reachable_nodes(t);
    lemma_int_range(0, t.slots().len() as int);
}

/// A successful insertion into a tree whose every slot is reachable appends
/// one slot and keeps every slot reachable.
pub proof fn law_insertion_keeps_every_slot(
    t: Tree,
    after: Tree,
    parent: NodeLink,
    side: Side,
    value: i32,
    r: Result<NodeLink, crate::tree::TreeError>,
)
    requires
        t.wf(),
        t.live() == set_int_range(0, t.slots().len() as int),
        t.attach_outcome(after, parent, side, value, r),
        r is Ok,
    ensures
        after.slots().len() == t.slots().len() + 1,
        after.live() == set_int_range(0, after.slots().len() as int),
        after.size() == t.size() + 1,
{
    assert(after.live() =~= set_int_range(0, after.slots().len() as int));
}

/// The depth of a node is one more than the larger depth of its children,
/// an absent child counting zero.
pub proof fn law_depth_recurrence(t: Tree, i: NodeLink)
    requires
        t.wf(),
        i < t.slots().len(),
    ensures
        depth_at(t.slots(), i as int) == 1 + vstd::math::max(
            match t.slots()[i as int].left {
                Some(c) => depth_at(t.slots(), c as int),
                None => 0,
            } as int,
            match t.slots()[i as int].right {
                Some(c) => depth_at(t.slots(), c as int),
                None => 0,
            } as int,
        ),
{
    assert(node_ok(t.slots(), i as int));
}

/// Hanging a child under a leaf raises the depth of that leaf from one to
/// two.
pub proof fn law_child_under_leaf_adds_one_level(
    t: Tree,
    after: Tree,
    parent: NodeLink,
    side: Side,
    value: i32,
    r: Result<NodeLink, crate::tree::TreeError>,
)
    requires
        t.wf(),
        parent < t.slots().len(),
        t.slots()[parent as int].left is None,
        t.slots()[parent as int].right is None,
        t.attach_outcome(after, parent, side, value, r),
        r is Ok,
    ensures
        depth_at(t.slots(), parent as int) == 1,
        depth_at(after.slots(), parent as int) == depth_at(t.slots(), parent as int) + 1,
{
    let n = t.slots().len() as int;
    assert(depth_at(after.slots(), n) == 1);
}

/// The two children of one parent are each other's sibling.
pub proof fn law_siblings_are_symmetric(t: Tree, p: NodeLink)
    requires
        t.wf(),
        p < t.slots().len(),
        t.slots()[p as int].left is Some,
        t.slots()[p as int].right is Some,
    ensures
        sibling_of(t.slots(), t.slots()[p as int].left.unwrap() as int) == t.slots()[p as int].right,
        sibling_of(t.slots(), t.slots()[p as int].right.unwrap() as int) == t.slots()[p as int].left,
{
    let s = t.slots();
    assert(node_ok(s, p as int));
    assert(node_ok(s, s[p as int].left.unwrap() as int));
}

/// The root has no sibling.
pub proof fn law_root_has_no_sibling(t: Tree)
    requires
        t.wf(),
        t.top() is Some,
    ensures
        sibling_of(t.slots(), t.top().unwrap() as int) is None,
{
}

/// A discard that finds its value shrinks the count of the tree by exactly
/// the size of the cut subtree, and the value is no longer found from the
/// root.
pub proof fn law_discard_shrinks_count(t: Tree, after: Tree, value: i32, r: bool)
    requires
        t.wf(),
        t.discard_outcome(after, value, r),
        r,
    ensures
        after.size() == t.size() - count_at(
            t.slots(),
            find_value(t.slots(), t.top().unwrap() as int, value).unwrap() as int,
        ),
        after.top() matches Some(root) ==> find_value(after.slots(), root as int, value) is None,
        after.lookup(t.top().unwrap(), value) is None,
{
    let s = t.slots();
    let root = t.top().unwrap() as int;
    lemma_find_value(s, root, value);
    let d = find_value(s, root, value).unwrap() as int;
    if d != root {
        lemma_subtree_range(s, root);
        lemma_parent_inside(s, root, d);
        lemma_detached_links(s, d);
        lemma_subtree_range(s, d);
        lemma_find_value(after.slots(), root, value);
        assert(forall|j: int| #[trigger]
            subtree(after.slots(), root).contains(j) ==> after.slots()[j].value != value);
    }
}

/// Every back-link is answered by exactly one child slot of the parent it
/// names.
pub proof fn law_back_links_agree(t: Tree, n: NodeLink)
    requires
        t.wf(),
        n < t.slots().len(),
        t.slots()[n as int].parent is Some,
    ensures
        ({
            let p = t.slots()[n as int].parent.unwrap() as int;
            (t.slots()[p].left == Some(n)) != (t.slots()[p].right == Some(n))
        }),
{
    assert(node_ok(t.slots(), n as int));
}


/// A tree grown from a single root by a sequence of successful insertions,
/// `trees[i + 1]` being what the `i`-th insertion left, counts one node for
/// the root and one for each insertion.
pub proof fn law_count_after_insertions(
    trees: Seq<Tree>,
    parents: Seq<NodeLink>,
    sides: Seq<Side>,
    values: Seq<i32>,
    results: Seq<Result<NodeLink, crate::tree::TreeError>>,
)
    requires
        trees.len() == parents.len() + 1,
        sides.len() == parents.len(),
        values.len() == parents.len(),
        results.len() == parents.len(),
        trees[0].wf(),
        trees[0].top() == Some(0usize),
        trees[0].slots().len() == 1,
        forall|i: int|
            0 <= i < parents.len() ==> #[trigger] trees[i].wf() && results[i] is Ok
                && trees[i].attach_outcome(trees[i + 1], parents[i], sides[i], values[i], results[i]),
    ensures
        trees.last().size() == parents.len() + 1,
        trees.last().slots().len() == parents.len() + 1,
    decreases parents.len(),
{
    let k = parents.len() as int;
    if k == 0 {
        lemma_subtree_unfold(trees[0].slots(), 0);
        assert(node_ok(trees[0].slots(), 0));
        assert(trees[0].live() =~= set_int_range(0, 1));
        law_grown_tree_counts_every_slot(trees[0]);
    } else {
        law_every_slot_live_after_insertions(trees, parents, sides, values, results, k - 1);
        assert(trees[k - 1].wf());
        law_grown_tree_counts_every_slot(trees[k - 1]);
        law_insertion_keeps_every_slot(
            trees[k - 1],
            trees[k],
            parents[k - 1],
            sides[k - 1],
            values[k - 1],
            results[k - 1],
        );
    }
}

/// Along such a sequence, the `n`-th tree has `n + 1` slots and reaches
/// every one of them from its root.
pub proof fn law_every_slot_live_after_insertions(
    trees: Seq<Tree>,
    parents: Seq<NodeLink>,
    sides: Seq<Side>,
    values: Seq<i32>,
    results: Seq<Result<NodeLink, crate::tree::TreeError>>,
    n: int,
)
    requires
        trees.len() == parents.len() + 1,
        sides.len() == parents.len(),
        values.len() == parents.len(),
        results.len() == parents.len(),
        trees[0].wf(),
        trees[0].top() == Some(0usize),
        trees[0].slots().len() == 1,
        forall|i: int|
            0 <= i < parents.len() ==> #[trigger] trees[i].wf() && results[i] is Ok
                && trees[i].attach_outcome(trees[i + 1], parents[i], sides[i], values[i], results[i]),
        0 <= n < trees.len(),
    ensures
        trees[n].slots().len() == n + 1,
        trees[n].live() == set_int_range(0, n + 1),
    decreases n,
{
    if n == 0 {
        lemma_subtree_unfold(trees[0].slots(), 0);
        assert(node_ok(trees[0].slots(), 0));
        assert(trees[0].live() =~= set_int_range(0, 1));
    } else {
        law_every_slot_live_after_insertions(trees, parents, sides, values, results, n - 1);
        assert(trees[n - 1].wf());
        law_insertion_keeps_every_slot(
            trees[n - 1],
            trees[n],
            parents[n - 1],
            sides[n - 1],
            values[n - 1],
            results[n - 1],
        );
    }
}

/// Hanging a child under a live leaf `l` makes the depth of the root the
/// larger of its old depth and one more than the number of nodes on the path
/// from the root down to `l`.
pub proof fn law_child_under_leaf_deepens_root(
    t: Tree,
    after: Tree,
    l: NodeLink,
    side: Side,
    value: i32,
    r: Result<NodeLink, crate::tree::TreeError>,
)
    requires
        t.wf(),
        t.live().contains(l as int),
        t.slots()[l as int].left is None,
        t.slots()[l as int].right is None,
        t.attach_outcome(after, l, side, value, r),
        r is Ok,
    ensures
        depth_at(after.slots(), after.top().unwrap() as int) == vstd::math::max(
            depth_at(t.slots(), t.top().unwrap() as int) as int,
            (level(t.slots(), l as int) + 1) as int,
        ),
{
    let s = t.slots();
    let root = t.top().unwrap() as int;
    lemma_subtree_range(s, root);
    lemma_leaf_child_depth(s, l as int, side, value, root);
    assert(level(s, root) == 1);
}

} // verus!
