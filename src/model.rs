//! The mathematical model of an arena of nodes: which positions hang below a
//! node, how many there are, how deep they go, and what the lookups find.
use vstd::prelude::*;
use vstd::set_lib::*;
use crate::node::Node;

verus! {

/// Which child slot of a node.
#[derive(Clone, Copy, Debug, PartialEq, Eq, Structural)]
pub enum Side {
    Left,
    Right,
}

/// The child slot `side` of `n`.
pub open spec fn slot(n: Node, side: Side) -> Option<usize> {
    match side {
        Side::Left => n.left,
        Side::Right => n.right,
    }
}

/// `n` with its child slot `side` set to `c`.
pub open spec fn with_slot(n: Node, side: Side, c: Option<usize>) -> Node {
    match side {
        Side::Left => Node { left: c, ..n },
        Side::Right => Node { right: c, ..n },
    }
}

/// The owning link `c` of node `i` points further down the arena, at a node
/// whose back-link names `i`.
pub open spec fn linked_below(s: Seq<Node>, i: int, c: Option<usize>) -> bool {
    match c {
        Some(k) => i < k < s.len() && s[k as int].parent == Some(i as usize),
        None => true,
    }
}

/// The back-link of node `i`, if any, names an earlier node that holds `i` in
/// exactly one of its two child slots.
pub open spec fn linked_above(s: Seq<Node>, i: int) -> bool {
    match s[i].parent {
        Some(p) => p < i && ((s[p as int].left == Some(i as usize)) != (s[p as int].right
            == Some(i as usize))),
        None => true,
    }
}

pub open spec fn node_ok(s: Seq<Node>, i: int) -> bool {
    &&& linked_below(s, i, s[i].left)
    &&& linked_below(s, i, s[i].right)
    &&& linked_above(s, i)
}

/// Every link of the arena agrees with the link that goes the other way.
pub open spec fn links_ok(s: Seq<Node>) -> bool {
    forall|i: int| 0 <= i < s.len() ==> #[trigger] node_ok(s, i)
}

/// The positions of the nodes in the subtree rooted at `i`, `i` included.
pub open spec fn subtree(s: Seq<Node>, i: int) -> Set<int>
    decreases s.len() - i,
{
    if 0 <= i < s.len() {
        let l = match s[i].left {
            Some(k) => if i < k < s.len() {
                subtree(s, k as int)
            } else {
                Set::empty()
            },
            None => Set::empty(),
        };
        let r = match s[i].right {
            Some(k) => if i < k < s.len() {
                subtree(s, k as int)
            } else {
                Set::empty()
            },
            None => Set::empty(),
        };
        set![i] + l + r
    } else {
        Set::empty()
    }
}

/// The number of nodes below `i`, itself included: one for the node and the
/// counts of the children that are present.
pub open spec fn count_at(s: Seq<Node>, i: int) -> nat
    decreases s.len() - i,
{
    if 0 <= i < s.len() {
        let l = match s[i].left {
            Some(k) => if i < k < s.len() {
                count_at(s, k as int)
            } else {
                0
            },
            None => 0,
        };
        let r = match s[i].right {
            Some(k) => if i < k < s.len() {
                count_at(s, k as int)
            } else {
                0
            },
            None => 0,
        };
        1 + l + r
    } else {
        0
    }
}

/// The height of the subtree at `i`, counted in nodes: a leaf has depth one,
/// an absent child depth zero.
pub open spec fn depth_at(s: Seq<Node>, i: int) -> nat
    decreases s.len() - i,
{
    if 0 <= i < s.len() {
        let l = match s[i].left {
            Some(k) => if i < k < s.len() {
                depth_at(s, k as int)
            } else {
                0
            },
            None => 0,
        };
        let r = match s[i].right {
            Some(k) => if i < k < s.len() {
                depth_at(s, k as int)
            } else {
                0
            },
            None => 0,
        };
        1 + if l >= r {
            l
        } else {
            r
        }
    } else {
        0
    }
}

/// The first node holding `v` in a pre-order walk from `i`: the node itself,
/// then its left subtree, then its right subtree.
pub open spec fn find_value(s: Seq<Node>, i: int, v: i32) -> Option<usize>
    decreases s.len() - i,
{
    if 0 <= i < s.len() {
        if s[i].value == v {
            Some(i as usize)
        } else {
            let l = match s[i].left {
                Some(k) => if i < k < s.len() {
                    find_value(s, k as int, v)
                } else {
                    None
                },
                None => None,
            };
            if l is Some {
                l
            } else {
                match s[i].right {
                    Some(k) => if i < k < s.len() {
                        find_value(s, k as int, v)
                    } else {
                        None
                    },
                    None => None,
                }
            }
        }
    } else {
        None
    }
}

/// The other child of the parent of `n`, if `n` has a parent and that parent
/// has a second child.
pub open spec fn sibling_of(s: Seq<Node>, n: int) -> Option<usize> {
    if 0 <= n < s.len() {
        match s[n].parent {
            Some(p) => if p < s.len() {
                if s[p as int].left == Some(n as usize) {
                    s[p as int].right
                } else if s[p as int].right == Some(n as usize) {
                    s[p as int].left
                } else {
                    None
                }
            } else {
                None
            },
            None => None,
        }
    } else {
        None
    }
}

/// A parent-to-child link, labelled by the values the two nodes hold.
#[derive(Clone, Copy, Debug, PartialEq, Eq, Structural)]
pub struct Edge {
    pub parent: i32,
    pub side: Side,
    pub child: i32,
}

/// The edges below `i` in pre-order: the edge to the left child and the
/// edges below it, then the edge to the right child and the edges below it.
pub open spec fn edges_at(s: Seq<Node>, i: int) -> Seq<Edge>
    decreases s.len() - i,
{
    if 0 <= i < s.len() {
        let l = match s[i].left {
            Some(k) => if i < k < s.len() {
                seq![Edge { parent: s[i].value, side: Side::Left, child: s[k as int].value }]
                    + edges_at(s, k as int)
            } else {
                Seq::empty()
            },
            None => Seq::empty(),
        };
        let r = match s[i].right {
            Some(k) => if i < k < s.len() {
                seq![Edge { parent: s[i].value, side: Side::Right, child: s[k as int].value }]
                    + edges_at(s, k as int)
            } else {
                Seq::empty()
            },
            None => Seq::empty(),
        };
        l + r
    } else {
        Seq::empty()
    }
}

/// The arena after a new childless node holding `v` is appended and hung in
/// the slot `side` of `p`.
pub open spec fn attached(s: Seq<Node>, p: int, side: Side, v: i32) -> Seq<Node> {
    s.update(p, with_slot(s[p], side, Some(s.len() as usize))).push(
        Node { value: v, parent: Some(p as usize), left: None, right: None },
    )
}

/// The arena after node `d` is cut loose from its parent: the parent's slot
/// that held it is emptied and its back-link cleared.
pub open spec fn detached(s: Seq<Node>, d: int) -> Seq<Node> {
    let p = s[d].parent.unwrap() as int;
    let s1 = if s[p].left == Some(d as usize) {
        s.update(p, Node { left: None, ..s[p] })
    } else {
        s.update(p, Node { right: None, ..s[p] })
    };
    s1.update(d, Node { parent: None, ..s[d] })
}

/// No two nodes of `set` hold the same value.
pub open spec fn values_distinct(s: Seq<Node>, set: Set<int>) -> bool {
    forall|a: int, b: int|
        set.contains(a) && set.contains(b) && #[trigger] s[a].value == #[trigger] s[b].value ==> a
            == b
}

/// The subtree at `i` lies in the positions from `i` to the end of the arena.
pub proof fn lemma_subtree_range(s: Seq<Node>, i: int)
    ensures
        subtree(s, i).subset_of(set_int_range(i, s.len() as int)),
        subtree(s, i).finite(),
        0 <= i < s.len() ==> subtree(s, i).contains(i),
    decreases s.len() - i,
{
    if 0 <= i < s.len() {
        match s[i].left {
            Some(k) => if i < k < s.len() {
                lemma_subtree_range(s, k as int);
            },
            None => {},
        }
        match s[i].right {
            Some(k) => if i < k < s.len() {
                lemma_subtree_range(s, k as int);
            },
            None => {},
        }
        lemma_int_range(i, s.len() as int);
        lemma_len_subset(subtree(s, i), set_int_range(i, s.len() as int));
    } else {
        assert(subtree(s, i) =~= Set::empty());
    }
}


/// A node below `a`, other than `a`, has its parent below `a` too.
pub proof fn lemma_parent_inside(s: Seq<Node>, a: int, j: int)
    requires
        links_ok(s),
        subtree(s, a).contains(j),
        j != a,
    ensures
        s[j].parent is Some,
        subtree(s, a).contains(s[j].parent.unwrap() as int),
    decreases s.len() - a,
{
    lemma_subtree_range(s, a);
    assert(node_ok(s, a));
    match s[a].left {
        Some(k) => if subtree(s, k as int).contains(j) {
            lemma_subtree_range(s, k as int);
            if j != k {
                lemma_parent_inside(s, k as int, j);
            }
        },
        None => {},
    }
    match s[a].right {
        Some(k) => if subtree(s, k as int).contains(j) {
            lemma_subtree_range(s, k as int);
            if j != k {
                lemma_parent_inside(s, k as int, j);
            }
        },
        None => {},
    }
}

/// A node below `b` that lies below `a` has its whole subtree below `a`.
pub proof fn lemma_subtree_nested(s: Seq<Node>, a: int, b: int)
    requires
        links_ok(s),
        subtree(s, a).contains(b),
    ensures
        subtree(s, b).subset_of(subtree(s, a)),
    decreases s.len() - a,
{
    lemma_subtree_range(s, a);
    if b != a {
        match s[a].left {
            Some(k) => if a < k < s.len() && subtree(s, k as int).contains(b) {
                lemma_subtree_nested(s, k as int, b);
            },
            None => {},
        }
        match s[a].right {
            Some(k) => if a < k < s.len() && subtree(s, k as int).contains(b) {
                lemma_subtree_nested(s, k as int, b);
            },
            None => {},
        }
    }
}

/// Two subtrees that share a node are nested one in the other.
pub proof fn lemma_subtrees_overlap(s: Seq<Node>, a: int, b: int, j: int)
    requires
        links_ok(s),
        subtree(s, a).contains(j),
        subtree(s, b).contains(j),
    ensures
        subtree(s, a).contains(b) || subtree(s, b).contains(a),
    decreases j,
{
    lemma_subtree_range(s, a);
    lemma_subtree_range(s, b);
    if j != a && j != b {
        lemma_parent_inside(s, a, j);
        lemma_parent_inside(s, b, j);
        let p = s[j].parent.unwrap() as int;
        assert(node_ok(s, j));
        lemma_subtrees_overlap(s, a, b, p);
    }
}

/// The subtrees of the two children of a node share no node.
pub proof fn lemma_children_disjoint(s: Seq<Node>, i: int)
    requires
        links_ok(s),
        0 <= i < s.len(),
        s[i].left is Some,
        s[i].right is Some,
    ensures
        subtree(s, s[i].left.unwrap() as int).disjoint(subtree(s, s[i].right.unwrap() as int)),
{
    let l = s[i].left.unwrap() as int;
    let r = s[i].right.unwrap() as int;
    assert(node_ok(s, i));
    assert(node_ok(s, l));
    lemma_subtree_range(s, l);
    lemma_subtree_range(s, r);
    if exists|j: int| subtree(s, l).contains(j) && subtree(s, r).contains(j) {
        let j = choose|j: int| subtree(s, l).contains(j) && subtree(s, r).contains(j);
        lemma_subtrees_overlap(s, l, r, j);
        if subtree(s, r).contains(l) {
            lemma_parent_inside(s, r, l);
        } else {
            lemma_parent_inside(s, l, r);
        }
    }
}

/// The recursive count is the number of distinct nodes in the subtree, and
/// so at most the number of positions from `i` to the end of the arena.
pub proof fn lemma_count_is_card(s: Seq<Node>, i: int)
    requires
        links_ok(s),
    ensures
        count_at(s, i) == subtree(s, i).len(),
        0 <= i < s.len() ==> count_at(s, i) <= s.len() - i,
    decreases s.len() - i,
{
    lemma_subtree_range(s, i);
    if 0 <= i < s.len() {
        assert(node_ok(s, i));
        lemma_subtree_unfold(s, i);
        let l = below(s, i, s[i].left);
        let r = below(s, i, s[i].right);
        match s[i].left {
            Some(k) => lemma_count_is_card(s, k as int),
            None => {},
        }
        match s[i].right {
            Some(k) => lemma_count_is_card(s, k as int),
            None => {},
        }
        if s[i].left is Some {
            lemma_subtree_range(s, s[i].left.unwrap() as int);
        }
        if s[i].right is Some {
            lemma_subtree_range(s, s[i].right.unwrap() as int);
        }
        if s[i].left is Some && s[i].right is Some {
            lemma_children_disjoint(s, i);
        }
        assert(l.disjoint(r));
        lemma_set_disjoint_lens(l, r);
        assert(set![i].disjoint(l + r));
        lemma_set_disjoint_lens(set![i], l + r);
        assert(subtree(s, i) =~= set![i] + (l + r));
        lemma_int_range(i, s.len() as int);
        lemma_len_subset(subtree(s, i), set_int_range(i, s.len() as int));
    } else {
        assert(subtree(s, i) =~= Set::empty());
    }
}

/// The depth below `i` is at most the number of positions from `i` on.
pub proof fn lemma_depth_bound(s: Seq<Node>, i: int)
    ensures
        0 <= i < s.len() ==> depth_at(s, i) <= s.len() - i,
    decreases s.len() - i,
{
    if 0 <= i < s.len() {
        match s[i].left {
            Some(k) => if i < k < s.len() {
                lemma_depth_bound(s, k as int);
            },
            None => {},
        }
        match s[i].right {
            Some(k) => if i < k < s.len() {
                lemma_depth_bound(s, k as int);
            },
            None => {},
        }
    }
}


/// The subtree of the child in slot `c` of `i`, empty where there is none.
pub open spec fn below(s: Seq<Node>, i: int, c: Option<usize>) -> Set<int> {
    match c {
        Some(k) => if i < k < s.len() {
            subtree(s, k as int)
        } else {
            Set::empty()
        },
        None => Set::empty(),
    }
}

/// A subtree is its root and the subtrees of the two children.
pub proof fn lemma_subtree_unfold(s: Seq<Node>, i: int)
    requires
        0 <= i < s.len(),
    ensures
        subtree(s, i) == set![i] + below(s, i, s[i].left) + below(s, i, s[i].right),
{
}

/// What the pre-order value search finds: a node of the subtree holding the
/// value, and nothing exactly when no node of the subtree holds it.
pub proof fn lemma_find_value(s: Seq<Node>, i: int, v: i32)
    requires
        s.len() <= usize::MAX,
    ensures
        find_value(s, i, v) matches Some(j) ==> (subtree(s, i).contains(j as int) && s[j as int].value
            == v),
        find_value(s, i, v) is None <==> (forall|j: int| #[trigger]
            subtree(s, i).contains(j) ==> s[j].value != v),
    decreases s.len() - i,
{
    lemma_subtree_range(s, i);
    if 0 <= i < s.len() {
        lemma_subtree_unfold(s, i);
        let ls = below(s, i, s[i].left);
        let rs = below(s, i, s[i].right);
        match s[i].left {
            Some(k) => if i < k < s.len() {
                lemma_find_value(s, k as int, v);
                lemma_subtree_range(s, k as int);
                assert(below(s, i, Some(k)) == subtree(s, k as int));
            },
            None => {},
        }
        match s[i].right {
            Some(k) => if i < k < s.len() {
                lemma_find_value(s, k as int, v);
                lemma_subtree_range(s, k as int);
                assert(below(s, i, Some(k)) == subtree(s, k as int));
            },
            None => {},
        }
        assert(forall|j: int| ls.contains(j) ==> 0 <= j < s.len());
        assert(forall|j: int| rs.contains(j) ==> 0 <= j < s.len());
        if find_value(s, i, v) is None {
            assert(forall|j: int| #[trigger] subtree(s, i).contains(j) ==> s[j].value != v);
        }
        if forall|j: int| #[trigger] subtree(s, i).contains(j) ==> s[j].value != v {
            assert forall|j: int| #[trigger] ls.contains(j) implies s[j].value != v by {
                assert((set![i] + ls + rs).contains(j));
            }
            assert forall|j: int| #[trigger] rs.contains(j) implies s[j].value != v by {
                assert((set![i] + ls + rs).contains(j));
            }
        }
    } else {
        assert(subtree(s, i) =~= Set::empty());
    }
}


/// Hanging a new node under `p` keeps every link consistent.
pub proof fn lemma_attached_links(s: Seq<Node>, p: int, side: Side, v: i32)
    requires
        links_ok(s),
        0 <= p < s.len(),
        s.len() < usize::MAX,
        slot(s[p], side) is None,
    ensures
        links_ok(attached(s, p, side, v)),
{
    let t = attached(s, p, side, v);
    let n = s.len() as int;
    assert forall|i: int| 0 <= i < t.len() implies #[trigger] node_ok(t, i) by {
        if i < n {
            assert(node_ok(s, i));
            match s[i].parent {
                Some(q) => {
                    assert(t[q as int].left == Some(i as usize) <==> s[q as int].left == Some(
                        i as usize,
                    ));
                    assert(t[q as int].right == Some(i as usize) <==> s[q as int].right == Some(
                        i as usize,
                    ));
                },
                None => {},
            }
        } else {
            assert(node_ok(s, p));
        }
    }
}

/// Hanging a new node under `p` adds it to exactly the subtrees that hold
/// `p`, and leaves the others as they were.
pub proof fn lemma_attached_subtree(s: Seq<Node>, p: int, side: Side, v: i32, k: int)
    requires
        links_ok(s),
        0 <= p < s.len(),
        s.len() < usize::MAX,
        slot(s[p], side) is None,
        0 <= k < s.len(),
    ensures
        subtree(attached(s, p, side, v), k) == if subtree(s, k).contains(p) {
            subtree(s, k).insert(s.len() as int)
        } else {
            subtree(s, k)
        },
    decreases s.len() - k,
{
    let t = attached(s, p, side, v);
    let n = s.len() as int;
    assert(node_ok(s, k));
    lemma_subtree_unfold(s, k);
    lemma_subtree_unfold(t, k);
    lemma_subtree_range(s, k);
    match s[k].left {
        Some(c) => {
            lemma_attached_subtree(s, p, side, v, c as int);
            lemma_subtree_range(s, c as int);
        },
        None => {},
    }
    match s[k].right {
        Some(c) => {
            lemma_attached_subtree(s, p, side, v, c as int);
            lemma_subtree_range(s, c as int);
        },
        None => {},
    }
    if k == p {
        lemma_subtree_unfold(t, n);
        assert(subtree(t, n) =~= set![n]);
        assert(subtree(t, k) =~= subtree(s, k).insert(n));
    } else {
        assert(subtree(t, k) =~= if subtree(s, k).contains(p) {
            subtree(s, k).insert(n)
        } else {
            subtree(s, k)
        });
    }
}


/// Cutting `d` loose from its parent keeps every link consistent.
pub proof fn lemma_detached_links(s: Seq<Node>, d: int)
    requires
        links_ok(s),
        s.len() <= usize::MAX,
        0 <= d < s.len(),
        s[d].parent is Some,
    ensures
        links_ok(detached(s, d)),
        detached(s, d).len() == s.len(),
        forall|j: int| 0 <= j < s.len() ==> #[trigger] detached(s, d)[j].value == s[j].value,
{
    let t = detached(s, d);
    let p = s[d].parent.unwrap() as int;
    assert(node_ok(s, d));
    assert(node_ok(s, p));
    assert(p < d);
    assert(forall|j: int| 0 <= j < s.len() && j != p && j != d ==> t[j] == s[j]);
    assert(t[d] == Node { parent: None, ..s[d] });
    assert(t[p].parent == s[p].parent && t[p].value == s[p].value);
    assert(t[p].left == if s[p].left == Some(d as usize) { None } else { s[p].left });
    assert(t[p].right == if s[p].left == Some(d as usize) { s[p].right } else { None });
    assert forall|i: int| 0 <= i < t.len() implies #[trigger] node_ok(t, i) by {
        assert(node_ok(s, i));
        match s[i].left {
            Some(c) => {
                assert(node_ok(s, c as int));
            },
            None => {},
        }
        match s[i].right {
            Some(c) => {
                assert(node_ok(s, c as int));
            },
            None => {},
        }
        match s[i].parent {
            Some(q) => {
                assert(node_ok(s, q as int));
            },
            None => {},
        }
    }
}

/// Cutting `d` loose removes its subtree from every subtree that held it
/// strictly below the top, and leaves the others as they were.
pub proof fn lemma_detached_subtree(s: Seq<Node>, d: int, k: int)
    requires
        links_ok(s),
        s.len() <= usize::MAX,
        0 <= d < s.len(),
        s[d].parent is Some,
        0 <= k < s.len(),
    ensures
        subtree(detached(s, d), k) == if subtree(s, k).contains(d) && k != d {
            subtree(s, k).difference(subtree(s, d))
        } else {
            subtree(s, k)
        },
    decreases s.len() - k,
{
    let t = detached(s, d);
    let p = s[d].parent.unwrap() as int;
    assert(node_ok(s, d));
    assert(node_ok(s, k));
    lemma_subtree_unfold(s, k);
    lemma_subtree_unfold(t, k);
    lemma_subtree_range(s, k);
    lemma_subtree_range(s, d);
    match s[k].left {
        Some(c) => {
            lemma_detached_subtree(s, d, c as int);
            lemma_subtree_range(s, c as int);
            if subtree(s, c as int).contains(d) {
                lemma_subtree_nested(s, c as int, d);
            }
        },
        None => {},
    }
    match s[k].right {
        Some(c) => {
            lemma_detached_subtree(s, d, c as int);
            lemma_subtree_range(s, c as int);
            if subtree(s, c as int).contains(d) {
                lemma_subtree_nested(s, c as int, d);
            }
        },
        None => {},
    }
    if s[k].left is Some && s[k].right is Some {
        lemma_children_disjoint(s, k);
    }
    let ls = below(s, k, s[k].left);
    let rs = below(s, k, s[k].right);
    if k == p {
        if s[p].left == Some(d as usize) {
            assert(below(t, k, t[k].left) =~= Set::empty());
            assert(below(t, k, t[k].right) =~= rs);
            assert(subtree(t, k) =~= subtree(s, k).difference(subtree(s, d)));
        } else {
            assert(below(t, k, t[k].right) =~= Set::empty());
            assert(below(t, k, t[k].left) =~= ls);
            assert(subtree(t, k) =~= subtree(s, k).difference(subtree(s, d)));
        }
    } else if k == d {
        assert(below(t, k, t[k].left) =~= ls);
        assert(below(t, k, t[k].right) =~= rs);
        assert(subtree(t, k) =~= subtree(s, k));
    } else {
        assert(t[k] == s[k]);
        assert(subtree(t, k) =~= if subtree(s, k).contains(d) {
            subtree(s, k).difference(subtree(s, d))
        } else {
            subtree(s, k)
        });
    }
}


/// The number of nodes on the path from `j` up through its back-links to a
/// node without a parent, both ends included.
pub open spec fn level(s: Seq<Node>, j: int) -> nat
    decreases j,
{
    if 0 <= j < s.len() {
        match s[j].parent {
            Some(p) => if p < j {
                1 + level(s, p as int)
            } else {
                1
            },
            None => 1,
        }
    } else {
        1
    }
}

/// Hanging a child under the leaf `l` changes only the depths of the nodes
/// above `l`: each becomes the larger of its old depth and one more than the
/// number of nodes on its path down to `l`.
pub proof fn lemma_leaf_child_depth(s: Seq<Node>, l: int, side: Side, v: i32, k: int)
    requires
        links_ok(s),
        s.len() < usize::MAX,
        0 <= l < s.len(),
        s[l].left is None,
        s[l].right is None,
        0 <= k < s.len(),
    ensures
        depth_at(attached(s, l, side, v), k) == if subtree(s, k).contains(l) {
            vstd::math::max(depth_at(s, k) as int, level(s, l) - level(s, k) + 2)
        } else {
            depth_at(s, k) as int
        },
    decreases s.len() - k,
{
    let t = attached(s, l, side, v);
    let n = s.len() as int;
    assert(node_ok(s, k));
    lemma_subtree_unfold(s, k);
    lemma_subtree_range(s, k);
    if k == l {
        assert(depth_at(t, n) == 1);
        assert(depth_at(s, k) == 1);
    } else {
        assert(t[k] == s[k]);
        match s[k].left {
            Some(c) => {
                lemma_leaf_child_depth(s, l, side, v, c as int);
                lemma_subtree_range(s, c as int);
                assert(node_ok(s, c as int));
                assert(level(s, c as int) == level(s, k) + 1);
                if subtree(s, c as int).contains(l) {
                    lemma_subtree_nested(s, k, c as int);
                }
            },
            None => {},
        }
        match s[k].right {
            Some(c) => {
                lemma_leaf_child_depth(s, l, side, v, c as int);
                lemma_subtree_range(s, c as int);
                assert(node_ok(s, c as int));
                assert(level(s, c as int) == level(s, k) + 1);
            },
            None => {},
        }
        if s[k].left is Some && s[k].right is Some {
            lemma_children_disjoint(s, k);
        }
    }
}

} // verus!
