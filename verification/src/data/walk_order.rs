//! The order in which a walk of the scene tree comes to nodes: a node before all below it,
//! and what hangs below one child before what hangs below a later one.

use super::forest::lemma_no_self_climb;
use super::model::{lists_id, SceneModel};
use super::tree::{
    above, climb, climb_ends, climbs, descends, descent_ends, distinct, forest,
    lemma_above_present, lemma_above_step, NodeMap,
};
use super::visibility::depth_below;
use super::walk::{
    lemma_climb_adds, lemma_one_child_above, lemma_top, lemma_visits, visits, visits_list,
    visits_roots,
};
use crate::resource::handle::{Handle, NodeId};
use vstd::prelude::*;

verus! {

/// Whether of two lists of siblings, `a` hangs below an earlier one than `b`.
pub open spec fn earlier_among(nodes: NodeMap, list: Seq<Handle>, a: NodeId, b: NodeId) -> bool {
    exists|x: int, y: int|
        0 <= x < y < list.len() && #[trigger] above(nodes, list[x].id, a) && #[trigger] above(
            nodes,
            list[y].id,
            b,
        )
}

/// Whether a node stands before another in a tree: above it, or below an earlier child of
/// a node that has both below it.
pub open spec fn stands_before(nodes: NodeMap, a: NodeId, b: NodeId) -> bool {
    ||| a != b && above(nodes, a, b)
    ||| exists|p: NodeId| #[trigger]
        nodes.contains_key(p) && earlier_among(nodes, nodes[p].children, a, b)
}

/// Whether nodes are in the order in which they stand in a tree.
pub open spec fn in_tree_order(nodes: NodeMap, order: Seq<NodeId>) -> bool {
    forall|i: int, j: int|
        #![trigger order[i], order[j]]
        0 <= i < j < order.len() ==> !stands_before(nodes, order[j], order[i])
}

/// Whether nodes are in the order in which the roots are listed that they hang off.
pub open spec fn in_root_order(nodes: NodeMap, roots: Seq<Handle>, order: Seq<NodeId>) -> bool {
    forall|i: int, j: int|
        #![trigger order[i], order[j]]
        0 <= i < j < order.len() ==> !earlier_among(nodes, roots, order[j], order[i])
}

proof fn lemma_above_through(nodes: NodeMap, a: NodeId, b: NodeId, k: NodeId)
    requires
        above(nodes, a, b),
        above(nodes, b, k),
    ensures
        above(nodes, a, k),
{
    let i = choose|i: nat| climb(nodes, k, i) == Some(b);
    let j = choose|j: nat| climb(nodes, b, j) == Some(a);
    lemma_climb_adds(nodes, k, i, j);
    assert(climb(nodes, k, i + j) == Some(a));
}

proof fn lemma_above_once(nodes: NodeMap, a: NodeId, b: NodeId)
    requires
        climb_ends(nodes, a),
        above(nodes, a, b),
        above(nodes, b, a),
    ensures
        a == b,
{
    let n = choose|n: nat| climbs(nodes, a, n);
    let i = choose|i: nat| climb(nodes, b, i) == Some(a);
    let j = choose|j: nat| climb(nodes, a, j) == Some(b);
    lemma_climb_adds(nodes, a, j, i);
    if j + i > 0 {
        lemma_no_self_climb(nodes, a, n, j + i);
    }
}

proof fn lemma_above_line(nodes: NodeMap, a: NodeId, b: NodeId, k: NodeId)
    requires
        above(nodes, a, k),
        above(nodes, b, k),
    ensures
        above(nodes, a, b) || above(nodes, b, a),
{
    let i = choose|i: nat| climb(nodes, k, i) == Some(a);
    let j = choose|j: nat| climb(nodes, k, j) == Some(b);
    if i <= j {
        lemma_climb_adds(nodes, k, i, (j - i) as nat);
        assert(climb(nodes, a, (j - i) as nat) == Some(b));
    } else {
        lemma_climb_adds(nodes, k, j, (i - j) as nat);
        assert(climb(nodes, b, (i - j) as nat) == Some(a));
    }
}

/// Two children of a node that are above the same node are one.
proof fn lemma_one_child(
    nodes: NodeMap,
    roots: Seq<Handle>,
    p: NodeId,
    x: int,
    y: int,
    k: NodeId,
)
    requires
        forest(nodes, roots),
        nodes.contains_key(p),
        0 <= x < nodes[p].children.len(),
        0 <= y < nodes[p].children.len(),
        above(nodes, nodes[p].children[x].id, k),
        above(nodes, nodes[p].children[y].id, k),
    ensures
        x == y,
{
    let children = nodes[p].children;
    let (a, b) = (children[x].id, children[y].id);
    lemma_above_present(nodes, a, k);
    lemma_above_present(nodes, b, k);
    assert(lists_id(nodes[p].children, a));
    assert(lists_id(nodes[p].children, b));
    let i = choose|i: nat| climb(nodes, k, i) == Some(a);
    let j = choose|j: nat| climb(nodes, k, j) == Some(b);
    assert(climb_ends(nodes, p));
    lemma_one_child_above(nodes, p, k, i, j);
    assert(distinct(children));
    if x < y {
        assert(children[x].id != children[y].id);
    } else if y < x {
        assert(children[y].id != children[x].id);
    }
}

/// A child is strictly below its parent, and what is strictly above the child is above the
/// parent.
proof fn lemma_child(nodes: NodeMap, roots: Seq<Handle>, p: NodeId, x: int, k: NodeId)
    requires
        forest(nodes, roots),
        nodes.contains_key(p),
        0 <= x < nodes[p].children.len(),
        above(nodes, nodes[p].children[x].id, k),
    ensures
        nodes.contains_key(nodes[p].children[x].id),
        above(nodes, p, nodes[p].children[x].id),
        above(nodes, p, k),
        forall|a: NodeId| #[trigger]
            above(nodes, a, nodes[p].children[x].id) && a != nodes[p].children[x].id ==> above(
                nodes,
                a,
                p,
            ),
{
    let c = nodes[p].children[x].id;
    lemma_above_present(nodes, c, k);
    assert(lists_id(nodes[p].children, c));
    assert(nodes[c].parent == Some(p));
    assert(climb(nodes, p, 0) == Some(p));
    assert(above(nodes, p, p));
    lemma_above_step(nodes, p, c);
    lemma_above_through(nodes, p, c, k);
    assert forall|a: NodeId| #[trigger] above(nodes, a, c) && a != c implies above(nodes, a, p) by {
        lemma_above_step(nodes, a, c);
    }
}

/// A child of a node strictly above another node that both have below them.
proof fn lemma_child_on_the_way(
    nodes: NodeMap,
    roots: Seq<Handle>,
    p: NodeId,
    x: int,
    q: NodeId,
    k: NodeId,
)
    requires
        forest(nodes, roots),
        nodes.contains_key(p),
        0 <= x < nodes[p].children.len(),
        above(nodes, nodes[p].children[x].id, k),
        above(nodes, q, k),
        above(nodes, p, q),
        p != q,
    ensures
        above(nodes, nodes[p].children[x].id, q),
{
    let c = nodes[p].children[x].id;
    lemma_child(nodes, roots, p, x, k);
    lemma_above_line(nodes, c, q, k);
    if !above(nodes, c, q) {
        assert(above(nodes, q, c));
        if q != c {
            assert(above(nodes, q, p));
            assert(climb_ends(nodes, p));
            lemma_above_once(nodes, p, q);
        }
    }
}

/// What a walk from a node comes to is below it.
proof fn lemma_visited_below(
    nodes: NodeMap,
    roots: Seq<Handle>,
    pass: spec_fn(NodeId) -> bool,
    id: NodeId,
    n: nat,
)
    requires
        forest(nodes, roots),
        descends(nodes, id, n),
    ensures
        forall|k: NodeId| #[trigger]
            visits(nodes, pass, id, n).contains(k) ==> above(nodes, id, k),
{
    lemma_visits(nodes, roots, pass, id, n);
}

/// Nothing below a later child stands before something below an earlier one.
proof fn lemma_children_in_order(
    nodes: NodeMap,
    roots: Seq<Handle>,
    parent: NodeId,
    i: int,
    j: int,
    a: NodeId,
    b: NodeId,
)
    requires
        forest(nodes, roots),
        nodes.contains_key(parent),
        0 <= i < j < nodes[parent].children.len(),
        above(nodes, nodes[parent].children[i].id, a),
        above(nodes, nodes[parent].children[j].id, b),
    ensures
        !stands_before(nodes, b, a),
{
    let children = nodes[parent].children;
    if b != a && above(nodes, b, a) {
        lemma_above_through(nodes, children[j].id, b, a);
        lemma_one_child(nodes, roots, parent, i, j, a);
    } else if stands_before(nodes, b, a) {
        let p = choose|p: NodeId| #[trigger]
            nodes.contains_key(p) && earlier_among(nodes, nodes[p].children, b, a);
        let list = nodes[p].children;
        let (x, y) = choose|x: int, y: int|
            0 <= x < y < list.len() && #[trigger] above(nodes, list[x].id, b) && #[trigger] above(
                nodes,
                list[y].id,
                a,
            );
        if p == parent {
            lemma_one_child(nodes, roots, parent, x, j, b);
            lemma_one_child(nodes, roots, parent, y, i, a);
        } else {
            lemma_child(nodes, roots, p, x, b);
            lemma_child(nodes, roots, p, y, a);
            lemma_child(nodes, roots, parent, i, a);
            lemma_child(nodes, roots, parent, j, b);
            lemma_above_line(nodes, p, parent, a);
            if above(nodes, p, parent) {
                lemma_child_on_the_way(nodes, roots, p, x, parent, b);
                lemma_child_on_the_way(nodes, roots, p, y, parent, a);
                lemma_one_child(nodes, roots, p, x, y, parent);
            } else {
                lemma_child_on_the_way(nodes, roots, parent, i, p, a);
                lemma_child_on_the_way(nodes, roots, parent, j, p, b);
                lemma_one_child(nodes, roots, parent, i, j, p);
            }
        }
    }
}

/// Nothing below a node stands before it.
proof fn lemma_node_first(nodes: NodeMap, roots: Seq<Handle>, id: NodeId, k: NodeId)
    requires
        forest(nodes, roots),
        above(nodes, id, k),
    ensures
        !stands_before(nodes, k, id),
{
    assert(climb_ends(nodes, id));
    if k != id && above(nodes, k, id) {
        lemma_above_once(nodes, id, k);
    } else if stands_before(nodes, k, id) {
        let p = choose|p: NodeId| #[trigger]
            nodes.contains_key(p) && earlier_among(nodes, nodes[p].children, k, id);
        let list = nodes[p].children;
        let (x, y) = choose|x: int, y: int|
            0 <= x < y < list.len() && #[trigger] above(nodes, list[x].id, k) && #[trigger] above(
                nodes,
                list[y].id,
                id,
            );
        lemma_above_through(nodes, list[y].id, id, k);
        lemma_one_child(nodes, roots, p, x, y, k);
    }
}

proof fn lemma_order_added(nodes: NodeMap, a: Seq<NodeId>, b: Seq<NodeId>)
    requires
        in_tree_order(nodes, a),
        in_tree_order(nodes, b),
        forall|x: NodeId, y: NodeId|
            #![trigger a.contains(x), b.contains(y)]
            a.contains(x) && b.contains(y) ==> !stands_before(nodes, y, x),
    ensures
        in_tree_order(nodes, a + b),
{
    let s = a + b;
    assert forall|i: int, j: int|
        #![trigger s[i], s[j]]
        0 <= i < j < s.len() implies !stands_before(nodes, s[j], s[i]) by {
        if j < a.len() {
            assert(s[i] == a[i] && s[j] == a[j]);
        } else if i >= a.len() {
            assert(s[i] == b[i - a.len()] && s[j] == b[j - a.len()]);
        } else {
            assert(a.contains(a[i]));
            assert(b.contains(b[j - a.len()]));
        }
    }
}

proof fn lemma_visits_order(
    nodes: NodeMap,
    roots: Seq<Handle>,
    pass: spec_fn(NodeId) -> bool,
    id: NodeId,
    n: nat,
)
    requires
        forest(nodes, roots),
        descends(nodes, id, n),
    ensures
        in_tree_order(nodes, visits(nodes, pass, id, n)),
    decreases n, 0nat,
{
    if nodes.contains_key(id) && pass(id) && n > 0 {
        let children = nodes[id].children;
        let less = (n - 1) as nat;
        assert(children.take(children.len() as int) =~= children);
        lemma_visits_list_order(nodes, roots, pass, id, children.len() as int, less, n);
        let rest = visits_list(nodes, pass, children, less);
        lemma_visited_below(nodes, roots, pass, id, n);
        let all = visits(nodes, pass, id, n);
        assert forall|x: NodeId, y: NodeId|
            #![trigger seq![id].contains(x), rest.contains(y)]
            seq![id].contains(x) && rest.contains(y) implies !stands_before(nodes, y, x) by {
            let i = choose|i: int| 0 <= i < rest.len() && rest[i] == y;
            assert(all[i + 1] == y);
            assert(all.contains(y));
            lemma_node_first(nodes, roots, id, y);
        }
        lemma_order_added(nodes, seq![id], rest);
    }
}

proof fn lemma_visits_list_order(
    nodes: NodeMap,
    roots: Seq<Handle>,
    pass: spec_fn(NodeId) -> bool,
    parent: NodeId,
    upto: int,
    n: nat,
    depth: nat,
)
    requires
        forest(nodes, roots),
        nodes.contains_key(parent),
        0 <= upto <= nodes[parent].children.len(),
        descends(nodes, parent, depth),
        depth == n + 1,
    ensures
        in_tree_order(nodes, visits_list(nodes, pass, nodes[parent].children.take(upto), n)),
        forall|k: NodeId| #[trigger]
            visits_list(nodes, pass, nodes[parent].children.take(upto), n).contains(k)
                ==> exists|i: int|
                0 <= i < upto && #[trigger] above(nodes, nodes[parent].children[i].id, k),
    decreases n, upto + 1,
{
    let children = nodes[parent].children;
    let ids = children.take(upto);
    if upto > 0 {
        let last = children[upto - 1].id;
        assert(ids.drop_last() =~= children.take(upto - 1));
        assert(ids.last() == children[upto - 1]);
        assert(descends(nodes, nodes[parent].children[upto - 1].id, n));
        lemma_visits_list_order(nodes, roots, pass, parent, upto - 1, n, depth);
        lemma_visits_order(nodes, roots, pass, last, n);
        lemma_visited_below(nodes, roots, pass, last, n);
        let a = visits_list(nodes, pass, children.take(upto - 1), n);
        let b = visits(nodes, pass, last, n);
        let all = visits_list(nodes, pass, ids, n);
        assert(all == a + b);
        assert forall|x: NodeId, y: NodeId|
            #![trigger a.contains(x), b.contains(y)]
            a.contains(x) && b.contains(y) implies !stands_before(nodes, y, x) by {
            let i = choose|i: int|
                0 <= i < upto - 1 && #[trigger] above(nodes, nodes[parent].children[i].id, x);
            assert(above(nodes, nodes[parent].children[upto - 1].id, y));
            lemma_children_in_order(nodes, roots, parent, i, upto - 1, x, y);
        }
        lemma_order_added(nodes, a, b);
        assert forall|k: NodeId| #[trigger] all.contains(k) implies exists|i: int|
            0 <= i < upto && #[trigger] above(nodes, nodes[parent].children[i].id, k) by {
            let z = choose|z: int| 0 <= z < all.len() && all[z] == k;
            if z < a.len() {
                assert(a[z] == k);
                assert(a.contains(k));
                let i = choose|i: int|
                    0 <= i < upto - 1 && #[trigger] above(nodes, nodes[parent].children[i].id, k);
                assert(above(nodes, nodes[parent].children[i].id, k));
            } else {
                assert(b[z - a.len()] == k);
                assert(b.contains(k));
                assert(above(nodes, nodes[parent].children[upto - 1].id, k));
            }
        }
    }
}

/// Two roots above the same node are one.
proof fn lemma_one_root(nodes: NodeMap, roots: Seq<Handle>, x: int, y: int, k: NodeId)
    requires
        forest(nodes, roots),
        0 <= x < roots.len(),
        0 <= y < roots.len(),
        above(nodes, roots[x].id, k),
        above(nodes, roots[y].id, k),
    ensures
        x == y,
{
    let (a, b) = (roots[x].id, roots[y].id);
    lemma_above_present(nodes, a, k);
    lemma_above_present(nodes, b, k);
    assert(lists_id(roots, a));
    assert(lists_id(roots, b));
    let i = choose|i: nat| climb(nodes, k, i) == Some(a);
    let j = choose|j: nat| climb(nodes, k, j) == Some(b);
    lemma_top(nodes, k, i, j);
    lemma_top(nodes, k, j, i);
    if x < y {
        assert(roots[x].id != roots[y].id);
    } else if y < x {
        assert(roots[y].id != roots[x].id);
    }
}

/// A root is above whatever is above a node that it is above.
proof fn lemma_root_on_top(nodes: NodeMap, roots: Seq<Handle>, x: int, p: NodeId, k: NodeId)
    requires
        forest(nodes, roots),
        0 <= x < roots.len(),
        above(nodes, roots[x].id, k),
        above(nodes, p, k),
    ensures
        above(nodes, roots[x].id, p),
{
    let r = roots[x].id;
    lemma_above_present(nodes, r, k);
    assert(lists_id(roots, r));
    lemma_above_line(nodes, r, p, k);
    if above(nodes, p, r) && p != r {
        lemma_above_step(nodes, p, r);
    }
}

/// Nothing below a later root stands before something below an earlier one.
proof fn lemma_roots_in_order(
    nodes: NodeMap,
    roots: Seq<Handle>,
    i: int,
    j: int,
    a: NodeId,
    b: NodeId,
)
    requires
        forest(nodes, roots),
        0 <= i < j < roots.len(),
        above(nodes, roots[i].id, a),
        above(nodes, roots[j].id, b),
    ensures
        !stands_before(nodes, b, a),
        !earlier_among(nodes, roots, b, a),
{
    if earlier_among(nodes, roots, b, a) {
        let (x, y) = choose|x: int, y: int|
            0 <= x < y < roots.len() && #[trigger] above(nodes, roots[x].id, b)
                && #[trigger] above(nodes, roots[y].id, a);
        lemma_one_root(nodes, roots, x, j, b);
        lemma_one_root(nodes, roots, y, i, a);
    }
    if b != a && above(nodes, b, a) {
        lemma_above_through(nodes, roots[j].id, b, a);
        lemma_one_root(nodes, roots, i, j, a);
    } else if stands_before(nodes, b, a) {
        let p = choose|p: NodeId| #[trigger]
            nodes.contains_key(p) && earlier_among(nodes, nodes[p].children, b, a);
        let list = nodes[p].children;
        let (x, y) = choose|x: int, y: int|
            0 <= x < y < list.len() && #[trigger] above(nodes, list[x].id, b) && #[trigger] above(
                nodes,
                list[y].id,
                a,
            );
        lemma_child(nodes, roots, p, x, b);
        lemma_child(nodes, roots, p, y, a);
        lemma_root_on_top(nodes, roots, j, p, b);
        lemma_root_on_top(nodes, roots, i, p, a);
        lemma_one_root(nodes, roots, i, j, p);
    }
}

proof fn lemma_roots_order(
    nodes: NodeMap,
    roots: Seq<Handle>,
    pass: spec_fn(NodeId) -> bool,
    upto: int,
)
    requires
        forest(nodes, roots),
        0 <= upto <= roots.len(),
    ensures
        in_tree_order(nodes, visits_roots(nodes, pass, roots.take(upto))),
        in_root_order(nodes, roots, visits_roots(nodes, pass, roots.take(upto))),
        forall|k: NodeId| #[trigger]
            visits_roots(nodes, pass, roots.take(upto)).contains(k) ==> exists|i: int|
                0 <= i < upto && #[trigger] above(nodes, roots[i].id, k),
    decreases upto,
{
    let ids = roots.take(upto);
    if upto > 0 {
        let last = roots[upto - 1].id;
        assert(ids.drop_last() =~= roots.take(upto - 1));
        assert(ids.last() == roots[upto - 1]);
        assert(descent_ends(nodes, last));
        let n = depth_below(nodes, last);
        assert(descends(nodes, last, n));
        lemma_roots_order(nodes, roots, pass, upto - 1);
        lemma_visits_order(nodes, roots, pass, last, n);
        lemma_visited_below(nodes, roots, pass, last, n);
        let a = visits_roots(nodes, pass, roots.take(upto - 1));
        let b = visits(nodes, pass, last, n);
        let all = visits_roots(nodes, pass, ids);
        assert(all == a + b);
        assert forall|x: NodeId, y: NodeId|
            #![trigger a.contains(x), b.contains(y)]
            a.contains(x) && b.contains(y) implies !stands_before(nodes, y, x)
            && !earlier_among(nodes, roots, y, x) by {
            let i = choose|i: int| 0 <= i < upto - 1 && #[trigger] above(nodes, roots[i].id, x);
            lemma_roots_in_order(nodes, roots, i, upto - 1, x, y);
        }
        lemma_order_added(nodes, a, b);
        assert forall|i: int, j: int|
            #![trigger all[i], all[j]]
            0 <= i < j < all.len() implies !earlier_among(nodes, roots, all[j], all[i]) by {
            if j < a.len() {
                assert(all[i] == a[i] && all[j] == a[j]);
            } else if i < a.len() {
                assert(a.contains(a[i]));
                assert(b.contains(b[j - a.len()]));
            } else {
                let (s, t) = (all[i], all[j]);
                assert(b[i - a.len()] == s && b[j - a.len()] == t);
                assert(b.contains(s) && b.contains(t));
                if earlier_among(nodes, roots, t, s) {
                    let (x, y) = choose|x: int, y: int|
                        0 <= x < y < roots.len() && #[trigger] above(nodes, roots[x].id, t)
                            && #[trigger] above(nodes, roots[y].id, s);
                    lemma_one_root(nodes, roots, x, upto - 1, t);
                    lemma_one_root(nodes, roots, y, upto - 1, s);
                }
            }
        }
        assert forall|k: NodeId| #[trigger] all.contains(k) implies exists|i: int|
            0 <= i < upto && #[trigger] above(nodes, roots[i].id, k) by {
            let z = choose|z: int| 0 <= z < all.len() && all[z] == k;
            if z < a.len() {
                assert(a[z] == k);
                assert(a.contains(k));
                let i = choose|i: int| 0 <= i < upto - 1 && #[trigger] above(nodes, roots[i].id, k);
                assert(above(nodes, roots[i].id, k));
            } else {
                assert(b[z - a.len()] == k);
                assert(b.contains(k));
                assert(above(nodes, roots[upto - 1].id, k));
            }
        }
    }
}

/// The walks from the roots of a scene come to nodes in the order in which they stand in
/// the tree.
pub proof fn lemma_walk_order(m: SceneModel, pass: spec_fn(NodeId) -> bool)
    requires
        m.tree(),
    ensures
        in_tree_order(m.nodes, visits_roots(m.nodes, pass, m.roots)),
        in_root_order(m.nodes, m.roots, visits_roots(m.nodes, pass, m.roots)),
{
    assert(m.roots.take(m.roots.len() as int) =~= m.roots);
    lemma_roots_order(m.nodes, m.roots, pass, m.roots.len() as int);
}

} // verus!
