//! Walks of the scene tree.
//!
//! A walk goes from the roots down, node by node, and passes a node by, with all below it,
//! where a test says so. This module says which nodes a walk comes to, by the links
//! between nodes alone, and what a node shows under all that is above it.

use super::coherence::lemma_rooted_step;
use super::forest::lemma_no_self_climb;
use super::model::{lists_id, SceneModel};
use super::nodes::{lemma_climb_next, lemma_climb_stops};
use super::tree::{
    above, climb, climb_ends, climbs, descends, descent_ends, distinct, forest,
    lemma_above_present, lemma_above_step, NodeMap,
};
use super::visibility::depth_below;
use super::world::rooted;
use crate::resource::display::{DisplayBehavior, RenderLayer};
use crate::resource::handle::{Handle, NodeId};
use vstd::prelude::*;

verus! {

/// The nodes that a walk from a node comes to, at most `n` steps down.
pub open spec fn visits(
    nodes: NodeMap,
    pass: spec_fn(NodeId) -> bool,
    id: NodeId,
    n: nat,
) -> Seq<NodeId>
    decreases n, 0nat,
{
    if !nodes.contains_key(id) || !pass(id) {
        Seq::empty()
    } else if n == 0 {
        seq![id]
    } else {
        seq![id] + visits_list(nodes, pass, nodes[id].children, (n - 1) as nat)
    }
}

/// The nodes that walks from several nodes come to, one walk after another.
pub open spec fn visits_list(
    nodes: NodeMap,
    pass: spec_fn(NodeId) -> bool,
    ids: Seq<Handle>,
    n: nat,
) -> Seq<NodeId>
    decreases n, ids.len() + 1,
{
    if ids.len() == 0 {
        Seq::empty()
    } else {
        visits_list(nodes, pass, ids.drop_last(), n) + visits(nodes, pass, ids.last().id, n)
    }
}

/// The nodes that walks from several roots come to, one walk after another.
pub open spec fn visits_roots(
    nodes: NodeMap,
    pass: spec_fn(NodeId) -> bool,
    ids: Seq<Handle>,
) -> Seq<NodeId>
    decreases ids.len(),
{
    if ids.len() == 0 {
        Seq::empty()
    } else {
        visits_roots(nodes, pass, ids.drop_last()) + visits(
            nodes,
            pass,
            ids.last().id,
            depth_below(nodes, ids.last().id),
        )
    }
}

/// Whether every node from `k` to the one `j` steps above it passes.
pub open spec fn clear(nodes: NodeMap, pass: spec_fn(NodeId) -> bool, k: NodeId, j: nat) -> bool {
    forall|i: nat| i <= j ==> (#[trigger] climb(nodes, k, i)) is Some && pass(climb(nodes, k, i)->0)
}

/// Whether a node hangs off the roots.
pub open spec fn hangs(m: SceneModel, k: NodeId) -> bool {
    exists|i: int| 0 <= i < m.roots.len() && #[trigger] above(m.nodes, m.roots[i].id, k)
}

/// Whether a node hangs off the roots and it and all nodes above it pass a test.
pub open spec fn comes_through(m: SceneModel, pass: spec_fn(NodeId) -> bool, k: NodeId) -> bool {
    &&& hangs(m, k)
    &&& forall|a: NodeId| #[trigger] above(m.nodes, a, k) ==> pass(a)
}

/// Whether a sequence of nodes holds each node that hangs off the roots, and that passes
/// a test together with all nodes above it, exactly once, and no other.
pub open spec fn covers(m: SceneModel, pass: spec_fn(NodeId) -> bool, order: Seq<NodeId>) -> bool {
    &&& order.no_duplicates()
    &&& forall|k: NodeId| #[trigger] order.contains(k) <==> comes_through(m, pass, k)
}

pub proof fn lemma_climb_adds(nodes: NodeMap, id: NodeId, i: nat, j: nat)
    requires
        climb(nodes, id, i) is Some,
    ensures
        climb(nodes, climb(nodes, id, i)->0, j) == climb(nodes, id, i + j),
    decreases i,
{
    if i > 0 {
        lemma_climb_adds(nodes, nodes[id].parent->0, (i - 1) as nat, j);
    }
}

proof fn lemma_in_sum<A>(a: Seq<A>, b: Seq<A>, x: A)
    ensures
        (a + b).contains(x) <==> a.contains(x) || b.contains(x),
{
    if a.contains(x) {
        let i = choose|i: int| 0 <= i < a.len() && a[i] == x;
        assert((a + b)[i] == x);
    }
    if b.contains(x) {
        let i = choose|i: int| 0 <= i < b.len() && b[i] == x;
        assert((a + b)[a.len() + i] == x);
    }
    if (a + b).contains(x) {
        let i = choose|i: int| 0 <= i < (a + b).len() && (a + b)[i] == x;
        if i < a.len() {
            assert(a[i] == x);
        } else {
            assert(b[i - a.len()] == x);
        }
    }
}

proof fn lemma_apart<A>(a: Seq<A>, b: Seq<A>)
    requires
        a.no_duplicates(),
        b.no_duplicates(),
        forall|x: A| #[trigger] a.contains(x) ==> !b.contains(x),
    ensures
        (a + b).no_duplicates(),
{
    let s = a + b;
    assert forall|i: int, j: int| 0 <= i < s.len() && 0 <= j < s.len() && i != j implies s[i]
        != s[j] by {
        if i < a.len() && j >= a.len() {
            assert(a.contains(a[i]));
            assert(b.contains(b[j - a.len()]));
        } else if j < a.len() && i >= a.len() {
            assert(a.contains(a[j]));
            assert(b.contains(b[i - a.len()]));
        }
    }
}

/// Which nodes a walk from a node comes to.
pub proof fn lemma_visits(
    nodes: NodeMap,
    roots: Seq<Handle>,
    pass: spec_fn(NodeId) -> bool,
    id: NodeId,
    n: nat,
)
    requires
        forest(nodes, roots),
        descends(nodes, id, n),
    ensures
        forall|k: NodeId| #[trigger]
            visits(nodes, pass, id, n).contains(k) <==> exists|j: nat|
                #[trigger] climb(nodes, k, j) == Some(id) && clear(nodes, pass, k, j),
        visits(nodes, pass, id, n).no_duplicates(),
    decreases n, 0nat,
{
    let all = visits(nodes, pass, id, n);
    assert(climb_ends(nodes, id));
    let high = choose|h: nat| climbs(nodes, id, h);
    if !nodes.contains_key(id) || !pass(id) {
        assert forall|k: NodeId| !(#[trigger] all.contains(k)) && !(exists|j: nat| #[trigger]
            climb(nodes, k, j) == Some(id) && clear(nodes, pass, k, j)) by {
            if exists|j: nat| #[trigger] climb(nodes, k, j) == Some(id) && clear(nodes, pass, k, j) {
                let j = choose|j: nat| #[trigger]
                    climb(nodes, k, j) == Some(id) && clear(nodes, pass, k, j);
                lemma_climb_next(nodes, k, j);
                lemma_climb_adds(nodes, k, j, 0);
                assert(climb(nodes, id, 0) == Some(id));
                assert(pass(climb(nodes, k, j)->0));
            }
        }
    } else {
        let children = nodes[id].children;
        if children.len() > 0 {
            assert(nodes[id].children[0] == children[0]);
            assert(n > 0);
        }
        let less: nat = if n > 0 {
            (n - 1) as nat
        } else {
            0
        };
        assert forall|i: int| 0 <= i < children.len() implies descends(
            nodes,
            (#[trigger] children[i]).id,
            less,
        ) && (nodes.contains_key(children[i].id) ==> nodes[children[i].id].parent == Some(
            id,
        )) by {
            assert(nodes[id].children[i] == children[i]);
            assert(lists_id(nodes[id].children, children[i].id));
        }
        assert(distinct(children));
        let rest = visits_list(nodes, pass, children, less);
        if n == 0 {
            assert(children.len() == 0);
            assert(rest =~= Seq::empty());
        } else {
            lemma_visits_list(nodes, roots, pass, id, children, less);
        }
        assert(all =~= seq![id] + rest);
        assert forall|k: NodeId| #[trigger] all.contains(k) <==> exists|j: nat|
            #[trigger] climb(nodes, k, j) == Some(id) && clear(nodes, pass, k, j) by {
            lemma_in_sum(seq![id], rest, k);
            if k == id {
                assert(seq![id][0] == id);
                assert(climb(nodes, k, 0) == Some(id));
                assert(clear(nodes, pass, k, 0));
            } else if seq![id].contains(k) {
                assert(false);
            }
            if rest.contains(k) {
                let (i, j) = choose|i: int, j: nat|
                    0 <= i < children.len() && #[trigger] climb(nodes, k, j) == Some(
                        (#[trigger] children[i]).id,
                    ) && clear(nodes, pass, k, j);
                lemma_climb_next(nodes, k, j);
                lemma_climb_adds(nodes, k, j, 0);
                assert(climb(nodes, children[i].id, 0) == Some(children[i].id));
                assert(climb(nodes, k, j + 1) == Some(id));
                assert(clear(nodes, pass, k, j + 1)) by {
                    assert forall|x: nat| x <= j + 1 implies (#[trigger] climb(
                        nodes,
                        k,
                        x,
                    )) is Some && pass(climb(nodes, k, x)->0) by {
                        if x <= j {
                            assert(clear(nodes, pass, k, j));
                        }
                    }
                }
            }
            if exists|j: nat| #[trigger] climb(nodes, k, j) == Some(id) && clear(nodes, pass, k, j) {
                let j = choose|j: nat| #[trigger]
                    climb(nodes, k, j) == Some(id) && clear(nodes, pass, k, j);
                if k != id {
                    assert(j > 0);
                    let down = (j - 1) as nat;
                    assert(climb(nodes, k, down) is Some);
                    let c = climb(nodes, k, down)->0;
                    lemma_climb_next(nodes, k, down);
                    lemma_climb_adds(nodes, k, down, 0);
                    assert(climb(nodes, c, 0) == Some(c));
                    assert(nodes.contains_key(c));
                    assert(nodes[c].parent == Some(id));
                    assert(lists_id(nodes[id].children, c));
                    let i = choose|i: int| 0 <= i < children.len() && (#[trigger] children[i]).id == c;
                    assert(clear(nodes, pass, k, down));
                    assert(climb(nodes, k, down) == Some(children[i].id));
                }
            }
        }
        assert forall|k: NodeId| #[trigger] seq![id].contains(k) implies !rest.contains(k) by {
            if rest.contains(k) {
                let (i, j) = choose|i: int, j: nat|
                    0 <= i < children.len() && #[trigger] climb(nodes, k, j) == Some(
                        (#[trigger] children[i]).id,
                    ) && clear(nodes, pass, k, j);
                lemma_climb_next(nodes, k, j);
                lemma_climb_adds(nodes, k, j, 0);
                assert(climb(nodes, children[i].id, 0) == Some(children[i].id));
                assert(climb(nodes, id, j + 1) == Some(id));
                lemma_no_self_climb(nodes, id, high, j + 1);
            }
        }
        lemma_apart(seq![id], rest);
    }
}

/// Which nodes the walks from the children of a node come to.
proof fn lemma_visits_list(
    nodes: NodeMap,
    roots: Seq<Handle>,
    pass: spec_fn(NodeId) -> bool,
    parent: NodeId,
    ids: Seq<Handle>,
    n: nat,
)
    requires
        forest(nodes, roots),
        nodes.contains_key(parent),
        distinct(ids),
        forall|i: int|
            0 <= i < ids.len() ==> descends(nodes, (#[trigger] ids[i]).id, n) && (
            nodes.contains_key(ids[i].id) ==> nodes[ids[i].id].parent == Some(parent)),
    ensures
        forall|k: NodeId| #[trigger]
            visits_list(nodes, pass, ids, n).contains(k) <==> exists|i: int, j: nat|
                0 <= i < ids.len() && #[trigger] climb(nodes, k, j) == Some((#[trigger] ids[i]).id)
                    && clear(nodes, pass, k, j),
        visits_list(nodes, pass, ids, n).no_duplicates(),
    decreases n, ids.len() + 1,
{
    if ids.len() > 0 {
        let front = ids.drop_last();
        let last = ids.last().id;
        assert(ids[ids.len() - 1].id == last);
        assert forall|i: int| 0 <= i < front.len() implies descends(
            nodes,
            (#[trigger] front[i]).id,
            n,
        ) && (nodes.contains_key(front[i].id) ==> nodes[front[i].id].parent == Some(parent)) by {
            assert(front[i] == ids[i]);
        }
        assert(distinct(front)) by {
            assert forall|i: int, j: int|
                #![trigger front[i], front[j]]
                0 <= i < j < front.len() implies front[i].id != front[j].id by {
                assert(front[i] == ids[i] && front[j] == ids[j]);
            }
        }
        lemma_visits_list(nodes, roots, pass, parent, front, n);
        lemma_visits(nodes, roots, pass, last, n);
        let a = visits_list(nodes, pass, front, n);
        let b = visits(nodes, pass, last, n);
        let all = visits_list(nodes, pass, ids, n);
        assert(all =~= a + b);
        assert forall|k: NodeId| #[trigger] all.contains(k) <==> exists|i: int, j: nat|
            0 <= i < ids.len() && #[trigger] climb(nodes, k, j) == Some((#[trigger] ids[i]).id)
                && clear(nodes, pass, k, j) by {
            lemma_in_sum(a, b, k);
            if a.contains(k) {
                let (i, j) = choose|i: int, j: nat|
                    0 <= i < front.len() && #[trigger] climb(nodes, k, j) == Some(
                        (#[trigger] front[i]).id,
                    ) && clear(nodes, pass, k, j);
                assert(climb(nodes, k, j) == Some(ids[i].id));
            }
            if b.contains(k) {
                let j = choose|j: nat| #[trigger]
                    climb(nodes, k, j) == Some(last) && clear(nodes, pass, k, j);
                assert(climb(nodes, k, j) == Some(ids[ids.len() - 1].id));
            }
            if exists|i: int, j: nat|
                0 <= i < ids.len() && #[trigger] climb(nodes, k, j) == Some((#[trigger] ids[i]).id)
                    && clear(nodes, pass, k, j) {
                let (i, j) = choose|i: int, j: nat|
                    0 <= i < ids.len() && #[trigger] climb(nodes, k, j) == Some(
                        (#[trigger] ids[i]).id,
                    ) && clear(nodes, pass, k, j);
                if i < front.len() {
                    assert(climb(nodes, k, j) == Some(front[i].id));
                } else {
                    assert(climb(nodes, k, j) == Some(last));
                }
            }
        }
        assert forall|k: NodeId| #[trigger] a.contains(k) implies !b.contains(k) by {
            if b.contains(k) {
                let (i, x) = choose|i: int, x: nat|
                    0 <= i < front.len() && #[trigger] climb(nodes, k, x) == Some(
                        (#[trigger] front[i]).id,
                    ) && clear(nodes, pass, k, x);
                let y = choose|y: nat| #[trigger]
                    climb(nodes, k, y) == Some(last) && clear(nodes, pass, k, y);
                assert(front[i] == ids[i]);
                lemma_climb_adds(nodes, k, x, 0);
                lemma_climb_adds(nodes, k, y, 0);
                assert(climb(nodes, ids[i].id, 0) is Some);
                assert(climb(nodes, last, 0) is Some);
                lemma_one_child_above(nodes, parent, k, x, y);
            }
        }
        lemma_apart(a, b);
    }
}

/// At most one child of a node is above another node.
pub proof fn lemma_one_child_above(nodes: NodeMap, parent: NodeId, k: NodeId, x: nat, y: nat)
    requires
        nodes.contains_key(parent),
        climb_ends(nodes, parent),
        climb(nodes, k, x) is Some,
        climb(nodes, k, y) is Some,
        nodes[climb(nodes, k, x)->0].parent == Some(parent),
        nodes[climb(nodes, k, y)->0].parent == Some(parent),
    ensures
        climb(nodes, k, x) == climb(nodes, k, y),
{
    let high = choose|h: nat| climbs(nodes, parent, h);
    lemma_climb_next(nodes, k, x);
    lemma_climb_next(nodes, k, y);
    if x < y {
        lemma_climb_adds(nodes, k, x + 1, (y - x) as nat);
        lemma_no_self_climb(nodes, parent, high, (y - x) as nat);
    } else if y < x {
        lemma_climb_adds(nodes, k, y + 1, (x - y) as nat);
        lemma_no_self_climb(nodes, parent, high, (x - y) as nat);
    }
}

/// A node without a parent is the last on the way up.
pub proof fn lemma_top(nodes: NodeMap, k: NodeId, x: nat, y: nat)
    requires
        climb(nodes, k, x) is Some,
        nodes[climb(nodes, k, x)->0].parent is None,
        climb(nodes, k, y) is Some,
    ensures
        y <= x,
{
    if x < y {
        lemma_climb_next(nodes, k, x);
        lemma_climb_stops(nodes, k, x + 1, y);
    }
}

proof fn lemma_visits_roots(
    nodes: NodeMap,
    roots: Seq<Handle>,
    pass: spec_fn(NodeId) -> bool,
    ids: Seq<Handle>,
)
    requires
        forest(nodes, roots),
        distinct(ids),
        forall|i: int|
            0 <= i < ids.len() && nodes.contains_key((#[trigger] ids[i]).id)
                ==> nodes[ids[i].id].parent is None,
    ensures
        forall|k: NodeId| #[trigger]
            visits_roots(nodes, pass, ids).contains(k) <==> exists|i: int, j: nat|
                0 <= i < ids.len() && #[trigger] climb(nodes, k, j) == Some((#[trigger] ids[i]).id)
                    && clear(nodes, pass, k, j),
        visits_roots(nodes, pass, ids).no_duplicates(),
    decreases ids.len(),
{
    if ids.len() > 0 {
        let front = ids.drop_last();
        let last = ids.last().id;
        assert(ids[ids.len() - 1].id == last);
        assert forall|i: int|
            0 <= i < front.len() && nodes.contains_key((#[trigger] front[i]).id) implies nodes[
        front[i].id].parent is None by {
            assert(front[i] == ids[i]);
        }
        assert(distinct(front)) by {
            assert forall|i: int, j: int|
                #![trigger front[i], front[j]]
                0 <= i < j < front.len() implies front[i].id != front[j].id by {
                assert(front[i] == ids[i] && front[j] == ids[j]);
            }
        }
        lemma_visits_roots(nodes, roots, pass, front);
        assert(descent_ends(nodes, last));
        let n = depth_below(nodes, last);
        assert(descends(nodes, last, n));
        lemma_visits(nodes, roots, pass, last, n);
        let a = visits_roots(nodes, pass, front);
        let b = visits(nodes, pass, last, n);
        let all = visits_roots(nodes, pass, ids);
        assert(all =~= a + b);
        assert forall|k: NodeId| #[trigger] all.contains(k) <==> exists|i: int, j: nat|
            0 <= i < ids.len() && #[trigger] climb(nodes, k, j) == Some((#[trigger] ids[i]).id)
                && clear(nodes, pass, k, j) by {
            lemma_in_sum(a, b, k);
            if a.contains(k) {
                let (i, j) = choose|i: int, j: nat|
                    0 <= i < front.len() && #[trigger] climb(nodes, k, j) == Some(
                        (#[trigger] front[i]).id,
                    ) && clear(nodes, pass, k, j);
                assert(climb(nodes, k, j) == Some(ids[i].id));
            }
            if b.contains(k) {
                let j = choose|j: nat| #[trigger]
                    climb(nodes, k, j) == Some(last) && clear(nodes, pass, k, j);
                assert(climb(nodes, k, j) == Some(ids[ids.len() - 1].id));
            }
            if exists|i: int, j: nat|
                0 <= i < ids.len() && #[trigger] climb(nodes, k, j) == Some((#[trigger] ids[i]).id)
                    && clear(nodes, pass, k, j) {
                let (i, j) = choose|i: int, j: nat|
                    0 <= i < ids.len() && #[trigger] climb(nodes, k, j) == Some(
                        (#[trigger] ids[i]).id,
                    ) && clear(nodes, pass, k, j);
                if i < front.len() {
                    assert(climb(nodes, k, j) == Some(front[i].id));
                } else {
                    assert(climb(nodes, k, j) == Some(last));
                }
            }
        }
        assert forall|k: NodeId| #[trigger] a.contains(k) implies !b.contains(k) by {
            if b.contains(k) {
                let (i, x) = choose|i: int, x: nat|
                    0 <= i < front.len() && #[trigger] climb(nodes, k, x) == Some(
                        (#[trigger] front[i]).id,
                    ) && clear(nodes, pass, k, x);
                let y = choose|y: nat| #[trigger]
                    climb(nodes, k, y) == Some(last) && clear(nodes, pass, k, y);
                assert(front[i] == ids[i]);
                lemma_climb_adds(nodes, k, x, 0);
                lemma_climb_adds(nodes, k, y, 0);
                assert(climb(nodes, ids[i].id, 0) is Some);
                assert(climb(nodes, last, 0) is Some);
                lemma_top(nodes, k, x, y);
                lemma_top(nodes, k, y, x);
            }
        }
        lemma_apart(a, b);
    }
}

/// The walks from the roots of a scene come to each node that hangs off the roots, and
/// that passes together with all nodes above it, exactly once.
pub proof fn lemma_walk_covers(m: SceneModel, pass: spec_fn(NodeId) -> bool)
    requires
        m.tree(),
    ensures
        covers(m, pass, visits_roots(m.nodes, pass, m.roots)),
{
    let nodes = m.nodes;
    let order = visits_roots(nodes, pass, m.roots);
    assert forall|i: int|
        0 <= i < m.roots.len() && nodes.contains_key((#[trigger] m.roots[i]).id) implies nodes[
    m.roots[i].id].parent is None by {
        assert(lists_id(m.roots, m.roots[i].id));
    }
    lemma_visits_roots(nodes, m.roots, pass, m.roots);
    assert forall|k: NodeId| #[trigger] order.contains(k) <==> comes_through(m, pass, k) by {
        if order.contains(k) {
            let (i, j) = choose|i: int, j: nat|
                0 <= i < m.roots.len() && #[trigger] climb(nodes, k, j) == Some(
                    (#[trigger] m.roots[i]).id,
                ) && clear(nodes, pass, k, j);
            assert(above(nodes, m.roots[i].id, k));
            lemma_climb_adds(nodes, k, j, 0);
            assert(climb(nodes, m.roots[i].id, 0) is Some);
            assert forall|a: NodeId| #[trigger] above(nodes, a, k) implies pass(a) by {
                let y = choose|y: nat| climb(nodes, k, y) == Some(a);
                lemma_top(nodes, k, j, y);
                assert(pass(climb(nodes, k, y)->0));
            }
        }
        if comes_through(m, pass, k) {
            let i = choose|i: int|
                0 <= i < m.roots.len() && #[trigger] above(m.nodes, m.roots[i].id, k);
            let j = choose|j: nat| climb(nodes, k, j) == Some(m.roots[i].id);
            assert forall|x: nat| x <= j implies (#[trigger] climb(nodes, k, x)) is Some && pass(
                climb(nodes, k, x)->0,
            ) by {
                if climb(nodes, k, x) is None {
                    lemma_climb_stops(nodes, k, x, j);
                }
                assert(above(nodes, climb(nodes, k, x)->0, k));
            }
            assert(clear(nodes, pass, k, j));
            assert(climb(nodes, k, j) == Some(m.roots[i].id));
        }
    }
}

/// Whether a presentation is that of a node under all that is above it: the node faces
/// the screen or is on the overlay if it or a node above it says so, and has the size
/// that the nearest of them asks for.
pub open spec fn presents(nodes: NodeMap, k: NodeId, shown: DisplayBehavior) -> bool {
    &&& shown.screen_facing <==> exists|a: NodeId| #[trigger]
        above(nodes, a, k) && nodes[a].display.screen_facing
    &&& shown.layer == RenderLayer::Overlay <==> exists|a: NodeId| #[trigger]
        above(nodes, a, k) && nodes[a].display.layer == RenderLayer::Overlay
    &&& shown.screen_size is None <==> forall|a: NodeId| #[trigger]
        above(nodes, a, k) ==> nodes[a].display.screen_size is None
    &&& shown.screen_size is Some ==> exists|j: nat|
        (#[trigger] climb(nodes, k, j)) is Some && nodes[climb(nodes, k, j)->0].display.screen_size
            == shown.screen_size && forall|i: nat|
            i < j ==> nodes[(#[trigger] climb(nodes, k, i))->0].display.screen_size is None
}

/// A node has one presentation.
pub proof fn lemma_presents_one(
    nodes: NodeMap,
    k: NodeId,
    a: DisplayBehavior,
    b: DisplayBehavior,
)
    requires
        presents(nodes, k, a),
        presents(nodes, k, b),
    ensures
        a == b,
{
    if a.screen_size is Some {
        let i = choose|i: nat|
            (#[trigger] climb(nodes, k, i)) is Some && nodes[climb(
                nodes,
                k,
                i,
            )->0].display.screen_size == a.screen_size && forall|x: nat|
                x < i ==> nodes[(#[trigger] climb(nodes, k, x))->0].display.screen_size is None;
        let j = choose|j: nat|
            (#[trigger] climb(nodes, k, j)) is Some && nodes[climb(
                nodes,
                k,
                j,
            )->0].display.screen_size == b.screen_size && forall|x: nat|
                x < j ==> nodes[(#[trigger] climb(nodes, k, x))->0].display.screen_size is None;
        if i < j {
            assert(nodes[climb(nodes, k, i)->0].display.screen_size is None);
        } else if j < i {
            assert(nodes[climb(nodes, k, j)->0].display.screen_size is None);
        }
    }
    assert(a.layer == RenderLayer::Overlay || a.layer == RenderLayer::Scene);
    assert(b.layer == RenderLayer::Overlay || b.layer == RenderLayer::Scene);
}

/// What a node shows is what its parent shows, but for what the node itself asks for.
pub proof fn lemma_presents_step(nodes: NodeMap, k: NodeId, from: DisplayBehavior)
    requires
        nodes.contains_key(k),
        match nodes[k].parent {
            Some(p) => nodes.contains_key(p) && presents(nodes, p, from),
            None => from == DisplayBehavior::ordinary(),
        },
    ensures
        presents(nodes, k, DisplayBehavior::inherited(from, nodes[k].display)),
{
    let own = nodes[k].display;
    let shown = DisplayBehavior::inherited(from, own);
    assert(climb(nodes, k, 0) == Some(k));
    assert(above(nodes, k, k));
    assert forall|a: NodeId| #[trigger] above(nodes, a, k) implies a == k || (nodes[k].parent is Some
        && above(nodes, a, nodes[k].parent->0)) by {
        lemma_above_step(nodes, a, k);
    }
    if let Some(p) = nodes[k].parent {
        assert forall|a: NodeId| #[trigger] above(nodes, a, p) implies above(nodes, a, k) by {
            lemma_above_step(nodes, a, k);
        }
        if own.screen_size is None && from.screen_size is Some {
            let j = choose|j: nat|
                (#[trigger] climb(nodes, p, j)) is Some && nodes[climb(
                    nodes,
                    p,
                    j,
                )->0].display.screen_size == from.screen_size && forall|i: nat|
                    i < j ==> nodes[(#[trigger] climb(nodes, p, i))->0].display.screen_size is None;
            assert(climb(nodes, k, j + 1) == climb(nodes, p, j));
            assert forall|i: nat| i < j + 1 implies nodes[(#[trigger] climb(
                nodes,
                k,
                i,
            ))->0].display.screen_size is None by {
                if i > 0 {
                    assert(climb(nodes, k, i) == climb(nodes, p, (i - 1) as nat));
                }
            }
        }
        if own.screen_facing {
            assert(above(nodes, k, k) && nodes[k].display.screen_facing);
        } else if from.screen_facing {
            let a = choose|a: NodeId| #[trigger]
                above(nodes, a, p) && nodes[a].display.screen_facing;
            assert(above(nodes, a, k));
        }
    }
}

/// The presentation of a node under all that is above it.
pub open spec fn shown_at(nodes: NodeMap, k: NodeId) -> DisplayBehavior {
    choose|shown: DisplayBehavior| presents(nodes, k, shown)
}

/// What hangs off the roots has a presentation.
pub proof fn lemma_presented(m: SceneModel, k: NodeId)
    requires
        m.tree(),
        hangs(m, k),
    ensures
        presents(m.nodes, k, shown_at(m.nodes, k)),
{
    let i = choose|i: int| 0 <= i < m.roots.len() && #[trigger] above(m.nodes, m.roots[i].id, k);
    lemma_above_present(m.nodes, m.roots[i].id, k);
    assert(climb_ends(m.nodes, k));
    let n = choose|n: nat| climbs(m.nodes, k, n);
    lemma_presented_within(m, k, n);
}

proof fn lemma_presented_within(m: SceneModel, k: NodeId, n: nat)
    requires
        m.tree(),
        m.nodes.contains_key(k),
        climbs(m.nodes, k, n),
    ensures
        exists|shown: DisplayBehavior| presents(m.nodes, k, shown),
    decreases n,
{
    match m.nodes[k].parent {
        Some(p) => {
            lemma_presented_within(m, p, (n - 1) as nat);
            let from = choose|from: DisplayBehavior| presents(m.nodes, p, from);
            lemma_presents_step(m.nodes, k, from);
        },
        None => {
            lemma_presents_step(m.nodes, k, DisplayBehavior::ordinary());
        },
    }
}

/// In a forest every node is below a node without a parent.
pub proof fn lemma_all_rooted(m: SceneModel, k: NodeId, n: nat)
    requires
        m.tree(),
        m.nodes.contains_key(k),
        climbs(m.nodes, k, n),
    ensures
        rooted(m.nodes, k),
    decreases n,
{
    lemma_rooted_step(m.nodes, k);
    if m.nodes[k].parent is Some {
        lemma_all_rooted(m, m.nodes[k].parent->0, (n - 1) as nat);
    }
}

} // verus!
