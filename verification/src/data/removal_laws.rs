//! What removing nodes takes from the tree, and what it leaves.

use super::effects::{unchanged, unmoved};
use super::forest::{lemma_no_self_climb, lemma_without_first};
use super::laws::lemma_reap_one_effect;
use super::model::{lemma_reap_one_bound, lists_id, SceneModel};
use super::node_laws::{lemma_let_go_sound, let_go};
use super::nodes::{lemma_climb_next, lemma_climb_stops};
use super::reap_coherence::lemma_reap_one_nodes;
use super::soundness::{lemma_unnamed, reap_one_keeps_sound};
use super::tree::{
    above, climb, climb_ends, climbs, lemma_above_present, lemma_above_step, NodeMap,
};
use super::walk::{hangs, lemma_climb_adds, lemma_top};
use crate::resource::handle::{NodeId, ResourceKind};
use vstd::prelude::*;

verus! {

/// The way up from a node is the same where no node on it has another parent.
proof fn lemma_same_way(a: NodeMap, b: NodeMap, k: NodeId, n: nat)
    requires
        forall|i: nat|
            i <= n ==> (#[trigger] climb(a, k, i)) is Some && b.contains_key(climb(a, k, i)->0)
                && b[climb(a, k, i)->0].parent == a[climb(a, k, i)->0].parent,
    ensures
        climb(b, k, n) == climb(a, k, n),
    decreases n,
{
    if n == 0 {
        assert(climb(a, k, 0) == Some(k));
    } else {
        let less = (n - 1) as nat;
        lemma_same_way(a, b, k, less);
        lemma_climb_next(a, k, less);
        lemma_climb_next(b, k, less);
        assert(climb(a, k, n) is Some && b.contains_key(climb(a, k, n)->0));
    }
}

/// Every node on the way from a root down to a node hangs off that root.
proof fn lemma_way_hangs(m: SceneModel, k: NodeId, i: int, n: nat, x: nat)
    requires
        0 <= i < m.roots.len(),
        climb(m.nodes, k, n) == Some(m.roots[i].id),
        x <= n,
    ensures
        climb(m.nodes, k, x) is Some,
        hangs(m, climb(m.nodes, k, x)->0),
{
    if climb(m.nodes, k, x) is None {
        lemma_climb_stops(m.nodes, k, x, n);
    }
    lemma_climb_adds(m.nodes, k, x, (n - x) as nat);
    assert(climb(m.nodes, climb(m.nodes, k, x)->0, (n - x) as nat) == Some(m.roots[i].id));
    assert(above(m.nodes, m.roots[i].id, climb(m.nodes, k, x)->0));
}

/// What hangs off the roots is not what a step of reaping takes, nor is its parent.
proof fn lemma_hanging_stays(m: SceneModel, k: NodeId)
    requires
        m.sound(),
        m.ledger.dropped.len() > 0,
        hangs(m, k),
    ensures
        m.reap_one().nodes.contains_key(k),
        unchanged(m.nodes[k], m.reap_one().nodes[k]),
        unmoved(m.nodes[k], m.reap_one().nodes[k]),
{
    let entry = m.ledger.dropped[0];
    let i = choose|i: int| 0 <= i < m.roots.len() && #[trigger] above(m.nodes, m.roots[i].id, k);
    lemma_above_present(m.nodes, m.roots[i].id, k);
    lemma_reap_one_nodes(m);
    if m.present(entry.0, entry.1) && !m.ledger.slot_live(entry.1) && entry.0
        == ResourceKind::Node {
        lemma_unnamed(m, entry.0, entry.1);
        lemma_above_step(m.nodes, m.roots[i].id, k);
        lemma_not_taken(m, k, entry.1);
        if let Some(p) = m.nodes[k].parent {
            assert(m.nodes.contains_key(p) && lists_id(m.nodes[p].children, k));
            if k != m.roots[i].id {
                assert(above(m.nodes, m.roots[i].id, p));
            } else {
                assert(lists_id(m.roots, k));
            }
            assert(hangs(m, p));
            lemma_not_taken(m, p, entry.1);
        }
        if lists_id(m.nodes[entry.1].children, k) {
            assert(m.nodes[k].parent == Some(entry.1));
        }
    }
}

proof fn lemma_not_taken(m: SceneModel, k: NodeId, taken: NodeId)
    requires
        m.sound(),
        hangs(m, k),
        !lists_id(m.roots, taken),
        forall|p: NodeId| #[trigger]
            m.nodes.contains_key(p) ==> !lists_id(m.nodes[p].children, taken),
    ensures
        k != taken,
{
    let i = choose|i: int| 0 <= i < m.roots.len() && #[trigger] above(m.nodes, m.roots[i].id, k);
    lemma_above_present(m.nodes, m.roots[i].id, k);
    lemma_above_step(m.nodes, m.roots[i].id, k);
    if k == m.roots[i].id {
        assert(lists_id(m.roots, k));
    } else {
        let p = m.nodes[k].parent->0;
        assert(m.nodes.contains_key(p) && lists_id(m.nodes[p].children, k));
    }
}

/// Reaping takes nothing that hangs off the roots: every such node stays, as it is and where
/// it is.
pub proof fn reaping_keeps_what_hangs(m: SceneModel, k: NodeId)
    requires
        m.sound(),
        m.node_generation + m.nodes.dom().len() <= u64::MAX,
        hangs(m, k),
    ensures
        m.reaped().roots == m.roots,
        m.reaped().nodes.contains_key(k),
        unchanged(m.nodes[k], m.reaped().nodes[k]),
        unmoved(m.nodes[k], m.reaped().nodes[k]),
        hangs(m.reaped(), k),
    decreases m.ledger.drain_bound(),
{
    if m.ledger.dropped.len() > 0 {
        let next = m.reap_one();
        lemma_reap_one_bound(m);
        lemma_reap_one_effect(m);
        reap_one_keeps_sound(m);
        lemma_hanging_stays(m, k);
        let i = choose|i: int|
            0 <= i < m.roots.len() && #[trigger] above(m.nodes, m.roots[i].id, k);
        let n = choose|n: nat| climb(m.nodes, k, n) == Some(m.roots[i].id);
        assert forall|x: nat| x <= n implies (#[trigger] climb(m.nodes, k, x)) is Some
            && next.nodes.contains_key(climb(m.nodes, k, x)->0) && next.nodes[climb(
            m.nodes,
            k,
            x,
        )->0].parent == m.nodes[climb(m.nodes, k, x)->0].parent by {
            lemma_way_hangs(m, k, i, n, x);
            lemma_hanging_stays(m, climb(m.nodes, k, x)->0);
        }
        lemma_same_way(m.nodes, next.nodes, k, n);
        assert(next.roots == m.roots);
        assert(above(next.nodes, next.roots[i].id, k));
        assert(hangs(next, k));
        reaping_keeps_what_hangs(next, k);
    }
}

/// A step of reaping hangs nothing anew.
proof fn lemma_reap_one_hangs(m: SceneModel, k: NodeId, n: nat)
    requires
        m.sound(),
        m.ledger.dropped.len() > 0,
    ensures
        climb(m.reap_one().nodes, k, n) is Some ==> climb(m.reap_one().nodes, k, n) == climb(
            m.nodes,
            k,
            n,
        ),
    decreases n,
{
    let next = m.reap_one();
    lemma_reap_one_nodes(m);
    if next.nodes.contains_key(k) {
        assert(m.nodes.contains_key(k));
        if n > 0 && next.nodes[k].parent is Some {
            assert(next.nodes[k].parent == m.nodes[k].parent);
            lemma_reap_one_hangs(m, next.nodes[k].parent->0, (n - 1) as nat);
        }
    }
}

proof fn lemma_reap_hangs(m: SceneModel, k: NodeId)
    requires
        m.sound(),
        m.node_generation + m.nodes.dom().len() <= u64::MAX,
        !hangs(m, k),
    ensures
        !hangs(m.reaped(), k),
    decreases m.ledger.drain_bound(),
{
    if m.ledger.dropped.len() > 0 {
        let next = m.reap_one();
        lemma_reap_one_bound(m);
        lemma_reap_one_effect(m);
        reap_one_keeps_sound(m);
        assert(next.roots == m.roots);
        if hangs(next, k) {
            let i = choose|i: int|
                0 <= i < next.roots.len() && #[trigger] above(next.nodes, next.roots[i].id, k);
            let n = choose|n: nat| climb(next.nodes, k, n) == Some(next.roots[i].id);
            lemma_reap_one_hangs(m, k, n);
            assert(above(m.nodes, m.roots[i].id, k));
        }
        lemma_reap_hangs(next, k);
    }
}

/// Removing a node takes it from the tree with all that hangs below it, and nothing else:
/// every other node that hung off the roots still does, as it was and below the parent that
/// it had.
pub proof fn removed_nodes_leave_the_tree(m: SceneModel, id: NodeId, k: NodeId)
    requires
        m.sound(),
        m.node_generation + 1 + m.nodes.dom().len() <= u64::MAX,
        m.nodes.contains_key(id),
        hangs(m, k),
    ensures
        above(m.nodes, id, k) ==> !hangs(m.remove_node(id), k),
        !above(m.nodes, id, k) ==> {
            let after = m.remove_node(id);
            &&& hangs(after, k)
            &&& after.nodes.contains_key(k)
            &&& unchanged(m.nodes[k], after.nodes[k])
            &&& after.nodes[k].parent == m.nodes[k].parent
            &&& forall|c: NodeId| #[trigger]
                lists_id(after.nodes[k].children, c) <==> lists_id(m.nodes[k].children, c) && c
                    != id
        },
{
    let mid = let_go(m, id);
    let cut = m.unhung(id);
    lemma_let_go_sound(m, id);
    lemma_without_first(m.roots, id);
    if let Some(p) = m.nodes[id].parent {
        lemma_without_first(m.nodes[p].children, id);
    }
    assert forall|x: NodeId| #[trigger] m.nodes.contains_key(x) implies mid.nodes.contains_key(x)
        && unchanged(m.nodes[x], mid.nodes[x]) && mid.nodes[x].parent == (if x == id {
        None
    } else {
        m.nodes[x].parent
    }) && mid.nodes[x].children == cut.nodes[x].children by {
        assert(cut.nodes.contains_key(x));
    }
    let i = choose|i: int| 0 <= i < m.roots.len() && #[trigger] above(m.nodes, m.roots[i].id, k);
    let r = m.roots[i].id;
    let n = choose|n: nat| climb(m.nodes, k, n) == Some(r);
    lemma_above_present(m.nodes, r, k);
    if above(m.nodes, id, k) {
        let d = choose|d: nat| climb(m.nodes, k, d) == Some(id);
        lemma_way_below(m, mid, id, k, d);
        if hangs(mid, k) {
            let j = choose|j: int|
                0 <= j < mid.roots.len() && #[trigger] above(mid.nodes, mid.roots[j].id, k);
            let t = choose|t: nat| climb(mid.nodes, k, t) == Some(mid.roots[j].id);
            lemma_above_present(mid.nodes, mid.roots[j].id, k);
            assert(lists_id(mid.roots, mid.roots[j].id));
            lemma_top(mid.nodes, k, d, t);
            lemma_top(mid.nodes, k, t, d);
            assert(lists_id(mid.roots, id));
        }
        lemma_reap_hangs(mid, k);
    } else {
        assert forall|x: nat| x <= n implies (#[trigger] climb(m.nodes, k, x)) is Some
            && mid.nodes.contains_key(climb(m.nodes, k, x)->0) && mid.nodes[climb(
            m.nodes,
            k,
            x,
        )->0].parent == m.nodes[climb(m.nodes, k, x)->0].parent by {
            lemma_way_hangs(m, k, i, n, x);
            let a = climb(m.nodes, k, x)->0;
            assert(above(m.nodes, a, k));
            lemma_above_present(m.nodes, a, k);
        }
        lemma_same_way(m.nodes, mid.nodes, k, n);
        assert(r != id);
        assert(lists_id(m.roots, r));
        assert(lists_id(mid.roots, r));
        let j = choose|j: int| 0 <= j < mid.roots.len() && (#[trigger] mid.roots[j]).id == r;
        assert(above(mid.nodes, mid.roots[j].id, k));
        assert(hangs(mid, k));
        reaping_keeps_what_hangs(mid, k);
        assert forall|c: NodeId| #[trigger] lists_id(mid.nodes[k].children, c) <==> lists_id(
            m.nodes[k].children,
            c,
        ) && c != id by {
            if c == id && lists_id(m.nodes[k].children, id) {
                assert(m.nodes[id].parent == Some(k));
            }
        }
    }
}

/// The way from a node up to the one that is let go is what it was.
proof fn lemma_way_below(m: SceneModel, mid: SceneModel, id: NodeId, k: NodeId, d: nat)
    requires
        m.sound(),
        m.nodes.contains_key(id),
        climb(m.nodes, k, d) == Some(id),
        forall|x: NodeId| #[trigger]
            m.nodes.contains_key(x) ==> mid.nodes.contains_key(x) && (x != id
                ==> mid.nodes[x].parent == m.nodes[x].parent),
    ensures
        climb(mid.nodes, k, d) == Some(id),
    decreases d,
{
    if d > 0 {
        assert(m.nodes.contains_key(k));
        if k == id {
            assert(climb_ends(m.nodes, id));
            let h = choose|h: nat| climbs(m.nodes, id, h);
            lemma_no_self_climb(m.nodes, id, h, d);
        }
        lemma_way_below(m, mid, id, m.nodes[k].parent->0, (d - 1) as nat);
    }
}

} // verus!
