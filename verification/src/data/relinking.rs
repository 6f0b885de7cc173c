//! What a node's change of place leaves alone.
//!
//! Adding, inserting, moving and detaching a node all change the place of one node. What
//! is still cached after such a change was cached before, and concerns nothing that the
//! change touches.

use super::bounds_coherence::{lemma_agree_above, lemma_below_is_above};
use super::coherence::{agree_but, lemma_above_is_below, lemma_moved_id};
use super::forest::{lemma_detach, lemma_not_above_parent, lemma_same_relations};
use super::model::SceneModel;
use super::node_laws::{lemma_detach_not_above, lemma_reparent_tree};
use super::nodes::{ancestors, lemma_detach_shape, lemma_unhung, line_above, subtree};
use super::tree::{above, below, below_within, climb, lemma_above_step, NodeMap};
use crate::common::Transform;
use crate::resource::handle::NodeId;
use crate::resource::node::{NodeFlags, NodeModel};
use vstd::prelude::*;

verus! {

/// Whether a node is neither `from`, `to` nor above one of them.
pub open spec fn aside(
    nodes: NodeMap,
    k: NodeId,
    from: Option<NodeId>,
    to: Option<NodeId>,
) -> bool {
    &&& from matches Some(p) ==> !above(nodes, k, p)
    &&& to matches Some(q) ==> !above(nodes, k, q)
}

/// Whether two nodes carry the same and are shown and counted alike.
pub open spec fn same_content(a: NodeModel, b: NodeModel) -> bool {
    &&& a.flags == b.flags
    &&& a.payload.handle() == b.payload.handle()
    &&& a.visibility == b.visibility
}

/// Whether what a node has cached was cached before, and concerns nothing that a change
/// of place touches.
pub open spec fn kept(
    a: NodeMap,
    b: NodeMap,
    id: NodeId,
    from: Option<NodeId>,
    to: Option<NodeId>,
    k: NodeId,
) -> bool {
    &&& b[k].world_cache is Some ==> a.contains_key(k) && b[k].world_cache == a[k].world_cache
        && !below(b, k, id)
    &&& b[k].bounds_cache is Some ==> a.contains_key(k) && b[k].bounds_cache == a[k].bounds_cache
        && !below(b, k, id) && aside(b, k, from, to)
    &&& b[k].visibility_cache is Some ==> a.contains_key(k) && b[k].visibility_cache
        == a[k].visibility_cache && aside(b, k, from, to)
}

/// Whether `b` is `a` with one node added, or moved from below `from` to below `to`, and
/// with everything given up that this makes out of date.
pub open spec fn relinked(
    a: NodeMap,
    b: NodeMap,
    id: NodeId,
    from: Option<NodeId>,
    to: Option<NodeId>,
) -> bool {
    &&& agree_but(a, b, id)
    &&& b.contains_key(id)
    &&& b[id].parent == to
    &&& forall|x: NodeId|
        x != id && #[trigger] a.contains_key(x) ==> same_content(a[x], b[x]) && (Some(x) != from
            && Some(x) != to ==> a[x].children == b[x].children)
    &&& a.contains_key(id) ==> a[id].children == b[id].children && same_content(a[id], b[id])
    &&& forall|k: NodeId| #[trigger] b.contains_key(k) ==> kept(a, b, id, from, to, k)
}

/// Where nothing refers to an absent node, adding it changes no climb.
proof fn lemma_joined_climb(a: NodeMap, b: NodeMap, id: NodeId, x: NodeId, n: nat)
    requires
        !a.contains_key(id),
        x != id,
        forall|c: NodeId| #[trigger] a.contains_key(c) ==> a[c].parent != Some(id),
        agree_but(a, b, id),
    ensures
        climb(a, x, n) == climb(b, x, n),
    decreases n,
{
    assert(a.contains_key(x) == b.contains_key(x));
    if n > 0 && a.contains_key(x) && a[x].parent is Some {
        lemma_joined_climb(a, b, id, a[x].parent->0, (n - 1) as nat);
    }
}

/// Whether `b` is `a` with a bare node added below `to`.
spec fn joined(a: NodeMap, b: NodeMap, id: NodeId, to: Option<NodeId>) -> bool {
    &&& b.dom() == a.dom().insert(id)
    &&& b[id].parent == to
    &&& b[id].children.len() == 0
    &&& b[id] == b[id].authored()
    &&& forall|k: NodeId| #[trigger]
        a.contains_key(k) ==> same_content(a[k], b[k]) && b[k].parent == a[k].parent
            && b[k].transform == a[k].transform && b[k].world_cache == a[k].world_cache && (Some(k)
            != to ==> b[k].children == a[k].children) && (if line_above(a, to).contains(k) {
            b[k].bounds_cache is None && b[k].visibility_cache is None
        } else {
            b[k].bounds_cache == a[k].bounds_cache && b[k].visibility_cache
                == a[k].visibility_cache
        })
}

proof fn lemma_joined_relinked(a: NodeMap, b: NodeMap, id: NodeId, to: Option<NodeId>)
    requires
        !a.contains_key(id),
        forall|c: NodeId| #[trigger] a.contains_key(c) ==> a[c].parent != Some(id),
        to matches Some(q) ==> a.contains_key(q),
        joined(a, b, id, to),
    ensures
        relinked(a, b, id, None, to),
{
    assert forall|k: NodeId| k != id implies (#[trigger] a.contains_key(k) == b.contains_key(
        k,
    )) by {
        assert(b.dom().contains(k) == a.dom().insert(id).contains(k));
    }
    assert(b.contains_key(id)) by {
        assert(a.dom().insert(id).contains(id));
    }
    assert forall|k: NodeId| #[trigger] b.contains_key(k) implies kept(a, b, id, None, to, k) by {
        if k != id {
            assert(a.contains_key(k));
            assert(!below(b, k, id)) by {
                if below(b, k, id) {
                    let n = choose|n: nat| below_within(b, k, id, n);
                    assert(b[id].children.len() == 0);
                }
            }
            if let Some(q) = to {
                if above(b, k, q) {
                    let n = choose|n: nat| climb(b, q, n) == Some(k);
                    lemma_joined_climb(a, b, id, q, n);
                    assert(above(a, k, q));
                    assert(ancestors(a, q).contains(k));
                }
            }
        }
    }
}

/// Adding a node is such a change.
pub proof fn lemma_add_relinked(
    m: SceneModel,
    id: NodeId,
    parent: Option<NodeId>,
    name: Option<Seq<char>>,
    transform: Transform,
    flags: NodeFlags,
)
    requires
        m.unreferenced(id),
        parent matches Some(p) ==> m.nodes.contains_key(p),
    ensures
        relinked(
            m.nodes,
            m.add_node(id, parent, name, transform, flags).nodes,
            id,
            None,
            parent,
        ),
        m.add_node(id, parent, name, transform, flags).instances == m.instances,
        m.add_node(id, parent, name, transform, flags).meshes == m.meshes,
{
    let a = m.nodes;
    let b = m.add_node(id, parent, name, transform, flags).nodes;
    let clean = m.unsummed(parent).nodes;
    assert(clean.dom() =~= a.dom());
    assert(b.dom() =~= a.dom().insert(id));
    if let Some(p) = parent {
        lemma_above_step(a, p, p);
        assert(ancestors(a, p).contains(p));
    }
    assert forall|k: NodeId| #[trigger] a.contains_key(k) implies k != id && clean.contains_key(
        k,
    ) by {}
    assert(joined(a, b, id, parent));
    lemma_joined_relinked(a, b, id, parent);
}

/// Inserting a pre-built node without children is such a change.
pub proof fn lemma_insert_relinked(m: SceneModel, node: NodeModel)
    requires
        m.unreferenced(node.id),
        node.children.len() == 0,
        node.parent matches Some(p) ==> m.nodes.contains_key(p),
    ensures
        relinked(m.nodes, m.insert_node(node).nodes, node.id, None, node.parent),
        m.insert_node(node).instances == m.instances,
        m.insert_node(node).meshes == m.meshes,
{
    let a = m.nodes;
    let id = node.id;
    let parent = node.parent;
    let b = m.insert_node(node).nodes;
    let clean = m.unsummed(parent).nodes;
    assert(clean.dom() =~= a.dom());
    assert(b.dom() =~= a.dom().insert(id));
    if let Some(p) = parent {
        lemma_above_step(a, p, p);
        assert(ancestors(a, p).contains(p));
    }
    assert forall|k: NodeId| #[trigger] a.contains_key(k) implies k != id && clean.contains_key(
        k,
    ) by {}
    assert(joined(a, b, id, parent));
    lemma_joined_relinked(a, b, id, parent);
}

/// Nodes that agree on all but one have that one above the same others.
proof fn lemma_agree_up(a: NodeMap, b: NodeMap, id: NodeId, k: NodeId, n: nat)
    requires
        agree_but(a, b, id),
        a.contains_key(id),
        climb(b, k, n) == Some(id),
    ensures
        above(a, id, k),
    decreases n,
{
    if k == id {
        assert(climb(a, id, 0) == Some(id));
    } else {
        assert(a.contains_key(k) == b.contains_key(k));
        lemma_agree_up(a, b, id, b[k].parent->0, (n - 1) as nat);
        lemma_above_step(a, id, k);
    }
}

/// Moving a node is such a change.
pub proof fn lemma_move_relinked(m: SceneModel, id: NodeId, to: Option<NodeId>)
    requires
        m.tree(),
        m.reparent_error(id, to) is None,
    ensures
        relinked(m.nodes, m.reparent_node(id, to).nodes, id, m.nodes[id].parent, to),
        m.reparent_node(id, to).instances == m.instances,
        m.reparent_node(id, to).meshes == m.meshes,
        m.reparent_node(id, to).nodes.dom() == m.nodes.dom(),
{
    let a = m.nodes;
    let from = a[id].parent;
    let cut = m.unhung(id).nodes;
    let d = m.detach(id).nodes;
    let clean = m.detach(id).unsummed(to).nodes;
    let b = m.reparent_node(id, to).nodes;
    lemma_unhung(m, id);
    lemma_detach(a, m.roots, id);
    lemma_detach_shape(m, id);
    lemma_moved_id(m, id);
    lemma_reparent_tree(m, id, to);
    assert(d.dom() =~= a.dom());
    assert(clean.dom() =~= a.dom());
    assert(b.dom() =~= a.dom());
    if from is Some {
        assert(super::tree::climb_ends(a, id));
        lemma_not_above_parent(a, id);
    }
    assert forall|k: NodeId| #[trigger] a.contains_key(k) implies d.contains_key(k)
        && clean.contains_key(k) && cut.contains_key(k) && b.contains_key(k) by {}
    if to is Some {
        lemma_above_step(a, id, id);
        assert(to != Some(id));
    }
    assert forall|k: NodeId| #[trigger] a.contains_key(k) implies b[k].transform == a[k].transform
        && same_content(a[k], b[k]) && (k != id ==> b[k].parent == a[k].parent) && (Some(k) != from
        && Some(k) != to ==> a[k].children == b[k].children) by {
        assert(cut.contains_key(k) && d.contains_key(k) && clean.contains_key(k));
    }
    assert(agree_but(a, b, id) && agree_but(cut, b, id) && agree_but(d, b, id)) by {
        assert forall|k: NodeId| (#[trigger] a.contains_key(k) == b.contains_key(k)) by {}
        assert forall|k: NodeId| (#[trigger] cut.contains_key(k) == b.contains_key(k)) by {}
        assert forall|k: NodeId| (#[trigger] d.contains_key(k) == b.contains_key(k)) by {}
        assert forall|k: NodeId| k != id && #[trigger] cut.contains_key(k) implies cut[k].parent
            == b[k].parent && cut[k].transform == b[k].transform by {
            assert(a.contains_key(k));
        }
        assert forall|k: NodeId| k != id && #[trigger] d.contains_key(k) implies d[k].parent
            == b[k].parent && d[k].transform == b[k].transform by {
            assert(a.contains_key(k));
            assert(clean.contains_key(k));
        }
    }
    assert forall|k: NodeId| #[trigger] b.contains_key(k) implies kept(
        a,
        b,
        id,
        from,
        to,
        k,
    ) by {
        assert(a.contains_key(k));
        assert(cut.contains_key(k) && d.contains_key(k) && clean.contains_key(k));
        if below(b, k, id) {
            let n = choose|n: nat| below_within(b, k, id, n);
            lemma_below_is_above(b, k, id, n);
            let j = choose|j: nat| climb(b, k, j) == Some(id);
            lemma_agree_up(cut, b, id, k, j);
            lemma_above_is_below(cut, k, id);
            assert(subtree(cut, id).contains(k));
        }
        if let Some(p) = from {
            if above(b, k, p) {
                lemma_detach_not_above(m, id, p);
                lemma_same_relations(cut, d, id, p);
                lemma_agree_above(cut, b, id, p, k);
                assert(ancestors(cut, p).contains(k));
            }
        }
        if let Some(q) = to {
            if above(b, k, q) {
                lemma_detach_not_above(m, id, q);
                lemma_agree_above(d, b, id, q, k);
                assert(ancestors(d, q).contains(k));
            }
        }
    }
}

/// Detaching a node is such a change.
pub proof fn lemma_detach_relinked(m: SceneModel, id: NodeId)
    requires
        m.tree(),
        m.nodes.contains_key(id),
    ensures
        relinked(m.nodes, m.detach(id).nodes, id, m.nodes[id].parent, None),
        m.detach(id).instances == m.instances,
        m.detach(id).meshes == m.meshes,
{
    lemma_move_relinked(m, id, None);
    let d = m.detach(id);
    assert(d.unsummed(None).nodes =~= d.nodes);
}

} // verus!
