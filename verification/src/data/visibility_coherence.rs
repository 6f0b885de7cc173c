//! Cached visibility is never out of date.
//!
//! What is shown of the subtree of a node is cached. A cached value is right when it is
//! what looking through the subtree anew gives. Asking keeps the caches right, and so do
//! showing and hiding a node, and every change to the place of one.

use super::bounds::{geometry_filled, node_filled, Geometry};
use super::bounds_coherence::{lemma_above_line, lemma_below_child, lemma_below_is_above};
use super::coherence::lemma_above_is_below;
use super::forest::{
    lemma_cut_descends, lemma_not_above_parent, lemma_same_descends, lemma_same_relations,
    same_shape,
};
use super::laws::{add_instance_keeps_sound, lemma_add_instance_clock};
use super::model::{lists_id, SceneModel};
use super::node_laws::{
    add_node_keeps_sound, insert_node_keeps_sound, lemma_absent_is_free, lemma_detach_tree,
    lemma_reparent_tree,
};
use super::nodes::{ancestors, lemma_below_present, subtree};
use super::relinking::{
    kept, lemma_add_relinked, lemma_detach_relinked, lemma_insert_relinked, lemma_move_relinked,
    relinked,
};
use super::tree::{
    above, below, below_within, child_links, climb_ends, descends, descent_ends,
    lemma_above_present, lemma_above_step, parent_links, NodeMap,
};
use super::visibility::{
    depth_below, effective_visibility, hidden_from_above, lemma_visibility_depth, shown_below,
    visibility_filled, visibility_within,
};
use crate::common::Transform;
use crate::resource::handle::{NodeId, ResourceKind};
use crate::resource::instance::InstanceParts;
use crate::resource::node::{
    EffectiveVisibility, NodeFlags, NodeModel, NodePayload, Visibility,
};
use vstd::prelude::*;

verus! {

/// The nodes, with no visibility cached.
pub open spec fn unseen(nodes: NodeMap) -> NodeMap {
    nodes.map_values(|n: NodeModel| NodeModel { visibility_cache: None, ..n })
}

/// Whether every cached visibility is what looking through the subtree anew gives.
pub open spec fn seen_right(nodes: NodeMap) -> bool {
    forall|k: NodeId| #[trigger]
        nodes.contains_key(k) && nodes[k].visibility_cache is Some ==> nodes[k].visibility_cache
            == Some(shown_below(unseen(nodes), k))
}

pub proof fn lemma_unseen_shape(nodes: NodeMap)
    ensures
        same_shape(nodes, unseen(nodes)),
{
    assert(unseen(nodes).dom() =~= nodes.dom());
}

proof fn lemma_seen_within(nodes: NodeMap, id: NodeId, n: nat)
    requires
        seen_right(nodes),
        descends(nodes, id, n),
    ensures
        visibility_within(nodes, id, n) == visibility_within(unseen(nodes), id, n),
    decreases n,
{
    let bare = unseen(nodes);
    lemma_unseen_shape(nodes);
    assert(bare.contains_key(id) == nodes.contains_key(id));
    if nodes.contains_key(id) {
        lemma_same_descends(nodes, bare, id, n);
        if nodes[id].visibility_cache is Some {
            lemma_visibility_depth(bare, id, n);
        } else {
            let children = nodes[id].children;
            assert forall|i: int| 0 <= i < children.len() implies n > 0 && visibility_within(
                nodes,
                (#[trigger] children[i]).id,
                (n - 1) as nat,
            ) == visibility_within(bare, children[i].id, (n - 1) as nat) by {
                assert(descends(nodes, nodes[id].children[i].id, (n - 1) as nat));
                lemma_seen_within(nodes, children[i].id, (n - 1) as nat);
            }
            assert(bare[id].children == children);
            if n > 0 {
                assert forall|i: int| 0 <= i < bare[id].children.len() implies visibility_within(
                    bare,
                    (#[trigger] bare[id].children[i]).id,
                    (n - 1) as nat,
                ) == visibility_within(nodes, nodes[id].children[i].id, (n - 1) as nat) by {
                    assert(children[i] == bare[id].children[i]);
                }
            }
        }
    }
}

/// Where caches are right, the visibility of a node is the same as if nothing were
/// cached.
pub proof fn seen_answers_are_true(nodes: NodeMap, id: NodeId)
    requires
        seen_right(nodes),
        descent_ends(nodes, id),
    ensures
        shown_below(nodes, id) == shown_below(unseen(nodes), id),
        effective_visibility(nodes, id) == effective_visibility(unseen(nodes), id),
{
    let n = depth_below(nodes, id);
    lemma_unseen_shape(nodes);
    lemma_same_descends(nodes, unseen(nodes), id, n);
    lemma_seen_within(nodes, id, n);
    lemma_visibility_depth(unseen(nodes), id, n);
    let bare = unseen(nodes);
    assert forall|a: NodeId| #[trigger] above(nodes, a, id) == above(bare, a, id) by {
        lemma_same_relations(nodes, bare, a, id);
    }
    if hidden_from_above(nodes, id) {
        let a = choose|a: NodeId| #[trigger]
            above(nodes, a, id) && nodes.contains_key(a) && nodes[a].visibility
                == Visibility::Invisible;
        assert(above(bare, a, id) && bare.contains_key(a));
    }
    if hidden_from_above(bare, id) {
        let a = choose|a: NodeId| #[trigger]
            above(bare, a, id) && bare.contains_key(a) && bare[a].visibility
                == Visibility::Invisible;
        assert(above(nodes, a, id) && nodes.contains_key(a));
    }
}

/// Asking for the visibility of nodes keeps caches right.
pub proof fn visibility_queries_keep_right(a: NodeMap, b: NodeMap)
    requires
        seen_right(a),
        visibility_filled(a, b),
    ensures
        seen_right(b),
{
    assert(unseen(b) =~= unseen(a)) by {
        assert(unseen(b).dom() =~= unseen(a).dom());
        assert forall|k: NodeId| #[trigger] unseen(b).contains_key(k) implies unseen(b)[k]
            == unseen(a)[k] by {
            assert(a.contains_key(k));
        }
    }
    assert forall|k: NodeId| #[trigger]
        b.contains_key(k) && b[k].visibility_cache is Some implies b[k].visibility_cache == Some(
        shown_below(unseen(b), k),
    ) by {
        assert(a.contains_key(k));
        if a[k].visibility_cache is None {
            seen_answers_are_true(a, k);
        }
    }
}

/// Whether a node is there before and after, listing the same children and shown alike.
pub open spec fn same_sight(a: NodeMap, b: NodeMap, x: NodeId) -> bool {
    &&& a.contains_key(x)
    &&& b.contains_key(x)
    &&& a[x].children == b[x].children
    &&& a[x].visibility == b[x].visibility
}

/// What is seen of a node depends on its subtree alone.
pub proof fn lemma_same_subtree_seen(a: NodeMap, b: NodeMap, k: NodeId, n: nat)
    requires
        forall|x: NodeId| !#[trigger] b.contains_key(x) ==> !a.contains_key(x),
        forall|x: NodeId| #[trigger] below(b, x, k) ==> same_sight(a, b, x),
        descends(b, k, n),
    ensures
        visibility_within(unseen(a), k, n) == visibility_within(unseen(b), k, n),
        descends(a, k, n),
    decreases n,
{
    let ua = unseen(a);
    let ub = unseen(b);
    assert(ua.contains_key(k) == a.contains_key(k));
    assert(ub.contains_key(k) == b.contains_key(k));
    if b.contains_key(k) {
        assert(below_within(b, k, k, 0));
        assert(below(b, k, k));
        assert(same_sight(a, b, k));
        let children = b[k].children;
        assert(ua[k].children == children && ub[k].children == children);
        assert forall|i: int| 0 <= i < children.len() implies n > 0 && visibility_within(
            ua,
            (#[trigger] children[i]).id,
            (n - 1) as nat,
        ) == visibility_within(ub, children[i].id, (n - 1) as nat) && descends(
            a,
            children[i].id,
            (n - 1) as nat,
        ) by {
            let c = children[i].id;
            assert(descends(b, b[k].children[i].id, (n - 1) as nat));
            assert forall|x: NodeId| #[trigger] below(b, x, c) implies same_sight(a, b, x) by {
                lemma_below_child(b, k, i, x);
            }
            lemma_same_subtree_seen(a, b, c, (n - 1) as nat);
        }
        assert(a[k].children == children);
        if n > 0 {
            assert forall|i: int| 0 <= i < ua[k].children.len() implies visibility_within(
                ua,
                (#[trigger] ua[k].children[i]).id,
                (n - 1) as nat,
            ) == visibility_within(ub, ub[k].children[i].id, (n - 1) as nat) by {
                assert(children[i] == ua[k].children[i]);
            }
            assert forall|i: int| 0 <= i < ub[k].children.len() implies visibility_within(
                ua,
                ua[k].children[i].id,
                (n - 1) as nat,
            ) == visibility_within(ub, (#[trigger] ub[k].children[i]).id, (n - 1) as nat) by {
                assert(children[i] == ub[k].children[i]);
            }
        }
    } else {
        assert(!a.contains_key(k));
    }
}

/// A cached visibility is still right where the subtree was left alone.
pub proof fn lemma_still_seen(a: NodeMap, b: NodeMap, k: NodeId)
    requires
        seen_right(a),
        forall|x: NodeId| !#[trigger] b.contains_key(x) ==> !a.contains_key(x),
        forall|x: NodeId| #[trigger] below(b, x, k) ==> same_sight(a, b, x),
        descent_ends(b, k),
        a.contains_key(k),
        b[k].visibility_cache is Some,
        b[k].visibility_cache == a[k].visibility_cache,
    ensures
        b[k].visibility_cache == Some(shown_below(unseen(b), k)),
{
    let n = depth_below(b, k);
    lemma_same_subtree_seen(a, b, k, n);
    lemma_unseen_shape(a);
    lemma_unseen_shape(b);
    lemma_same_descends(a, unseen(a), k, n);
    lemma_same_descends(b, unseen(b), k, n);
    lemma_visibility_depth(unseen(a), k, n);
    lemma_visibility_depth(unseen(b), k, n);
}

/// A change of place keeps visibility caches right.
pub proof fn lemma_relinked_seen(
    a: NodeMap,
    b: NodeMap,
    id: NodeId,
    from: Option<NodeId>,
    to: Option<NodeId>,
)
    requires
        seen_right(a),
        relinked(a, b, id, from, to),
        child_links(b),
        forall|k: NodeId| #[trigger] descent_ends(b, k),
        from is Some ==> a.contains_key(id),
        Some(id) != from,
        Some(id) != to,
    ensures
        seen_right(b),
{
    assert forall|x: NodeId| !#[trigger] b.contains_key(x) implies !a.contains_key(x) by {
        if x != id {
            assert(a.contains_key(x) == b.contains_key(x));
        }
    }
    assert forall|k: NodeId| #[trigger]
        b.contains_key(k) && b[k].visibility_cache is Some implies b[k].visibility_cache == Some(
        shown_below(unseen(b), k),
    ) by {
        assert(kept(a, b, id, from, to, k));
        assert forall|x: NodeId| #[trigger] below(b, x, k) implies same_sight(a, b, x) by {
            let n = choose|n: nat| below_within(b, x, k, n);
            lemma_below_present(b, x, k, n);
            lemma_below_is_above(b, x, k, n);
            assert(Some(x) != from && Some(x) != to);
            if x == id {
                lemma_above_step(b, k, id);
                assert(k == id);
            } else {
                assert(a.contains_key(x) == b.contains_key(x));
            }
        }
        assert(descent_ends(b, k));
        lemma_still_seen(a, b, k);
    }
}

/// Moving a node keeps the visibility caches of a sound scene right: what is cached above
/// the place that it leaves and above the one that it gets is given up.
pub proof fn reparent_keeps_seen(m: SceneModel, id: NodeId, new_parent: Option<NodeId>)
    requires
        m.sound(),
        m.reparent_error(id, new_parent) is None,
        seen_right(m.nodes),
    ensures
        seen_right(m.reparent_node(id, new_parent).nodes),
{
    lemma_reparent_tree(m, id, new_parent);
    lemma_move_relinked(m, id, new_parent);
    lemma_apart_from_parents(m, id, new_parent);
    lemma_relinked_seen(
        m.nodes,
        m.reparent_node(id, new_parent).nodes,
        id,
        m.nodes[id].parent,
        new_parent,
    );
}

/// A node that can be moved is neither its old parent nor its new one.
proof fn lemma_apart_from_parents(m: SceneModel, id: NodeId, new_parent: Option<NodeId>)
    requires
        m.tree(),
        m.reparent_error(id, new_parent) is None,
    ensures
        m.nodes[id].parent != Some(id),
        new_parent != Some(id),
{
    assert(climb_ends(m.nodes, id));
    if m.nodes[id].parent is Some {
        lemma_not_above_parent(m.nodes, id);
    }
    lemma_above_step(m.nodes, id, id);
}

/// Detaching a node keeps the visibility caches of a sound scene right.
pub proof fn detach_keeps_seen(m: SceneModel, id: NodeId)
    requires
        m.sound(),
        m.nodes.contains_key(id),
        seen_right(m.nodes),
    ensures
        seen_right(m.detach(id).nodes),
{
    lemma_detach_tree(m, id);
    lemma_detach_relinked(m, id);
    lemma_apart_from_parents(m, id, None);
    lemma_relinked_seen(m.nodes, m.detach(id).nodes, id, m.nodes[id].parent, None);
}

/// Adding a node keeps the visibility caches of a sound scene right.
pub proof fn add_node_keeps_seen(
    m: SceneModel,
    id: NodeId,
    parent: Option<NodeId>,
    name: Option<Seq<char>>,
    transform: Transform,
    flags: NodeFlags,
)
    requires
        m.sound(),
        m.ledger.clock + 2 <= u64::MAX,
        m.node_generation < u64::MAX,
        forall|kind: ResourceKind| !#[trigger] m.present(kind, id),
        parent matches Some(p) ==> m.nodes.contains_key(p),
        seen_right(m.nodes),
    ensures
        seen_right(m.add_node(id, parent, name, transform, flags).nodes),
{
    add_node_keeps_sound(m, id, parent, name, transform, flags);
    assert(!m.present(ResourceKind::Node, id));
    lemma_absent_is_free(m, id);
    lemma_add_relinked(m, id, parent, name, transform, flags);
    lemma_relinked_seen(
        m.nodes,
        m.add_node(id, parent, name, transform, flags).nodes,
        id,
        None,
        parent,
    );
}

/// Adding an instance together with a node that carries it keeps the visibility caches of
/// a sound scene right.
pub proof fn add_instance_node_keeps_seen(
    m: SceneModel,
    id: NodeId,
    parent: Option<NodeId>,
    instance: InstanceParts,
    name: Option<Seq<char>>,
    transform: Transform,
    flags: NodeFlags,
)
    requires
        m.sound(),
        m.ledger.clock + 3 <= u64::MAX,
        m.node_generation < u64::MAX,
        forall|kind: ResourceKind| !#[trigger] m.present(kind, id),
        parent matches Some(p) ==> m.nodes.contains_key(p),
        id != instance.id,
        m.id_open(ResourceKind::Instance, instance.id),
        m.holds_outside(instance.handles()),
        seen_right(m.nodes),
    ensures
        seen_right(m.add_instance_node(id, parent, instance, name, transform, flags).nodes),
{
    let a = m.add_instance(instance);
    let b = a.add_node(id, parent, name, transform, flags);
    let after = m.add_instance_node(id, parent, instance, name, transform, flags);
    add_instance_keeps_sound(m, instance);
    lemma_add_instance_clock(m, instance);
    assert forall|kind: ResourceKind| !#[trigger] a.present(kind, id) by {
        assert(!m.present(kind, id));
    }
    add_node_keeps_sound(a, id, parent, name, transform, flags);
    add_node_keeps_seen(a, id, parent, name, transform, flags);
    assert(after.nodes.dom() =~= b.nodes.dom());
    other_changes_keep_seen(b.nodes, after.nodes);
}

/// Whether visibility caches are right depends on nothing but the lists of children, what
/// is shown, and what is cached of it.
pub proof fn other_changes_keep_seen(a: NodeMap, b: NodeMap)
    requires
        seen_right(a),
        a.dom() == b.dom(),
        forall|k: NodeId| #[trigger]
            a.contains_key(k) ==> a[k].children == b[k].children && a[k].visibility
                == b[k].visibility && a[k].visibility_cache == b[k].visibility_cache,
        forall|k: NodeId| #[trigger] descent_ends(a, k),
    ensures
        seen_right(b),
{
    assert forall|x: NodeId| #[trigger] b.contains_key(x) == a.contains_key(x) by {}
    assert forall|k: NodeId| #[trigger]
        b.contains_key(k) && b[k].visibility_cache is Some implies b[k].visibility_cache == Some(
        shown_below(unseen(b), k),
    ) by {
        assert(a.contains_key(k));
        assert(descent_ends(a, k));
        let n = choose|n: nat| descends(a, k, n);
        assert forall|x: NodeId, c: NodeId|
            b.contains_key(x) && #[trigger] lists_id(b[x].children, c) implies lists_id(
            a[x].children,
            c,
        ) by {
            assert(a.contains_key(x));
        }
        lemma_cut_descends(a, b, k, n);
        assert(descent_ends(b, k));
        assert forall|x: NodeId| #[trigger] below(b, x, k) implies same_sight(a, b, x) by {
            let j = choose|j: nat| below_within(b, x, k, j);
            lemma_below_present(b, x, k, j);
        }
        lemma_still_seen(a, b, k);
    }
}

/// Inserting a pre-built node keeps the visibility caches of a sound scene right.
pub proof fn insert_node_keeps_seen(m: SceneModel, node: NodeModel)
    requires
        m.sound(),
        m.ledger.clock + 2 <= u64::MAX,
        m.node_generation < u64::MAX,
        m.insertable(node),
        seen_right(m.nodes),
    ensures
        seen_right(m.insert_node(node).nodes),
{
    insert_node_keeps_sound(m, node);
    assert(!m.present(ResourceKind::Node, node.id));
    lemma_absent_is_free(m, node.id);
    lemma_insert_relinked(m, node);
    lemma_relinked_seen(m.nodes, m.insert_node(node).nodes, node.id, None, node.parent);
}

/// Showing or hiding a node keeps the visibility caches of a sound scene right.
pub proof fn set_visibility_keeps_right(m: SceneModel, id: NodeId, visibility: Visibility)
    requires
        m.sound(),
        seen_right(m.nodes),
    ensures
        seen_right(m.set_node_visibility(id, visibility).nodes),
{
    let b = m.set_node_visibility(id, visibility).nodes;
    if m.nodes.contains_key(id) {
        assert(b.dom() =~= m.nodes.dom());
        assert(same_shape(m.nodes, b));
        assert forall|k: NodeId| #[trigger]
            b.contains_key(k) && b[k].visibility_cache is Some implies b[k].visibility_cache
            == Some(shown_below(unseen(b), k)) by {
            assert(m.nodes.contains_key(k));
            lemma_seen_aside(m, id, visibility, k);
            assert forall|x: NodeId| #[trigger] below(m.nodes, x, k) implies m.nodes[x].visibility
                == b[x].visibility by {
                lemma_subtree_aside(m.nodes, id, k, x);
            }
            lemma_shown_alike(m.nodes, b, k);
        }
    }
}

/// A cached visibility is still right where nothing in the subtree was shown or hidden.
proof fn lemma_shown_alike(a: NodeMap, b: NodeMap, k: NodeId)
    requires
        seen_right(a),
        same_shape(a, b),
        descent_ends(a, k),
        forall|x: NodeId| #[trigger] below(a, x, k) ==> a[x].visibility == b[x].visibility,
        a.contains_key(k),
        b[k].visibility_cache is Some,
        b[k].visibility_cache == a[k].visibility_cache,
    ensures
        b[k].visibility_cache == Some(shown_below(unseen(b), k)),
{
    assert forall|x: NodeId| #[trigger] b.contains_key(x) == a.contains_key(x) by {}
    assert forall|x: NodeId| #[trigger] below(b, x, k) implies same_sight(a, b, x) by {
        let n = choose|n: nat| below_within(b, x, k, n);
        lemma_below_present(b, x, k, n);
        lemma_same_relations(a, b, x, k);
        assert(a.contains_key(x));
    }
    let n = depth_below(a, k);
    lemma_same_descends(a, b, k, n);
    lemma_still_seen(a, b, k);
}

/// A node that keeps its cached visibility is not above one that was shown or hidden.
proof fn lemma_seen_aside(m: SceneModel, id: NodeId, visibility: Visibility, k: NodeId)
    requires
        m.nodes.contains_key(id),
        m.nodes.contains_key(k),
        m.set_node_visibility(id, visibility).nodes[k].visibility_cache is Some,
    ensures
        m.set_node_visibility(id, visibility).nodes[k].visibility_cache
            == m.nodes[k].visibility_cache,
        !above(m.nodes, k, id),
        visibility == Visibility::Invisible ==> !below(m.nodes, k, id),
        forall|x: NodeId| #[trigger]
            m.nodes.contains_key(x) && x != id && (visibility == Visibility::Invisible ==> !below(
                m.nodes,
                x,
                id,
            )) ==> m.set_node_visibility(id, visibility).nodes[x].visibility
                == m.nodes[x].visibility,
{
    let a = m.nodes;
    if visibility == Visibility::Visible {
        assert(!ancestors(a, id).contains(k));
    } else {
        assert(!subtree(a, id).contains(k));
        lemma_above_step(a, k, id);
        if k == id {
            assert(below_within(a, id, id, 0));
        }
        if let Some(p) = a[id].parent {
            assert(!ancestors(a, p).contains(k));
        }
    }
}

/// What is in the subtree of a node aside of another is neither that other nor in its
/// subtree.
proof fn lemma_subtree_aside(nodes: NodeMap, id: NodeId, k: NodeId, x: NodeId)
    requires
        parent_links(nodes),
        child_links(nodes),
        !above(nodes, k, id),
        below(nodes, x, k),
    ensures
        nodes.contains_key(x),
        x != id,
        !below(nodes, k, id) ==> !below(nodes, x, id),
{
    let n = choose|n: nat| below_within(nodes, x, k, n);
    lemma_below_present(nodes, x, k, n);
    lemma_below_is_above(nodes, x, k, n);
    if below(nodes, x, id) {
        let j = choose|j: nat| below_within(nodes, x, id, j);
        lemma_below_is_above(nodes, x, id, j);
        lemma_above_line(nodes, k, id, x);
        lemma_above_is_below(nodes, k, id);
    }
}

/// Setting a node's transform, payload or flags keeps the visibility caches of a sound
/// scene right, and so does asking for bounds or transforms.
pub proof fn geometry_changes_keep_seen(
    m: SceneModel,
    id: NodeId,
    transform: Transform,
    payload: NodePayload,
    flags: NodeFlags,
    queried: NodeMap,
    geo: Geometry,
)
    requires
        m.sound(),
        seen_right(m.nodes),
        geometry_filled(m, queried, geo),
    ensures
        seen_right(m.set_node_transform(id, transform).nodes),
        seen_right(m.set_node_payload(id, payload).nodes),
        seen_right(m.set_node_flags(id, flags).nodes),
        seen_right(queried),
{
    if m.nodes.contains_key(id) {
        let a = m.set_node_transform(id, transform).nodes;
        assert(a.dom() =~= m.nodes.dom());
        other_changes_keep_seen(m.nodes, a);
        let b = m.set_node_payload(id, payload).nodes;
        assert(b.dom() =~= m.nodes.dom());
        other_changes_keep_seen(m.nodes, b);
        let c = m.set_node_flags(id, flags).nodes;
        assert(c.dom() =~= m.nodes.dom());
        other_changes_keep_seen(m.nodes, c);
    }
    assert forall|k: NodeId| #[trigger] m.nodes.contains_key(k) implies m.nodes[k].children
        == queried[k].children && m.nodes[k].visibility == queried[k].visibility
        && m.nodes[k].visibility_cache == queried[k].visibility_cache by {
        assert(node_filled(m, queried, k, geo));
    }
    other_changes_keep_seen(m.nodes, queried);
}

/// Nothing at or below an invisible node is rendered, whatever was shown there.
pub proof fn invisible_hides_all_below(nodes: NodeMap, a: NodeId, k: NodeId)
    requires
        above(nodes, a, k),
        nodes[a].visibility == Visibility::Invisible,
    ensures
        effective_visibility(nodes, k) == EffectiveVisibility::Invisible,
{
    lemma_above_present(nodes, a, k);
    assert(hidden_from_above(nodes, k));
}

/// Hiding a node hides all that it is above.
pub proof fn hiding_hides_all_below(m: SceneModel, id: NodeId, k: NodeId)
    requires
        above(m.nodes, id, k),
    ensures
        effective_visibility(m.set_node_visibility(id, Visibility::Invisible).nodes, k)
            == EffectiveVisibility::Invisible,
{
    let a = m.nodes;
    let b = m.set_node_visibility(id, Visibility::Invisible).nodes;
    lemma_above_present(a, id, k);
    assert(b.dom() =~= a.dom());
    assert(same_shape(a, b));
    lemma_same_relations(a, b, id, k);
    assert(below_within(a, id, id, 0));
    assert(subtree(a, id).contains(id));
    invisible_hides_all_below(b, id, k);
}

} // verus!
