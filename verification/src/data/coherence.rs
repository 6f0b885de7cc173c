//! Cached world transforms are never out of date.
//!
//! A scene is coherent when every cached world transform is what composing the local
//! transforms from the root down gives. Asking for transforms keeps a scene coherent, and
//! so does every change to the nodes of a sound scene; and in a coherent scene the answer
//! to a query does not depend on what is cached.

use super::forest::{lemma_same_climbs, lemma_same_relations, same_shape};
use super::model::{lists_id, SceneModel};
use super::node_laws::{
    add_node_keeps_sound, insert_node_keeps_sound, lemma_absent_is_free, lemma_detach_tree,
    lemma_reparent_tree,
};
use super::nodes::subtree;
use super::relinking::{
    kept, lemma_add_relinked, lemma_detach_relinked, lemma_insert_relinked, lemma_move_relinked,
    relinked,
};
use super::tree::{
    above, below, below_within, climb, climb_ends, climbs, forest, lemma_above_present,
    lemma_above_step, parent_links, NodeMap,
};
use super::world::{
    height_above, lemma_world_height, rooted, transform_of, world, world_filled, world_within,
    Compose,
};
use crate::common::Transform;
use crate::resource::handle::{NodeId, ResourceKind};
use crate::resource::node::{lemma_first_index, NodeFlags, NodeModel, NodePayload, Visibility};
use vstd::prelude::*;

verus! {

/// The nodes, with no world transform cached.
pub open spec fn uncached(nodes: NodeMap) -> NodeMap {
    nodes.map_values(|n: NodeModel| NodeModel { world_cache: None, ..n })
}

/// Whether every cached world transform is what composing from the root gives.
pub open spec fn coherent(nodes: NodeMap, compose: Compose) -> bool {
    forall|k: NodeId| #[trigger]
        nodes.contains_key(k) && nodes[k].world_cache is Some ==> rooted(nodes, k)
            && nodes[k].world_cache == Some(world(uncached(nodes), k, compose))
}

pub proof fn lemma_uncached_shape(nodes: NodeMap)
    ensures
        same_shape(nodes, uncached(nodes)),
        same_shape(uncached(nodes), nodes),
{
    assert(uncached(nodes).dom() =~= nodes.dom());
    assert forall|k: NodeId| #[trigger] uncached(nodes).contains_key(k) implies uncached(
        nodes,
    )[k].parent == nodes[k].parent && uncached(nodes)[k].children == nodes[k].children by {
        assert(nodes.contains_key(k));
    }
}

proof fn lemma_coherent_world(nodes: NodeMap, id: NodeId, n: nat, compose: Compose)
    requires
        coherent(nodes, compose),
        climbs(nodes, id, n),
    ensures
        world_within(nodes, id, n, compose) == world_within(uncached(nodes), id, n, compose),
    decreases n,
{
    let bare = uncached(nodes);
    assert(bare.contains_key(id) == nodes.contains_key(id));
    lemma_uncached_shape(nodes);
    if nodes.contains_key(id) {
        if nodes[id].world_cache is Some {
            lemma_same_climbs(nodes, bare, id, n);
            lemma_world_height(bare, id, n, compose);
        } else if nodes[id].parent is Some {
            lemma_coherent_world(nodes, nodes[id].parent->0, (n - 1) as nat, compose);
        }
    }
}

/// Climbing from a node leads to a node without a parent, if it does, whatever else the
/// nodes hold.
pub proof fn lemma_shape_rooted(a: NodeMap, b: NodeMap, id: NodeId)
    requires
        same_shape(a, b),
        same_shape(b, a),
    ensures
        rooted(a, id) == rooted(b, id),
{
    if rooted(a, id) {
        let r = choose|r: NodeId| #[trigger] above(a, r, id) && a[r].parent is None;
        lemma_same_relations(a, b, r, id);
        lemma_above_present(a, r, id);
        assert(above(b, r, id) && b[r].parent is None);
    }
    if rooted(b, id) {
        let r = choose|r: NodeId| #[trigger] above(b, r, id) && b[r].parent is None;
        lemma_same_relations(b, a, r, id);
        lemma_above_present(b, r, id);
        assert(above(a, r, id) && a[r].parent is None);
    }
}

/// In a coherent scene the world transform of a node is the same as if nothing were
/// cached.
pub proof fn coherent_answers_are_true(nodes: NodeMap, id: NodeId, compose: Compose)
    requires
        coherent(nodes, compose),
        climb_ends(nodes, id),
    ensures
        transform_of(nodes, id, compose) == transform_of(uncached(nodes), id, compose),
        nodes.contains_key(id) ==> world(nodes, id, compose) == world(
            uncached(nodes),
            id,
            compose,
        ),
{
    let bare = uncached(nodes);
    let n = height_above(nodes, id);
    lemma_uncached_shape(nodes);
    lemma_same_climbs(nodes, bare, id, n);
    lemma_coherent_world(nodes, id, n, compose);
    lemma_world_height(bare, id, n, compose);
    lemma_shape_rooted(nodes, bare, id);
    assert(bare.contains_key(id) == nodes.contains_key(id));
}

/// Asking for transforms keeps a scene coherent.
pub proof fn queries_keep_coherent(a: NodeMap, b: NodeMap, compose: Compose)
    requires
        coherent(a, compose),
        world_filled(a, b, compose),
    ensures
        coherent(b, compose),
{
    assert(same_shape(a, b) && same_shape(b, a)) by {
        assert forall|k: NodeId| #[trigger] a.contains_key(k) implies a[k].parent == b[k].parent
            && a[k].children == b[k].children by {}
        assert forall|k: NodeId| #[trigger] b.contains_key(k) implies a[k].parent == b[k].parent
            && a[k].children == b[k].children by {
            assert(a.contains_key(k));
        }
    }
    assert(uncached(a) =~= uncached(b)) by {
        assert(uncached(a).dom() =~= uncached(b).dom());
        assert forall|k: NodeId| #[trigger] uncached(a).contains_key(k) implies uncached(a)[k]
            == uncached(b)[k] by {
            assert(a.contains_key(k));
        }
    }
    assert forall|k: NodeId| #[trigger] b.contains_key(k) && b[k].world_cache is Some implies rooted(
        b,
        k,
    ) && b[k].world_cache == Some(world(uncached(b), k, compose)) by {
        assert(a.contains_key(k));
        lemma_shape_rooted(a, b, k);
        if b[k] != a[k] {
            coherent_answers_are_true(a, k, compose);
        }
    }
}

/// A child of what belongs to a subtree belongs to it.
pub proof fn lemma_below_extend(nodes: NodeMap, p: NodeId, k: NodeId, id: NodeId, n: nat)
    requires
        below_within(nodes, p, id, n),
        nodes.contains_key(k),
        lists_id(nodes[p].children, k),
    ensures
        below_within(nodes, k, id, n + 1),
    decreases n,
{
    if p == id {
        let i = choose|i: int| 0 <= i < nodes[p].children.len() && (#[trigger] nodes[p].children[i]).id == k;
        assert(below_within(nodes, k, nodes[id].children[i].id, n));
    } else {
        let i = choose|i: int|
            0 <= i < nodes[id].children.len() && below_within(
                nodes,
                p,
                (#[trigger] nodes[id].children[i]).id,
                (n - 1) as nat,
            );
        lemma_below_extend(nodes, p, k, nodes[id].children[i].id, (n - 1) as nat);
        assert(below_within(nodes, k, nodes[id].children[i].id, n));
    }
}

/// Where parents list their children, what has `id` above it belongs to the subtree of
/// `id`.
pub proof fn lemma_above_is_below(nodes: NodeMap, k: NodeId, id: NodeId)
    requires
        parent_links(nodes),
        above(nodes, id, k),
    ensures
        below(nodes, k, id),
{
    let n = choose|n: nat| climb(nodes, k, n) == Some(id);
    lemma_climb_is_below(nodes, k, id, n);
    assert(below_within(nodes, k, id, n));
}

proof fn lemma_climb_is_below(nodes: NodeMap, k: NodeId, id: NodeId, n: nat)
    requires
        parent_links(nodes),
        climb(nodes, k, n) == Some(id),
    ensures
        below_within(nodes, k, id, n),
    decreases n,
{
    if n > 0 {
        let p = nodes[k].parent->0;
        lemma_climb_is_below(nodes, p, id, (n - 1) as nat);
        lemma_below_extend(nodes, p, k, id, (n - 1) as nat);
    }
}

/// Whether nodes agree on all but one of them: who is there, below whom, and placed how.
pub open spec fn agree_but(a: NodeMap, b: NodeMap, id: NodeId) -> bool {
    &&& forall|k: NodeId| k != id ==> (#[trigger] a.contains_key(k) == b.contains_key(k))
    &&& forall|k: NodeId| k != id && #[trigger] a.contains_key(k) ==> a[k].parent == b[k].parent
        && a[k].transform == b[k].transform
}

/// A node is rooted when it has no parent, or its parent is.
pub proof fn lemma_rooted_step(nodes: NodeMap, k: NodeId)
    requires
        nodes.contains_key(k),
    ensures
        rooted(nodes, k) == (match nodes[k].parent {
            Some(p) => rooted(nodes, p),
            None => true,
        }),
{
    match nodes[k].parent {
        None => {
            assert(climb(nodes, k, 0) == Some(k));
            assert(above(nodes, k, k));
        },
        Some(p) => {
            if rooted(nodes, k) {
                let r = choose|r: NodeId| #[trigger] above(nodes, r, k) && nodes[r].parent is None;
                lemma_above_step(nodes, r, k);
                assert(above(nodes, r, p));
            }
            if rooted(nodes, p) {
                let r = choose|r: NodeId| #[trigger] above(nodes, r, p) && nodes[r].parent is None;
                lemma_above_step(nodes, r, k);
                assert(above(nodes, r, k));
            }
        },
    }
}

/// Nodes that agree on all but one agree on what is not below that one.
pub proof fn lemma_agree_world(a: NodeMap, b: NodeMap, id: NodeId, k: NodeId, n: nat, compose: Compose)
    requires
        agree_but(a, b, id),
        b.contains_key(id),
        !above(b, id, k),
        climbs(b, k, n),
    ensures
        climbs(a, k, n),
        rooted(a, k) == rooted(b, k),
        world_within(uncached(a), k, n, compose) == world_within(uncached(b), k, n, compose),
    decreases n,
{
    if k == id {
        assert(climb(b, id, 0) == Some(id));
        assert(above(b, id, id));
    }
    assert(a.contains_key(k) == b.contains_key(k));
    assert(uncached(a).contains_key(k) == a.contains_key(k));
    assert(uncached(b).contains_key(k) == b.contains_key(k));
    if b.contains_key(k) {
        lemma_above_step(b, id, k);
        lemma_rooted_step(a, k);
        lemma_rooted_step(b, k);
        if b[k].parent is Some {
            lemma_agree_world(a, b, id, b[k].parent->0, (n - 1) as nat, compose);
        }
    } else {
        if rooted(a, k) {
            let r = choose|r: NodeId| #[trigger] above(a, r, k) && a[r].parent is None;
            lemma_above_present(a, r, k);
        }
        if rooted(b, k) {
            let r = choose|r: NodeId| #[trigger] above(b, r, k) && b[r].parent is None;
            lemma_above_present(b, r, k);
        }
    }
}

/// A change to one node keeps a scene coherent when it gives up, or leaves empty, the
/// cached transforms of the subtree of that node.
proof fn lemma_change_keeps_coherent(a: NodeMap, b: NodeMap, id: NodeId, compose: Compose)
    requires
        coherent(a, compose),
        agree_but(a, b, id),
        b.contains_key(id),
        parent_links(b),
        forall|k: NodeId| #[trigger] climb_ends(b, k),
        forall|k: NodeId| #[trigger]
            b.contains_key(k) && b[k].world_cache is Some ==> !below(b, k, id)
                && a.contains_key(k) && b[k].world_cache == a[k].world_cache,
    ensures
        coherent(b, compose),
{
    assert forall|k: NodeId| #[trigger] b.contains_key(k) && b[k].world_cache is Some implies rooted(
        b,
        k,
    ) && b[k].world_cache == Some(world(uncached(b), k, compose)) by {
        if above(b, id, k) {
            lemma_above_is_below(b, k, id);
        }
        assert(climb_ends(b, k));
        let n = height_above(b, k);
        lemma_agree_world(a, b, id, k, n, compose);
        lemma_uncached_shape(a);
        lemma_uncached_shape(b);
        lemma_same_climbs(a, uncached(a), k, n);
        lemma_same_climbs(b, uncached(b), k, n);
        lemma_world_height(uncached(a), k, n, compose);
        lemma_world_height(uncached(b), k, n, compose);
        assert(a.contains_key(k));
    }
}

/// A scene that holds no nodes is coherent.
pub proof fn empty_is_coherent(compose: Compose)
    ensures
        coherent(SceneModel::empty().nodes, compose),
{
}

/// Setting a node's local transform keeps a scene whose nodes form a forest coherent: the
/// transforms of the whole subtree are given up.
pub proof fn set_transform_keeps_coherent(
    m: SceneModel,
    id: NodeId,
    transform: Transform,
    compose: Compose,
)
    requires
        m.tree(),
        coherent(m.nodes, compose),
    ensures
        coherent(m.set_node_transform(id, transform).nodes, compose),
{
    if m.nodes.contains_key(id) {
        let a = m.nodes;
        let put = a.insert(id, NodeModel { transform, ..a[id] });
        let b = m.set_node_transform(id, transform).nodes;
        assert(same_shape(a, b)) by {
            assert(b.dom() =~= a.dom());
        }
        super::forest::lemma_same_forest(a, b, m.roots);
        assert(agree_but(a, b, id)) by {
            assert forall|k: NodeId| k != id implies (#[trigger] a.contains_key(k)
                == b.contains_key(k)) by {}
        }
        assert forall|k: NodeId| #[trigger] b.contains_key(k) && b[k].world_cache is Some implies !below(
            b,
            k,
            id,
        ) && a.contains_key(k) && b[k].world_cache == a[k].world_cache by {
            lemma_same_relations(a, b, k, id);
            assert(!subtree(a, id).contains(k));
        }
        lemma_change_keeps_coherent(a, b, id, compose);
    }
}

/// Adding a node keeps a sound scene coherent: nothing is cached for it yet.
pub proof fn add_node_keeps_coherent(
    m: SceneModel,
    id: NodeId,
    parent: Option<NodeId>,
    name: Option<Seq<char>>,
    transform: Transform,
    flags: NodeFlags,
    compose: Compose,
)
    requires
        m.sound(),
        m.ledger.clock + 2 <= u64::MAX,
        m.node_generation < u64::MAX,
        forall|kind: ResourceKind| !#[trigger] m.present(kind, id),
        parent matches Some(p) ==> m.nodes.contains_key(p),
        coherent(m.nodes, compose),
    ensures
        coherent(m.add_node(id, parent, name, transform, flags).nodes, compose),
{
    let b = m.add_node(id, parent, name, transform, flags).nodes;
    add_node_keeps_sound(m, id, parent, name, transform, flags);
    assert(!m.present(ResourceKind::Node, id));
    lemma_absent_is_free(m, id);
    lemma_add_relinked(m, id, parent, name, transform, flags);
    lemma_relinked_coherent(m.nodes, b, id, None, parent, compose);
}

/// Inserting a pre-built node keeps a sound scene coherent: what it had cached elsewhere
/// does not come with it.
pub proof fn insert_node_keeps_coherent(m: SceneModel, node: NodeModel, compose: Compose)
    requires
        m.sound(),
        m.ledger.clock + 2 <= u64::MAX,
        m.node_generation < u64::MAX,
        m.insertable(node),
        coherent(m.nodes, compose),
    ensures
        coherent(m.insert_node(node).nodes, compose),
{
    let b = m.insert_node(node).nodes;
    insert_node_keeps_sound(m, node);
    assert(!m.present(ResourceKind::Node, node.id));
    lemma_absent_is_free(m, node.id);
    lemma_insert_relinked(m, node);
    lemma_relinked_coherent(m.nodes, b, node.id, None, node.parent, compose);
}

/// A change of place keeps a scene coherent.
pub proof fn lemma_relinked_coherent(
    a: NodeMap,
    b: NodeMap,
    id: NodeId,
    from: Option<NodeId>,
    to: Option<NodeId>,
    compose: Compose,
)
    requires
        coherent(a, compose),
        relinked(a, b, id, from, to),
        parent_links(b),
        forall|k: NodeId| #[trigger] climb_ends(b, k),
    ensures
        coherent(b, compose),
{
    assert forall|k: NodeId| #[trigger]
        b.contains_key(k) && b[k].world_cache is Some implies !below(b, k, id) && a.contains_key(k)
        && b[k].world_cache == a[k].world_cache by {
        assert(kept(a, b, id, from, to, k));
    }
    lemma_change_keeps_coherent(a, b, id, compose);
}

/// Detaching a node keeps such a scene coherent: the transforms of its subtree, which is
/// placed elsewhere now, are given up.
pub proof fn detach_keeps_coherent(m: SceneModel, id: NodeId, compose: Compose)
    requires
        m.tree(),
        m.nodes.contains_key(id),
        coherent(m.nodes, compose),
    ensures
        coherent(m.detach(id).nodes, compose),
{
    lemma_detach_tree(m, id);
    lemma_detach_relinked(m, id);
    lemma_relinked_coherent(m.nodes, m.detach(id).nodes, id, m.nodes[id].parent, None, compose);
}

/// Moving a node keeps such a scene coherent: the transforms of the whole subtree are
/// given up.
pub proof fn reparent_keeps_coherent(
    m: SceneModel,
    id: NodeId,
    new_parent: Option<NodeId>,
    compose: Compose,
)
    requires
        m.tree(),
        m.reparent_error(id, new_parent) is None,
        coherent(m.nodes, compose),
    ensures
        coherent(m.reparent_node(id, new_parent).nodes, compose),
{
    let b = m.reparent_node(id, new_parent).nodes;
    lemma_reparent_tree(m, id, new_parent);
    lemma_move_relinked(m, id, new_parent);
    lemma_relinked_coherent(m.nodes, b, id, m.nodes[id].parent, new_parent, compose);
}

/// The handle that a node is moved by is for that node.
pub proof fn lemma_moved_id(m: SceneModel, id: NodeId)
    ensures
        m.moved_handle(id).id == id,
{
    if let Some(h) = m.tree_handle(id) {
        match m.nodes[id].parent {
            Some(p) => {
                lemma_first_index(m.nodes[p].children, id);
            },
            None => {
                lemma_first_index(m.roots, id);
            },
        }
    }
}

/// What touches neither the links nor the placement of nodes keeps a scene coherent:
/// payloads, flags, visibility.
pub proof fn other_changes_keep_coherent(a: NodeMap, b: NodeMap, compose: Compose)
    requires
        coherent(a, compose),
        same_shape(a, b),
        forall|k: NodeId| #[trigger]
            a.contains_key(k) ==> b[k].transform == a[k].transform && (b[k].world_cache is None
                || b[k].world_cache == a[k].world_cache),
        forall|k: NodeId| #[trigger] climb_ends(a, k),
    ensures
        coherent(b, compose),
{
    assert(same_shape(b, a)) by {
        assert forall|k: NodeId| #[trigger] b.contains_key(k) implies b[k].parent == a[k].parent
            && b[k].children == a[k].children by {
            assert(a.contains_key(k));
        }
    }
    assert forall|k: NodeId| #[trigger] b.contains_key(k) && b[k].world_cache is Some implies rooted(
        b,
        k,
    ) && b[k].world_cache == Some(world(uncached(b), k, compose)) by {
        assert(a.contains_key(k));
        lemma_shape_rooted(a, b, k);
        assert(climb_ends(a, k));
        let n = height_above(a, k);
        lemma_same_placement(a, b, k, n, compose);
        lemma_uncached_shape(a);
        lemma_uncached_shape(b);
        lemma_same_climbs(a, b, k, n);
        lemma_same_climbs(a, uncached(a), k, n);
        lemma_same_climbs(b, uncached(b), k, n);
        lemma_world_height(uncached(a), k, n, compose);
        lemma_world_height(uncached(b), k, n, compose);
    }
}

pub proof fn lemma_same_placement(a: NodeMap, b: NodeMap, k: NodeId, n: nat, compose: Compose)
    requires
        same_shape(a, b),
        forall|k: NodeId| #[trigger] a.contains_key(k) ==> b[k].transform == a[k].transform,
    ensures
        world_within(uncached(a), k, n, compose) == world_within(uncached(b), k, n, compose),
    decreases n,
{
    assert(uncached(a).contains_key(k) == a.contains_key(k));
    assert(uncached(b).contains_key(k) == b.contains_key(k));
    assert(a.contains_key(k) == b.contains_key(k));
    if a.contains_key(k) && a[k].parent is Some && n > 0 {
        lemma_same_placement(a, b, a[k].parent->0, (n - 1) as nat, compose);
    }
}

/// Setting a node's payload, flags or visibility keeps a sound scene coherent.
pub proof fn attributes_keep_coherent(
    m: SceneModel,
    id: NodeId,
    payload: NodePayload,
    flags: NodeFlags,
    visibility: Visibility,
    compose: Compose,
)
    requires
        m.tree(),
        coherent(m.nodes, compose),
    ensures
        coherent(m.set_node_payload(id, payload).nodes, compose),
        coherent(m.set_node_flags(id, flags).nodes, compose),
        coherent(m.set_node_visibility(id, visibility).nodes, compose),
{
    let a = m.nodes;
    if a.contains_key(id) {
        let b = m.set_node_payload(id, payload).nodes;
        assert(b.dom() =~= a.dom());
        other_changes_keep_coherent(a, b, compose);
        let c = m.set_node_flags(id, flags).nodes;
        assert(c.dom() =~= a.dom());
        other_changes_keep_coherent(a, c, compose);
        let d = m.set_node_visibility(id, visibility).nodes;
        assert(d.dom() =~= a.dom());
        other_changes_keep_coherent(a, d, compose);
    }
}

/// After a node's transform is set, its world transform is that of its parent composed
/// with the new one.
pub proof fn set_transform_moves_the_node(
    m: SceneModel,
    id: NodeId,
    transform: Transform,
    compose: Compose,
)
    requires
        m.tree(),
        coherent(m.nodes, compose),
        m.nodes.contains_key(id),
    ensures
        ({
            let after = m.set_node_transform(id, transform).nodes;
            world(after, id, compose) == compose(
                match m.nodes[id].parent {
                    Some(p) => world(m.nodes, p, compose),
                    None => crate::common::identity_matrix(),
                },
                transform,
            )
        }),
{
    let a = m.nodes;
    let b = m.set_node_transform(id, transform).nodes;
    assert(same_shape(a, b)) by {
        assert(b.dom() =~= a.dom());
    }
    super::forest::lemma_same_forest(a, b, m.roots);
    assert(below_within(a, id, id, 0));
    assert(subtree(a, id).contains(id));
    assert(climb_ends(b, id));
    super::world::world_from_parent(b, id, compose);
    if let Some(p) = a[id].parent {
        set_transform_keeps_coherent(m, id, transform, compose);
        assert(climb_ends(b, p) && climb_ends(a, p));
        coherent_answers_are_true(a, p, compose);
        coherent_answers_are_true(b, p, compose);
        // The parent is not below its own child.
        super::forest::lemma_not_above_parent(a, id);
        assert(agree_but(a, b, id)) by {
            assert forall|k: NodeId| k != id implies (#[trigger] a.contains_key(k)
                == b.contains_key(k)) by {}
        }
        lemma_same_relations(a, b, id, p);
        let n = height_above(b, p);
        lemma_agree_world(a, b, id, p, n, compose);
        lemma_uncached_shape(a);
        lemma_uncached_shape(b);
        lemma_same_climbs(a, uncached(a), p, n);
        lemma_same_climbs(b, uncached(b), p, n);
        lemma_world_height(uncached(a), p, n, compose);
        lemma_world_height(uncached(b), p, n, compose);
        assert(a.contains_key(p) && b.contains_key(p));
    }
}

/// In a coherent scene the world transform of every node whose ancestors are there is that
/// of its parent composed with its own, and that of a node without a parent is its own.
pub proof fn coherent_transforms_compose(nodes: NodeMap, id: NodeId, compose: Compose)
    requires
        coherent(nodes, compose),
        climb_ends(nodes, id),
        rooted(nodes, id),
        nodes.contains_key(id),
    ensures
        transform_of(nodes, id, compose) == Some(
            compose(
                match nodes[id].parent {
                    Some(p) => transform_of(nodes, p, compose)->0,
                    None => crate::common::identity_matrix(),
                },
                nodes[id].transform,
            ),
        ),
        nodes[id].parent matches Some(p) ==> transform_of(nodes, p, compose) is Some,
{
    let bare = uncached(nodes);
    coherent_answers_are_true(nodes, id, compose);
    lemma_uncached_shape(nodes);
    let n = height_above(nodes, id);
    lemma_same_climbs(nodes, bare, id, n);
    super::world::world_from_parent(bare, id, compose);
    lemma_rooted_step(nodes, id);
    if let Some(p) = nodes[id].parent {
        assert(climbs(nodes, p, (n - 1) as nat));
        coherent_answers_are_true(nodes, p, compose);
        let r = choose|r: NodeId| #[trigger] above(nodes, r, p) && nodes[r].parent is None;
        lemma_above_present(nodes, r, p);
    }
}

/// Moving a node carries its whole subtree along: no local transform changes, the node is
/// below its new parent and all else is where it was, and the world transform of every node
/// is that of its parent composed with its own. What is not below the moved node stays
/// where it is.
pub proof fn reparent_moves_the_subtree(
    m: SceneModel,
    id: NodeId,
    new_parent: Option<NodeId>,
    d: NodeId,
    compose: Compose,
)
    requires
        m.tree(),
        m.reparent_error(id, new_parent) is None,
        coherent(m.nodes, compose),
        m.nodes.contains_key(d),
    ensures
        ({
            let after = m.reparent_node(id, new_parent).nodes;
            &&& after.contains_key(d)
            &&& after[d].transform == m.nodes[d].transform
            &&& after[d].parent == (if d == id {
                new_parent
            } else {
                m.nodes[d].parent
            })
            &&& transform_of(after, d, compose) == Some(
                compose(
                    match after[d].parent {
                        Some(p) => transform_of(after, p, compose)->0,
                        None => crate::common::identity_matrix(),
                    },
                    after[d].transform,
                ),
            )
            &&& !above(after, id, d) ==> transform_of(after, d, compose) == transform_of(
                m.nodes,
                d,
                compose,
            )
        }),
{
    let a = m.nodes;
    let b = m.reparent_node(id, new_parent).nodes;
    lemma_reparent_tree(m, id, new_parent);
    reparent_keeps_coherent(m, id, new_parent, compose);
    lemma_move_relinked(m, id, new_parent);
    assert(b.contains_key(d) == a.contains_key(d));
    assert(climb_ends(b, d));
    let n = height_above(b, d);
    super::bounds_coherence::lemma_forest_rooted(b, d, n);
    coherent_transforms_compose(b, d, compose);
    if !above(b, id, d) {
        lemma_agree_world(a, b, id, d, n, compose);
        assert(climb_ends(a, d));
        coherent_answers_are_true(a, d, compose);
        coherent_answers_are_true(b, d, compose);
        lemma_uncached_shape(a);
        lemma_uncached_shape(b);
        lemma_same_climbs(a, uncached(a), d, n);
        lemma_same_climbs(b, uncached(b), d, n);
        lemma_world_height(uncached(a), d, n, compose);
        lemma_world_height(uncached(b), d, n, compose);
    }
}

} // verus!
