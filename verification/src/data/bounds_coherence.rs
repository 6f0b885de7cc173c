//! Cached bounds are never out of date.
//!
//! Beside the world transforms, the bounds of subtrees are cached. They are right when
//! they are what taking the boxes of the subtree together anew gives. Queries keep them
//! right, and so does every change to the place, the payload or the flags of a node, as
//! the bounds of everything above and below the change are given up. They are only cached
//! when nothing was missing, so that they stay right when what was missing is added.
//! Replacing a mesh or an instance that nodes carry, or taking it out by force, is not
//! among the changes that give bounds up.

use super::bounds::{
    acyclic, geometry_filled, lemma_bounds_depth, lemma_filled_shape, merged, node_filled,
    Geometry,
};
use super::coherence::{
    agree_but, attributes_keep_coherent, coherent, coherent_answers_are_true,
    lemma_above_is_below, lemma_agree_world, lemma_relinked_coherent, lemma_rooted_step,
    lemma_same_placement, lemma_shape_rooted, lemma_uncached_shape, other_changes_keep_coherent,
    set_transform_keeps_coherent, uncached,
};
use super::forest::{
    lemma_same_climbs, lemma_same_descends, lemma_same_forest, lemma_same_relations, same_shape,
};
use super::model::{lists_id, SceneModel};
use super::node_laws::{
    add_instance_node_keeps_sound, add_node_keeps_sound, insert_node_keeps_sound,
    lemma_absent_is_free, lemma_detach_tree, reparent_keeps_sound,
};
use super::nodes::{ancestors, lemma_below_present, lemma_climb_next, subtree};
use super::relinking::{
    kept, lemma_add_relinked, lemma_detach_relinked, lemma_insert_relinked, lemma_move_relinked,
    relinked,
};
use super::tree::{
    above, below, below_within, child_links, climb, climb_ends, climbs, descends, descent_ends,
    lemma_above_step, parent_links, NodeMap,
};
use super::visibility::{depth_below, visibility_filled};
use super::world::{height_above, lemma_world_height, rooted, transform_of, world, Compose};
use super::BoundingResult;
use crate::common::{Aabb, Transform};
use crate::resource::handle::{NodeId, ResourceKind};
use crate::resource::instance::InstanceParts;
use crate::resource::mesh::MeshModel;
use crate::resource::node::{
    NodeFlags, NodeModel, NodePayload, Visibility, DOES_NOT_CONTRIBUTE_BOUNDING,
};
use vstd::prelude::*;

verus! {

/// The nodes, with neither world transforms nor bounds cached.
pub open spec fn forgotten(nodes: NodeMap) -> NodeMap {
    nodes.map_values(|n: NodeModel| NodeModel { world_cache: None, bounds_cache: None, ..n })
}

impl SceneModel {
    /// The scene, with neither world transforms nor bounds cached.
    pub open spec fn unmeasured(self) -> SceneModel {
        self.with_nodes(forgotten(self.nodes))
    }

    /// Whether every cached world transform and all cached bounds are what computing them
    /// anew gives.
    pub open spec fn measured_right(self, geo: Geometry) -> bool {
        &&& coherent(self.nodes, geo.compose)
        &&& forall|k: NodeId| #[trigger]
            self.nodes.contains_key(k) && self.nodes[k].bounds_cache is Some
                ==> self.bounds_right(k, geo)
    }

    /// Whether the cached bounds of a node are right, or not used.
    pub open spec fn bounds_right(self, k: NodeId, geo: Geometry) -> bool {
        self.nodes[k].flags.has(DOES_NOT_CONTRIBUTE_BOUNDING) || ({
            let anew = self.unmeasured().bounds_of(k, geo);
            !anew.incomplete && self.nodes[k].bounds_cache == Some(anew.bounds)
        })
    }
}

pub proof fn lemma_forgotten_shape(nodes: NodeMap)
    ensures
        same_shape(nodes, forgotten(nodes)),
        same_shape(forgotten(nodes), nodes),
        uncached(forgotten(nodes)) == forgotten(nodes),
{
    assert(forgotten(nodes).dom() =~= nodes.dom());
    assert forall|k: NodeId| #[trigger] forgotten(nodes).contains_key(k) implies forgotten(
        nodes,
    )[k].parent == nodes[k].parent && forgotten(nodes)[k].children == nodes[k].children by {
        assert(nodes.contains_key(k));
    }
    assert(uncached(forgotten(nodes)) =~= forgotten(nodes));
}

/// In a coherent scene transforms are the same once everything is forgotten.
pub proof fn lemma_forgotten_transform(nodes: NodeMap, id: NodeId, compose: Compose)
    requires
        coherent(nodes, compose),
        climb_ends(nodes, id),
    ensures
        transform_of(nodes, id, compose) == transform_of(forgotten(nodes), id, compose),
{
    let bare = forgotten(nodes);
    coherent_answers_are_true(nodes, id, compose);
    lemma_forgotten_shape(nodes);
    lemma_uncached_shape(nodes);
    let n = height_above(nodes, id);
    lemma_same_placement(nodes, bare, id, n, compose);
    lemma_same_climbs(nodes, uncached(nodes), id, n);
    lemma_same_climbs(nodes, bare, id, n);
    lemma_world_height(uncached(nodes), id, n, compose);
    lemma_world_height(bare, id, n, compose);
    lemma_shape_rooted(nodes, uncached(nodes), id);
    lemma_shape_rooted(nodes, bare, id);
    assert(bare.contains_key(id) == nodes.contains_key(id));
    assert(uncached(nodes).contains_key(id) == nodes.contains_key(id));
}

proof fn lemma_right_within(m: SceneModel, id: NodeId, n: nat, geo: Geometry)
    requires
        m.measured_right(geo),
        acyclic(m.nodes),
        descends(m.nodes, id, n),
    ensures
        m.bounds_within(id, n, geo) == m.unmeasured().bounds_within(id, n, geo),
    decreases n,
{
    let bare = m.unmeasured();
    lemma_forgotten_shape(m.nodes);
    assert(bare.nodes.contains_key(id) == m.nodes.contains_key(id));
    if m.nodes.contains_key(id) && !m.nodes[id].flags.has(DOES_NOT_CONTRIBUTE_BOUNDING) {
        lemma_same_descends(m.nodes, bare.nodes, id, n);
        if m.nodes[id].bounds_cache is Some {
            assert(m.bounds_right(id, geo));
            lemma_bounds_depth(bare, id, n, geo);
        } else {
            let children = m.nodes[id].children;
            assert(climb_ends(m.nodes, id));
            lemma_forgotten_transform(m.nodes, id, geo.compose);
            assert(m.own_bounds(id, geo) == bare.own_bounds(id, geo));
            if n > 0 {
                let a = m.child_bounds(id, (n - 1) as nat, geo);
                let b = bare.child_bounds(id, (n - 1) as nat, geo);
                assert forall|i: int| 0 <= i < children.len() implies #[trigger] a[i] == b[i] by {
                    assert(descends(m.nodes, m.nodes[id].children[i].id, (n - 1) as nat));
                    lemma_right_within(m, children[i].id, (n - 1) as nat, geo);
                }
                assert(a =~= b);
            }
        }
    }
}

/// Where caches are right, the bounds of a node are the same as if nothing were cached.
pub proof fn measured_answers_are_true(m: SceneModel, id: NodeId, geo: Geometry)
    requires
        m.measured_right(geo),
        acyclic(m.nodes),
    ensures
        m.bounds_of(id, geo) == m.unmeasured().bounds_of(id, geo),
{
    assert(descent_ends(m.nodes, id));
    let n = depth_below(m.nodes, id);
    lemma_forgotten_shape(m.nodes);
    lemma_same_descends(m.nodes, forgotten(m.nodes), id, n);
    lemma_right_within(m, id, n, geo);
    lemma_bounds_depth(m.unmeasured(), id, n, geo);
}

/// Asking for bounds or transforms keeps caches right.
pub proof fn queries_keep_measured(m: SceneModel, b: NodeMap, geo: Geometry)
    requires
        m.measured_right(geo),
        acyclic(m.nodes),
        geometry_filled(m, b, geo),
    ensures
        m.with_nodes(b).measured_right(geo),
{
    let after = m.with_nodes(b);
    lemma_filled_shape(m, b, geo);
    assert(uncached(b).dom() =~= uncached(m.nodes).dom());
    assert(forgotten(b) =~= forgotten(m.nodes)) by {
        assert(forgotten(b).dom() =~= forgotten(m.nodes).dom());
        assert forall|k: NodeId| #[trigger] forgotten(b).contains_key(k) implies forgotten(b)[k]
            == forgotten(m.nodes)[k] by {
            assert(m.nodes.contains_key(k));
            assert(node_filled(m, b, k, geo));
        }
    }
    assert(after.unmeasured() =~= m.unmeasured());
    assert(coherent(b, geo.compose)) by {
        assert forall|k: NodeId| #[trigger]
            b.contains_key(k) && b[k].world_cache is Some implies rooted(b, k)
            && b[k].world_cache == Some(world(uncached(b), k, geo.compose)) by {
            assert(m.nodes.contains_key(k));
            assert(node_filled(m, b, k, geo));
            lemma_shape_rooted(m.nodes, b, k);
            assert(climb_ends(m.nodes, k));
            let n = height_above(m.nodes, k);
            lemma_same_climbs(m.nodes, b, k, n);
            lemma_uncached_shape(m.nodes);
            lemma_uncached_shape(b);
            lemma_same_climbs(m.nodes, uncached(m.nodes), k, n);
            lemma_same_climbs(b, uncached(b), k, n);
            assert forall|x: NodeId| #[trigger] m.nodes.contains_key(x) implies b[x].transform
                == m.nodes[x].transform by {
                assert(node_filled(m, b, x, geo));
            }
            lemma_same_placement(m.nodes, b, k, n, geo.compose);
            lemma_world_height(uncached(m.nodes), k, n, geo.compose);
            lemma_world_height(uncached(b), k, n, geo.compose);
            coherent_answers_are_true(m.nodes, k, geo.compose);
        }
    }
    assert forall|k: NodeId| #[trigger]
        after.nodes.contains_key(k) && after.nodes[k].bounds_cache is Some implies after.bounds_right(
        k,
        geo,
    ) by {
        assert(m.nodes.contains_key(k));
        assert(node_filled(m, b, k, geo));
        if b[k].bounds_cache == m.nodes[k].bounds_cache {
            assert(m.bounds_right(k, geo));
        } else {
            measured_answers_are_true(m, k, geo);
        }
    }
}

/// Where a node that lists a child is its parent, what belongs to the subtree of a node
/// has that node above it.
pub proof fn lemma_below_is_above(nodes: NodeMap, k: NodeId, id: NodeId, n: nat)
    requires
        child_links(nodes),
        below_within(nodes, k, id, n),
        nodes.contains_key(k),
    ensures
        above(nodes, id, k),
    decreases n,
{
    if k == id {
        assert(climb(nodes, k, 0) == Some(id));
    } else {
        let i = choose|i: int|
            0 <= i < nodes[id].children.len() && below_within(
                nodes,
                k,
                (#[trigger] nodes[id].children[i]).id,
                (n - 1) as nat,
            );
        let c = nodes[id].children[i].id;
        lemma_below_is_above(nodes, k, c, (n - 1) as nat);
        assert(nodes.contains_key(c));
        assert(lists_id(nodes[id].children, c));
        let j = choose|j: nat| climb(nodes, k, j) == Some(c);
        lemma_climb_next(nodes, k, j);
        assert(climb(nodes, k, j + 1) == Some(id));
    }
}

pub proof fn lemma_climb_split(nodes: NodeMap, x: NodeId, i: nat, d: nat, id: NodeId)
    requires
        climb(nodes, x, i) == Some(id),
    ensures
        climb(nodes, x, i + d) == climb(nodes, id, d),
    decreases i,
{
    if i > 0 {
        lemma_climb_split(nodes, nodes[x].parent->0, (i - 1) as nat, d, id);
    }
}

/// Of two nodes above a third, one is above the other.
pub proof fn lemma_above_line(nodes: NodeMap, a: NodeId, b: NodeId, x: NodeId)
    requires
        above(nodes, a, x),
        above(nodes, b, x),
    ensures
        above(nodes, a, b) || above(nodes, b, a),
{
    let i = choose|i: nat| climb(nodes, x, i) == Some(a);
    let j = choose|j: nat| climb(nodes, x, j) == Some(b);
    if i <= j {
        lemma_climb_split(nodes, x, i, (j - i) as nat, a);
        assert(climb(nodes, a, (j - i) as nat) == Some(b));
    } else {
        lemma_climb_split(nodes, x, j, (i - j) as nat, b);
        assert(climb(nodes, b, (i - j) as nat) == Some(a));
    }
}

/// Whether a node is there before and after with the same links, place, flags and
/// payload.
spec fn same_node(a: NodeMap, b: NodeMap, x: NodeId) -> bool {
    &&& a.contains_key(x) == b.contains_key(x)
    &&& a.contains_key(x) ==> a[x].parent == b[x].parent && a[x].children == b[x].children
        && a[x].transform == b[x].transform && a[x].flags == b[x].flags && a[x].payload.handle()
        == b[x].payload.handle()
}

/// Whether a change moves no node.
spec fn unmoved(a: NodeMap, b: NodeMap) -> bool {
    same_shape(a, b) && forall|k: NodeId| #[trigger]
        a.contains_key(k) ==> b[k].transform == a[k].transform
}

/// Whether a change concerns nothing in the subtree of a node, nor where it is.
spec fn unconcerned(a: NodeMap, b: NodeMap, id: NodeId, k: NodeId) -> bool {
    forall|x: NodeId| #[trigger]
        below(b, x, k) ==> same_node(a, b, x) && (unmoved(a, b) || !above(b, id, x))
}

pub proof fn lemma_below_child(nodes: NodeMap, k: NodeId, i: int, x: NodeId)
    requires
        nodes.contains_key(k),
        0 <= i < nodes[k].children.len(),
        below(nodes, x, nodes[k].children[i].id),
    ensures
        below(nodes, x, k),
{
    let n = choose|n: nat| below_within(nodes, x, nodes[k].children[i].id, n);
    assert(below_within(nodes, x, k, n + 1));
}

proof fn lemma_unconcerned_bounds(
    m: SceneModel,
    after: SceneModel,
    id: NodeId,
    k: NodeId,
    n: nat,
    geo: Geometry,
)
    requires
        acyclic(m.nodes),
        acyclic(after.nodes),
        agree_but(m.nodes, after.nodes, id),
        after.nodes.contains_key(id),
        unconcerned(m.nodes, after.nodes, id, k),
        after.nodes.contains_key(k) || !m.nodes.contains_key(k),
        m.instances == after.instances,
        m.meshes == after.meshes,
        descends(after.nodes, k, n),
    ensures
        m.unmeasured().bounds_within(k, n, geo) == after.unmeasured().bounds_within(k, n, geo),
        descends(m.nodes, k, n),
    decreases n,
{
    let a = m.unmeasured();
    let b = after.unmeasured();
    assert(a.nodes.contains_key(k) == m.nodes.contains_key(k));
    assert(b.nodes.contains_key(k) == after.nodes.contains_key(k));
    if after.nodes.contains_key(k) {
        assert(below_within(after.nodes, k, k, 0));
        assert(below(after.nodes, k, k));
        assert(same_node(m.nodes, after.nodes, k));
        let children = after.nodes[k].children;
        assert(children == m.nodes[k].children);
        assert forall|i: int| 0 <= i < children.len() implies n > 0 && descends(
            m.nodes,
            (#[trigger] children[i]).id,
            (n - 1) as nat,
        ) && a.bounds_within(children[i].id, (n - 1) as nat, geo) == b.bounds_within(
            children[i].id,
            (n - 1) as nat,
            geo,
        ) by {
            let c = children[i].id;
            assert(descends(after.nodes, after.nodes[k].children[i].id, (n - 1) as nat));
            assert forall|x: NodeId| #[trigger] below(after.nodes, x, c) implies same_node(
                m.nodes,
                after.nodes,
                x,
            ) && (unmoved(m.nodes, after.nodes) || !above(after.nodes, id, x)) by {
                lemma_below_child(after.nodes, k, i, x);
            }
            if !after.nodes.contains_key(c) {
                assert(c != id);
                assert(m.nodes.contains_key(c) == after.nodes.contains_key(c));
            }
            lemma_unconcerned_bounds(m, after, id, c, (n - 1) as nat, geo);
        }
        if n > 0 {
            assert(a.child_bounds(k, (n - 1) as nat, geo) =~= b.child_bounds(
                k,
                (n - 1) as nat,
                geo,
            ));
        }
        lemma_unconcerned_own(m, after, id, k, geo);
    }
}

/// A node that a change does not concern carries the same geometry in the same place.
proof fn lemma_unconcerned_own(
    m: SceneModel,
    after: SceneModel,
    id: NodeId,
    k: NodeId,
    geo: Geometry,
)
    requires
        acyclic(m.nodes),
        acyclic(after.nodes),
        agree_but(m.nodes, after.nodes, id),
        after.nodes.contains_key(id),
        after.nodes.contains_key(k),
        same_node(m.nodes, after.nodes, k),
        unmoved(m.nodes, after.nodes) || !above(after.nodes, id, k),
        m.instances == after.instances,
        m.meshes == after.meshes,
    ensures
        m.unmeasured().own_bounds(k, geo) == after.unmeasured().own_bounds(k, geo),
{
    let a = forgotten(m.nodes);
    let b = forgotten(after.nodes);
    assert(climb_ends(after.nodes, k));
    let h = height_above(after.nodes, k);
    if unmoved(m.nodes, after.nodes) {
        lemma_same_placement(m.nodes, after.nodes, k, h, geo.compose);
        lemma_same_climbs(m.nodes, after.nodes, k, h);
        lemma_shape_rooted(m.nodes, after.nodes, k);
    } else {
        lemma_agree_world(m.nodes, after.nodes, id, k, h, geo.compose);
    }
    lemma_forgotten_shape(m.nodes);
    lemma_forgotten_shape(after.nodes);
    lemma_same_placement(m.nodes, a, k, h, geo.compose);
    lemma_same_placement(after.nodes, b, k, h, geo.compose);
    lemma_same_climbs(m.nodes, a, k, h);
    lemma_same_climbs(after.nodes, b, k, h);
    lemma_world_height(a, k, h, geo.compose);
    lemma_world_height(b, k, h, geo.compose);
    lemma_shape_rooted(m.nodes, a, k);
    lemma_shape_rooted(after.nodes, b, k);
    assert(a.contains_key(k) && b.contains_key(k));
    assert(transform_of(a, k, geo.compose) == transform_of(b, k, geo.compose));
}

/// A change keeps caches right when it gives up, or leaves empty, the bounds of all nodes
/// that it concerns, and the transforms of all nodes that it moves.
proof fn lemma_change_keeps_measured(m: SceneModel, after: SceneModel, id: NodeId, geo: Geometry)
    requires
        m.measured_right(geo),
        acyclic(m.nodes),
        acyclic(after.nodes),
        coherent(after.nodes, geo.compose),
        agree_but(m.nodes, after.nodes, id),
        after.nodes.contains_key(id),
        m.instances == after.instances,
        m.meshes == after.meshes,
        forall|k: NodeId| #[trigger]
            after.nodes.contains_key(k) && after.nodes[k].bounds_cache is Some ==> unconcerned(
                m.nodes,
                after.nodes,
                id,
                k,
            ) && m.nodes.contains_key(k) && after.nodes[k].bounds_cache
                == m.nodes[k].bounds_cache,
    ensures
        after.measured_right(geo),
{
    assert forall|k: NodeId| #[trigger]
        after.nodes.contains_key(k) && after.nodes[k].bounds_cache is Some implies after.bounds_right(
        k,
        geo,
    ) by {
        assert(below_within(after.nodes, k, k, 0));
        assert(below(after.nodes, k, k));
        assert(same_node(m.nodes, after.nodes, k));
        assert(m.bounds_right(k, geo));
        assert(descent_ends(after.nodes, k));
        let n = depth_below(after.nodes, k);
        lemma_unconcerned_bounds(m, after, id, k, n, geo);
        lemma_forgotten_shape(m.nodes);
        lemma_forgotten_shape(after.nodes);
        lemma_same_descends(m.nodes, forgotten(m.nodes), k, n);
        lemma_same_descends(after.nodes, forgotten(after.nodes), k, n);
        lemma_bounds_depth(m.unmeasured(), k, n, geo);
        lemma_bounds_depth(after.unmeasured(), k, n, geo);
    }
}

/// What is neither above nor below a change to one node is not concerned by it.
proof fn lemma_aside(a: NodeMap, b: NodeMap, id: NodeId, k: NodeId)
    requires
        parent_links(b),
        child_links(b),
        b.contains_key(k),
        !above(b, k, id),
        !above(b, id, k),
        forall|x: NodeId| x != id ==> #[trigger] same_node(a, b, x),
    ensures
        unconcerned(a, b, id, k),
{
    assert forall|x: NodeId| #[trigger] below(b, x, k) implies same_node(a, b, x) && !above(
        b,
        id,
        x,
    ) by {
        let n = choose|n: nat| below_within(b, x, k, n);
        lemma_below_present(b, x, k, n);
        lemma_below_is_above(b, x, k, n);
        if above(b, id, x) {
            lemma_above_line(b, k, id, x);
        }
    }
}

/// Setting a node's local transform keeps the caches of a sound scene right.
pub proof fn set_transform_keeps_measured(
    m: SceneModel,
    id: NodeId,
    transform: Transform,
    geo: Geometry,
)
    requires
        m.sound(),
        m.measured_right(geo),
    ensures
        m.set_node_transform(id, transform).measured_right(geo),
{
    if m.nodes.contains_key(id) {
        let after = m.set_node_transform(id, transform);
        let a = m.nodes;
        let b = after.nodes;
        assert(same_shape(a, b)) by {
            assert(b.dom() =~= a.dom());
        }
        lemma_same_forest(a, b, m.roots);
        set_transform_keeps_coherent(m, id, transform, geo.compose);
        assert(agree_but(a, b, id)) by {
            assert forall|k: NodeId| k != id implies (#[trigger] a.contains_key(k)
                == b.contains_key(k)) by {}
        }
        assert forall|k: NodeId| #[trigger]
            b.contains_key(k) && b[k].bounds_cache is Some implies unconcerned(a, b, id, k)
            && a.contains_key(k) && b[k].bounds_cache == a[k].bounds_cache by {
            assert(!subtree(a, id).contains(k));
            assert(!ancestors(a, id).contains(k));
            lemma_same_relations(a, b, k, id);
            lemma_same_relations(a, b, id, k);
            if above(b, id, k) {
                lemma_above_is_below(b, k, id);
            }
            assert forall|x: NodeId| x != id implies #[trigger] same_node(a, b, x) by {}
            lemma_aside(a, b, id, k);
        }
        lemma_change_keeps_measured(m, after, id, geo);
    }
}

/// What is not above a change that moves no node is not concerned by it.
proof fn lemma_not_above_change(a: NodeMap, b: NodeMap, id: NodeId, k: NodeId)
    requires
        parent_links(b),
        child_links(b),
        b.contains_key(k),
        !above(b, k, id),
        unmoved(a, b),
        forall|x: NodeId| x != id ==> #[trigger] same_node(a, b, x),
    ensures
        unconcerned(a, b, id, k),
{
    assert forall|x: NodeId| #[trigger] below(b, x, k) implies same_node(a, b, x) && (unmoved(a, b)
        || !above(b, id, x)) by {
        let n = choose|n: nat| below_within(b, x, k, n);
        lemma_below_present(b, x, k, n);
        lemma_below_is_above(b, x, k, n);
    }
}

/// Setting a node's payload or its flags keeps the caches of a sound scene right.
pub proof fn attributes_keep_measured(
    m: SceneModel,
    id: NodeId,
    payload: NodePayload,
    flags: NodeFlags,
    geo: Geometry,
)
    requires
        m.sound(),
        m.measured_right(geo),
    ensures
        m.set_node_payload(id, payload).measured_right(geo),
        m.set_node_flags(id, flags).measured_right(geo),
{
    attributes_keep_coherent(m, id, payload, flags, Visibility::Visible, geo.compose);
    let b = m.set_node_payload(id, payload);
    assert(b.nodes.dom() =~= m.nodes.dom());
    lemma_one_node_changed(m, b, id, geo);
    let c = m.set_node_flags(id, flags);
    assert(c.nodes.dom() =~= m.nodes.dom());
    lemma_one_node_changed(m, c, id, geo);
}

proof fn lemma_one_node_changed(m: SceneModel, after: SceneModel, id: NodeId, geo: Geometry)
    requires
        m.sound(),
        m.measured_right(geo),
        coherent(after.nodes, geo.compose),
        after.nodes.dom() == m.nodes.dom(),
        after.instances == m.instances,
        after.meshes == m.meshes,
        !m.nodes.contains_key(id) ==> after.nodes == m.nodes,
        forall|k: NodeId| #[trigger]
            m.nodes.contains_key(k) && m.nodes.contains_key(id) ==> after.nodes[k].parent
                == m.nodes[k].parent && after.nodes[k].children == m.nodes[k].children
                && after.nodes[k].transform == m.nodes[k].transform && (k != id ==> after.nodes[k].flags
                == m.nodes[k].flags && after.nodes[k].payload.handle()
                == m.nodes[k].payload.handle()) && after.nodes[k].bounds_cache == (if above(
                m.nodes,
                k,
                id,
            ) {
                None
            } else {
                m.nodes[k].bounds_cache
            }),
    ensures
        after.measured_right(geo),
{
    let a = m.nodes;
    let b = after.nodes;
    if a.contains_key(id) {
        assert(same_shape(a, b));
        lemma_same_forest(a, b, m.roots);
        assert(unmoved(a, b));
        assert forall|k: NodeId| #[trigger]
            b.contains_key(k) && b[k].bounds_cache is Some implies unconcerned(a, b, id, k)
            && a.contains_key(k) && b[k].bounds_cache == a[k].bounds_cache by {
            assert(a.contains_key(k));
            lemma_same_relations(a, b, k, id);
            assert forall|x: NodeId| x != id implies #[trigger] same_node(a, b, x) by {
                assert(a.contains_key(x) == b.contains_key(x));
            }
            lemma_not_above_change(a, b, id, k);
        }
        lemma_change_keeps_measured(m, after, id, geo);
    } else {
        assert forall|k: NodeId| #[trigger]
            b.contains_key(k) && b[k].bounds_cache is Some implies after.bounds_right(k, geo) by {
            assert(m.bounds_right(k, geo));
            let n = depth_below(b, k);
            assert(descent_ends(b, k));
            lemma_same_scene_bounds(m.unmeasured(), after.unmeasured(), k, n, geo);
            lemma_forgotten_shape(b);
            lemma_same_descends(b, forgotten(b), k, n);
            lemma_bounds_depth(m.unmeasured(), k, n, geo);
            lemma_bounds_depth(after.unmeasured(), k, n, geo);
        }
    }
}

/// Bounds are read off nodes, instances and meshes alone.
proof fn lemma_same_scene_bounds(a: SceneModel, b: SceneModel, k: NodeId, n: nat, geo: Geometry)
    requires
        a.nodes == b.nodes,
        a.instances == b.instances,
        a.meshes == b.meshes,
    ensures
        a.bounds_within(k, n, geo) == b.bounds_within(k, n, geo),
    decreases n,
{
    if a.nodes.contains_key(k) && n > 0 {
        let c = a.child_bounds(k, (n - 1) as nat, geo);
        let d = b.child_bounds(k, (n - 1) as nat, geo);
        assert forall|i: int| 0 <= i < c.len() implies #[trigger] c[i] == d[i] by {
            lemma_same_scene_bounds(a, b, a.nodes[k].children[i].id, (n - 1) as nat, geo);
        }
        assert(c =~= d);
    }
}

/// Off the path through a changed node the same nodes are above.
proof fn lemma_agree_climb(a: NodeMap, b: NodeMap, id: NodeId, x: NodeId, n: nat)
    requires
        agree_but(a, b, id),
        a.contains_key(id),
        b.contains_key(id),
        !above(a, id, x),
    ensures
        climb(a, x, n) == climb(b, x, n),
    decreases n,
{
    if x == id {
        assert(climb(a, id, 0) == Some(id));
        assert(above(a, id, id));
    }
    assert(a.contains_key(x) == b.contains_key(x));
    if n > 0 && a.contains_key(x) && a[x].parent is Some {
        lemma_above_step(a, id, x);
        lemma_agree_climb(a, b, id, a[x].parent->0, (n - 1) as nat);
    }
}

pub proof fn lemma_agree_above(a: NodeMap, b: NodeMap, id: NodeId, x: NodeId, k: NodeId)
    requires
        agree_but(a, b, id),
        a.contains_key(id),
        b.contains_key(id),
        !above(a, id, x),
    ensures
        above(a, k, x) == above(b, k, x),
{
    assert forall|n: nat| #[trigger] climb(a, x, n) == climb(b, x, n) by {
        lemma_agree_climb(a, b, id, x, n);
    }
    if above(b, k, x) {
        let n = choose|n: nat| climb(b, x, n) == Some(k);
        assert(climb(a, x, n) == Some(k));
    }
}

/// Where bounds are still cached after a change of place, nothing below has changed.
proof fn lemma_relinked_aside(
    a: NodeMap,
    b: NodeMap,
    id: NodeId,
    from: Option<NodeId>,
    to: Option<NodeId>,
    k: NodeId,
)
    requires
        relinked(a, b, id, from, to),
        parent_links(b),
        child_links(b),
        b.contains_key(k),
        b[k].bounds_cache is Some,
    ensures
        unconcerned(a, b, id, k),
{
    assert(kept(a, b, id, from, to, k));
    assert(k != id) by {
        assert(below_within(b, id, id, 0));
    }
    assert(!above(b, k, id)) by {
        lemma_above_step(b, k, id);
    }
    assert forall|x: NodeId| #[trigger] below(b, x, k) implies same_node(a, b, x) && !above(
        b,
        id,
        x,
    ) by {
        let n = choose|n: nat| below_within(b, x, k, n);
        lemma_below_present(b, x, k, n);
        lemma_below_is_above(b, x, k, n);
        assert(x != id && Some(x) != from && Some(x) != to);
        assert(a.contains_key(x) == b.contains_key(x));
        if above(b, id, x) {
            lemma_above_line(b, k, id, x);
            lemma_above_is_below(b, k, id);
        }
    }
}

/// A change of place keeps caches right.
pub proof fn lemma_relinked_measured(
    m: SceneModel,
    after: SceneModel,
    id: NodeId,
    from: Option<NodeId>,
    to: Option<NodeId>,
    geo: Geometry,
)
    requires
        m.measured_right(geo),
        m.tree(),
        after.tree(),
        relinked(m.nodes, after.nodes, id, from, to),
        m.instances == after.instances,
        m.meshes == after.meshes,
    ensures
        after.measured_right(geo),
{
    lemma_relinked_coherent(m.nodes, after.nodes, id, from, to, geo.compose);
    assert forall|k: NodeId| #[trigger]
        after.nodes.contains_key(k) && after.nodes[k].bounds_cache is Some implies unconcerned(
        m.nodes,
        after.nodes,
        id,
        k,
    ) && m.nodes.contains_key(k) && after.nodes[k].bounds_cache == m.nodes[k].bounds_cache by {
        assert(kept(m.nodes, after.nodes, id, from, to, k));
        lemma_relinked_aside(m.nodes, after.nodes, id, from, to, k);
    }
    lemma_change_keeps_measured(m, after, id, geo);
}

/// Moving a node below another parent keeps the caches of a sound scene right.
pub proof fn reparent_keeps_measured(
    m: SceneModel,
    id: NodeId,
    new_parent: Option<NodeId>,
    geo: Geometry,
)
    requires
        m.sound(),
        m.ledger.clock < u64::MAX,
        m.node_generation < u64::MAX,
        m.reparent_error(id, new_parent) is None,
        m.measured_right(geo),
    ensures
        m.reparent_node(id, new_parent).measured_right(geo),
{
    let after = m.reparent_node(id, new_parent);
    reparent_keeps_sound(m, id, new_parent);
    lemma_move_relinked(m, id, new_parent);
    lemma_relinked_measured(m, after, id, m.nodes[id].parent, new_parent, geo);
}

/// Adding a node keeps the caches of a sound scene right: the bounds of every subtree
/// that it joins are given up.
pub proof fn add_node_keeps_measured(
    m: SceneModel,
    id: NodeId,
    parent: Option<NodeId>,
    name: Option<Seq<char>>,
    transform: Transform,
    flags: NodeFlags,
    geo: Geometry,
)
    requires
        m.sound(),
        m.ledger.clock + 2 <= u64::MAX,
        m.node_generation < u64::MAX,
        forall|kind: ResourceKind| !#[trigger] m.present(kind, id),
        parent matches Some(p) ==> m.nodes.contains_key(p),
        m.measured_right(geo),
    ensures
        m.add_node(id, parent, name, transform, flags).measured_right(geo),
{
    let after = m.add_node(id, parent, name, transform, flags);
    add_node_keeps_sound(m, id, parent, name, transform, flags);
    assert(!m.present(ResourceKind::Node, id));
    lemma_absent_is_free(m, id);
    lemma_add_relinked(m, id, parent, name, transform, flags);
    lemma_relinked_measured(m, after, id, None, parent, geo);
}

/// Inserting a pre-built node keeps the caches of a sound scene right.
pub proof fn insert_node_keeps_measured(m: SceneModel, node: NodeModel, geo: Geometry)
    requires
        m.sound(),
        m.ledger.clock + 2 <= u64::MAX,
        m.node_generation < u64::MAX,
        m.insertable(node),
        m.measured_right(geo),
    ensures
        m.insert_node(node).measured_right(geo),
{
    let after = m.insert_node(node);
    insert_node_keeps_sound(m, node);
    assert(!m.present(ResourceKind::Node, node.id));
    lemma_absent_is_free(m, node.id);
    lemma_insert_relinked(m, node);
    lemma_relinked_measured(m, after, node.id, None, node.parent, geo);
}

/// Detaching a node keeps the caches of a sound scene right: the bounds of every subtree
/// that it leaves, and those of its own, are given up.
pub proof fn detach_keeps_measured(m: SceneModel, id: NodeId, geo: Geometry)
    requires
        m.sound(),
        m.nodes.contains_key(id),
        m.measured_right(geo),
    ensures
        m.detach(id).measured_right(geo),
{
    lemma_detach_tree(m, id);
    lemma_detach_relinked(m, id);
    lemma_relinked_measured(m, m.detach(id), id, m.nodes[id].parent, None, geo);
}

/// Whether caches are right depends on nothing but nodes, instances and meshes.
pub proof fn lemma_same_measured(m: SceneModel, after: SceneModel, geo: Geometry)
    requires
        acyclic(m.nodes),
        after.nodes == m.nodes,
        after.instances == m.instances,
        after.meshes == m.meshes,
        m.measured_right(geo),
    ensures
        after.measured_right(geo),
{
    assert forall|k: NodeId| #[trigger]
        after.nodes.contains_key(k) && after.nodes[k].bounds_cache is Some implies after.bounds_right(
        k,
        geo,
    ) by {
        assert(m.bounds_right(k, geo));
        let n = depth_below(m.nodes, k);
        assert(descent_ends(m.nodes, k));
        lemma_same_scene_bounds(m.unmeasured(), after.unmeasured(), k, n, geo);
        lemma_forgotten_shape(m.nodes);
        lemma_same_descends(m.nodes, forgotten(m.nodes), k, n);
        lemma_bounds_depth(m.unmeasured(), k, n, geo);
        lemma_bounds_depth(after.unmeasured(), k, n, geo);
    }
}

/// What touches neither links, place, payload nor flags of nodes keeps caches right.
pub proof fn other_changes_keep_measured(m: SceneModel, after: NodeMap, geo: Geometry)
    requires
        m.measured_right(geo),
        acyclic(m.nodes),
        same_shape(m.nodes, after),
        forall|k: NodeId| #[trigger]
            m.nodes.contains_key(k) ==> after[k].transform == m.nodes[k].transform
                && after[k].flags == m.nodes[k].flags && after[k].payload == m.nodes[k].payload
                && after[k].world_cache == m.nodes[k].world_cache && after[k].bounds_cache
                == m.nodes[k].bounds_cache,
    ensures
        m.with_nodes(after).measured_right(geo),
{
    let b = m.with_nodes(after);
    other_changes_keep_coherent(m.nodes, after, geo.compose);
    assert(acyclic(after)) by {
        assert forall|k: NodeId| #[trigger] climb_ends(after, k) by {
            assert(climb_ends(m.nodes, k));
            let n = choose|n: nat| climbs(m.nodes, k, n);
            lemma_same_climbs(m.nodes, after, k, n);
        }
        assert forall|k: NodeId| #[trigger] descent_ends(after, k) by {
            assert(descent_ends(m.nodes, k));
            let n = choose|n: nat| descends(m.nodes, k, n);
            lemma_same_descends(m.nodes, after, k, n);
        }
    }
    assert forall|k: NodeId| #[trigger] after.contains_key(k) == m.nodes.contains_key(k) by {}
    if exists|id: NodeId| #[trigger] after.contains_key(id) {
        let id = choose|id: NodeId| #[trigger] after.contains_key(id);
        assert(unmoved(m.nodes, after));
        assert forall|k: NodeId| #[trigger]
            after.contains_key(k) && after[k].bounds_cache is Some implies unconcerned(
            m.nodes,
            after,
            id,
            k,
        ) && m.nodes.contains_key(k) && after[k].bounds_cache == m.nodes[k].bounds_cache by {
            assert(m.nodes.contains_key(k));
            assert forall|x: NodeId| #[trigger] below(after, x, k) implies same_node(
                m.nodes,
                after,
                x,
            ) by {
                assert(m.nodes.contains_key(x) == after.contains_key(x));
            }
        }
        lemma_change_keeps_measured(m, b, id, geo);
    }
}

/// Asking what is shown keeps caches right.
pub proof fn visibility_queries_keep_measured(m: SceneModel, queried: NodeMap, geo: Geometry)
    requires
        m.measured_right(geo),
        acyclic(m.nodes),
        visibility_filled(m.nodes, queried),
    ensures
        m.with_nodes(queried).measured_right(geo),
{
    other_changes_keep_measured(m, queried, geo);
}

/// Showing and hiding touches nothing but what is shown, and what is cached of it.
proof fn lemma_visibility_aside(m: SceneModel, id: NodeId, visibility: Visibility)
    requires
        m.nodes.contains_key(id),
    ensures
        ({
            let b = m.set_node_visibility(id, visibility).nodes;
            &&& same_shape(m.nodes, b)
            &&& forall|k: NodeId| #[trigger]
                m.nodes.contains_key(k) ==> b[k].transform == m.nodes[k].transform && b[k].flags
                    == m.nodes[k].flags && b[k].payload == m.nodes[k].payload && b[k].world_cache
                    == m.nodes[k].world_cache && b[k].bounds_cache == m.nodes[k].bounds_cache
        }),
{
    assert(m.set_node_visibility(id, visibility).nodes.dom() =~= m.nodes.dom());
}

/// Showing or hiding a node keeps the caches of a sound scene right.
pub proof fn set_visibility_keeps_measured(
    m: SceneModel,
    id: NodeId,
    visibility: Visibility,
    geo: Geometry,
)
    requires
        m.sound(),
        m.measured_right(geo),
    ensures
        m.set_node_visibility(id, visibility).measured_right(geo),
{
    if m.nodes.contains_key(id) {
        let after = m.set_node_visibility(id, visibility);
        lemma_visibility_aside(m, id, visibility);
        lemma_moved_on(m, after, geo);
    }
}

/// The same where also the generation moves on.
proof fn lemma_moved_on(m: SceneModel, after: SceneModel, geo: Geometry)
    requires
        m.tree(),
        m.measured_right(geo),
        after.instances == m.instances,
        after.meshes == m.meshes,
        same_shape(m.nodes, after.nodes),
        forall|k: NodeId| #[trigger]
            m.nodes.contains_key(k) ==> after.nodes[k].transform == m.nodes[k].transform
                && after.nodes[k].flags == m.nodes[k].flags && after.nodes[k].payload
                == m.nodes[k].payload && after.nodes[k].world_cache == m.nodes[k].world_cache
                && after.nodes[k].bounds_cache == m.nodes[k].bounds_cache,
    ensures
        after.measured_right(geo),
{
    let mid = m.with_nodes(after.nodes);
    other_changes_keep_measured(m, after.nodes, geo);
    lemma_same_forest(m.nodes, mid.nodes, m.roots);
    lemma_same_measured(mid, after, geo);
}

/// Taken together, results are incomplete when one of them is.
pub proof fn lemma_merged_incomplete(
    results: Seq<BoundingResult>,
    merge: spec_fn(Aabb, Aabb) -> Aabb,
    i: int,
)
    requires
        0 <= i < results.len(),
        results[i].incomplete,
    ensures
        merged(results, merge).incomplete,
    decreases results.len(),
{
    if i < results.len() - 1 {
        lemma_merged_incomplete(results.drop_last(), merge, i);
    }
}

/// Bounds that are complete stay what they are when instances and meshes are added.
proof fn lemma_complete_bounds(a: SceneModel, b: SceneModel, k: NodeId, n: nat, geo: Geometry)
    requires
        a.nodes == b.nodes,
        a.instances.submap_of(b.instances),
        a.meshes.submap_of(b.meshes),
        !a.bounds_within(k, n, geo).incomplete,
        descends(a.nodes, k, n),
    ensures
        a.bounds_within(k, n, geo) == b.bounds_within(k, n, geo),
    decreases n,
{
    let node = a.nodes[k];
    if a.nodes.contains_key(k) && !node.flags.has(DOES_NOT_CONTRIBUTE_BOUNDING)
        && node.bounds_cache is None {
        if n > 0 {
            let c = a.child_bounds(k, (n - 1) as nat, geo);
            let d = b.child_bounds(k, (n - 1) as nat, geo);
            assert forall|i: int| 0 <= i < c.len() implies #[trigger] c[i] == d[i] by {
                if c[i].incomplete {
                    lemma_merged_incomplete(c, geo.merge, i);
                }
                assert(descends(a.nodes, a.nodes[k].children[i].id, (n - 1) as nat));
                lemma_complete_bounds(a, b, a.nodes[k].children[i].id, (n - 1) as nat, geo);
            }
            assert(c =~= d);
        }
        if let Some(h) = node.payload.handle() {
            assert(a.own_bounds(k, geo) is Some);
            assert(a.instances.contains_key(h.id));
            let mesh = a.instances[h.id].mesh.id;
            assert(a.meshes.contains_key(mesh));
            assert(b.instances.contains_key(h.id) && b.instances[h.id] == a.instances[h.id]);
            assert(b.meshes.contains_key(mesh) && b.meshes[mesh] == a.meshes[mesh]);
        }
        assert(a.own_bounds(k, geo) == b.own_bounds(k, geo));
    }
}

/// Caches stay right when instances and meshes are added that were not there: bounds are
/// only cached when nothing was missing.
pub proof fn lemma_more_keeps_measured(m: SceneModel, after: SceneModel, geo: Geometry)
    requires
        acyclic(m.nodes),
        after.nodes == m.nodes,
        m.instances.submap_of(after.instances),
        m.meshes.submap_of(after.meshes),
        m.measured_right(geo),
    ensures
        after.measured_right(geo),
{
    assert forall|k: NodeId| #[trigger]
        after.nodes.contains_key(k) && after.nodes[k].bounds_cache is Some implies after.bounds_right(
        k,
        geo,
    ) by {
        assert(m.bounds_right(k, geo));
        if !m.nodes[k].flags.has(DOES_NOT_CONTRIBUTE_BOUNDING) {
            let n = depth_below(m.nodes, k);
            assert(descent_ends(m.nodes, k));
            lemma_forgotten_shape(m.nodes);
            lemma_same_descends(m.nodes, forgotten(m.nodes), k, n);
            lemma_bounds_depth(m.unmeasured(), k, n, geo);
            lemma_bounds_depth(after.unmeasured(), k, n, geo);
            lemma_complete_bounds(m.unmeasured(), after.unmeasured(), k, n, geo);
        }
    }
}

/// Adding a mesh that was missing keeps caches right. The bounds of a node, and of all
/// above it, that were asked for while the mesh was missing are then computed with it.
pub proof fn add_mesh_keeps_measured(m: SceneModel, mesh: MeshModel, id: NodeId, geo: Geometry)
    requires
        m.sound(),
        !m.meshes.contains_key(mesh.id),
        m.measured_right(geo),
    ensures
        m.add_mesh(mesh).measured_right(geo),
        m.add_mesh(mesh).bounds_of(id, geo) == m.add_mesh(mesh).unmeasured().bounds_of(id, geo),
{
    let after = m.add_mesh(mesh);
    assert(m.meshes.submap_of(after.meshes));
    assert(m.instances.submap_of(after.instances));
    lemma_more_keeps_measured(m, after, geo);
    measured_answers_are_true(after, id, geo);
}

/// Where parents are there and climbs end, every node is rooted.
pub proof fn lemma_forest_rooted(nodes: NodeMap, id: NodeId, n: nat)
    requires
        parent_links(nodes),
        nodes.contains_key(id),
        climbs(nodes, id, n),
    ensures
        rooted(nodes, id),
    decreases n,
{
    lemma_rooted_step(nodes, id);
    if nodes[id].parent is Some {
        lemma_forest_rooted(nodes, nodes[id].parent->0, (n - 1) as nat);
    }
}

/// Adding an instance that was missing keeps caches right.
pub proof fn add_instance_keeps_measured(m: SceneModel, instance: InstanceParts, geo: Geometry)
    requires
        m.sound(),
        !m.instances.contains_key(instance.id),
        m.measured_right(geo),
    ensures
        m.add_instance(instance).measured_right(geo),
{
    let after = m.add_instance(instance);
    assert(m.meshes.submap_of(after.meshes));
    assert(m.instances.submap_of(after.instances));
    lemma_more_keeps_measured(m, after, geo);
}

/// Adding an instance together with a node that carries it keeps the caches of a sound
/// scene right.
pub proof fn add_instance_node_keeps_measured(
    m: SceneModel,
    id: NodeId,
    parent: Option<NodeId>,
    instance: InstanceParts,
    name: Option<Seq<char>>,
    transform: Transform,
    flags: NodeFlags,
    geo: Geometry,
)
    requires
        m.sound(),
        m.ledger.clock + 3 <= u64::MAX,
        m.node_generation < u64::MAX,
        forall|kind: ResourceKind| !#[trigger] m.present(kind, id),
        parent matches Some(p) ==> m.nodes.contains_key(p),
        id != instance.id,
        !m.instances.contains_key(instance.id),
        m.id_open(ResourceKind::Instance, instance.id),
        m.holds_outside(instance.handles()),
        m.measured_right(geo),
    ensures
        m.add_instance_node(id, parent, instance, name, transform, flags).measured_right(geo),
{
    let a = m.add_instance(instance);
    let b = a.add_node(id, parent, name, transform, flags);
    let after = m.add_instance_node(id, parent, instance, name, transform, flags);
    add_instance_keeps_measured(m, instance, geo);
    add_instance_node_keeps_sound(m, id, parent, instance, name, transform, flags);
    assert(!m.present(ResourceKind::Node, id));
    lemma_absent_is_free(m, id);
    lemma_add_relinked(a, id, parent, name, transform, flags);
    assert(relinked(a.nodes, after.nodes, id, None, parent)) by {
        assert(after.nodes.dom() =~= b.nodes.dom());
        assert(same_shape(b.nodes, after.nodes));
        assert forall|k: NodeId| k != id implies (#[trigger] a.nodes.contains_key(k)
            == after.nodes.contains_key(k)) by {
            assert(a.nodes.contains_key(k) == b.nodes.contains_key(k));
        }
        assert forall|k: NodeId| #[trigger] after.nodes.contains_key(k) implies kept(
            a.nodes,
            after.nodes,
            id,
            None,
            parent,
            k,
        ) by {
            assert(b.nodes.contains_key(k));
            assert(kept(a.nodes, b.nodes, id, None, parent, k));
            lemma_same_relations(b.nodes, after.nodes, k, id);
            if parent is Some {
                lemma_same_relations(b.nodes, after.nodes, k, parent->0);
            }
        }
    }
    lemma_relinked_measured(a, after, id, None, parent, geo);
}

} // verus!
