//! Reaping leaves nothing out of date.
//!
//! A node that is reaped leaves its children without a parent. The transforms and bounds
//! of their subtrees are given up, so that what is still cached in the scene is right; and
//! removing a node, which detaches it and reaps, keeps what is cached right as well.

use super::bounds::{lemma_bounds_depth, Geometry};
use super::bounds_coherence::{
    detach_keeps_measured, forgotten, lemma_forgotten_shape, lemma_same_measured,
};
use super::coherence::{
    coherent, detach_keeps_coherent, lemma_below_extend, lemma_rooted_step, lemma_same_placement,
    lemma_shape_rooted, lemma_uncached_shape, uncached,
};
use super::forest::{lemma_same_climbs, lemma_same_descends};
use super::laws::lemma_reap_one_effect;
use super::model::{
    lemma_reap_one_bound, lemma_release_all, lists_id, orphaned, reached, SceneModel,
};
use super::node_laws::{let_go, lemma_let_go_sound};
use super::ownership::{
    instance_refs, lemma_count_append, lemma_count_member, lemma_total_remove, node_refs,
};
use super::relinking::lemma_detach_relinked;
use super::soundness::{lemma_unnamed, owned_handles, reap_one_keeps_sound};
use super::tree::{
    above, below, below_within, child_links, climb, climb_ends, climbs, descends, descent_ends,
    forest, lemma_above_present, lemma_above_step, parent_links, NodeMap,
};
use super::visibility::{
    depth_below, lemma_visibility_depth, shown_below, visibility_within,
};
use super::visibility_coherence::{detach_keeps_seen, lemma_unseen_shape, seen_right, unseen};
use super::world::{
    height_above, lemma_world_height, rooted, transform_of, world, world_within, Compose,
};
use crate::resource::handle::{GenericId, Handle, NodeId, ResourceKind};
use crate::resource::material::opt_seq;
use vstd::prelude::*;

verus! {

/// The nodes once one that nothing lists was taken out.
pub open spec fn left_of(nodes: NodeMap, id: NodeId) -> NodeMap {
    orphaned(nodes.remove(id), nodes[id].children)
}

/// What is below a node is reached from its children once it is gone.
proof fn lemma_reached_from_above(nodes: NodeMap, id: NodeId, k: NodeId, n: nat)
    requires
        parent_links(nodes),
        k != id,
        climb(nodes, k, n) == Some(id),
    ensures
        reached(nodes.remove(id), nodes[id].children, k),
    decreases n,
{
    let rest = nodes.remove(id);
    let kids = nodes[id].children;
    let p = nodes[k].parent->0;
    if p == id {
        let i = choose|i: int| 0 <= i < kids.len() && (#[trigger] kids[i]).id == k;
        assert(below_within(rest, k, kids[i].id, 0));
        assert(below(rest, k, kids[i].id));
    } else {
        lemma_reached_from_above(nodes, id, p, (n - 1) as nat);
        let i = choose|i: int|
            0 <= i < kids.len() && below(rest, p, (#[trigger] kids[i]).id);
        let j = choose|j: nat| below_within(rest, p, kids[i].id, j);
        lemma_below_extend(rest, p, k, kids[i].id, j);
        assert(below(rest, k, kids[i].id));
    }
}

/// What keeps its cached transform or bounds was not below the node that is gone.
proof fn lemma_kept_aside(nodes: NodeMap, id: NodeId, k: NodeId)
    requires
        parent_links(nodes),
        left_of(nodes, id).contains_key(k),
        left_of(nodes, id)[k].world_cache is Some || left_of(nodes, id)[k].bounds_cache is Some,
    ensures
        !above(nodes, id, k),
        nodes.contains_key(k),
        k != id,
        left_of(nodes, id)[k].world_cache == nodes[k].world_cache,
        left_of(nodes, id)[k].bounds_cache == nodes[k].bounds_cache,
{
    let rest = nodes.remove(id);
    assert(rest.contains_key(k));
    assert(!reached(rest, nodes[id].children, k)) by {
        if reached(rest, nodes[id].children, k) {
            assert(rest.dom().filter(|x: u64| reached(rest, nodes[id].children, x)).contains(k));
        }
    }
    if above(nodes, id, k) {
        let n = choose|n: nat| climb(nodes, k, n) == Some(id);
        lemma_reached_from_above(nodes, id, k, n);
    }
}

/// A node that is not below the one that is gone keeps its parent.
proof fn lemma_left_parent(nodes: NodeMap, id: NodeId, k: NodeId)
    requires
        child_links(nodes),
        nodes.contains_key(id),
        nodes.contains_key(k),
        !above(nodes, id, k),
    ensures
        left_of(nodes, id).contains_key(k),
        left_of(nodes, id)[k].parent == nodes[k].parent,
        nodes[k].parent matches Some(p) ==> !above(nodes, id, p),
{
    lemma_above_step(nodes, id, k);
    lemma_above_step(nodes, id, id);
    assert(nodes.remove(id).contains_key(k));
    if lists_id(nodes[id].children, k) {
        assert(nodes[k].parent == Some(id));
    }
}

/// Away from the node that is gone, nodes are placed as before.
proof fn lemma_left_world(nodes: NodeMap, id: NodeId, k: NodeId, n: nat, compose: Compose)
    requires
        child_links(nodes),
        nodes.contains_key(id),
        !above(nodes, id, k),
        climbs(nodes, k, n),
    ensures
        climbs(left_of(nodes, id), k, n),
        rooted(left_of(nodes, id), k) == rooted(nodes, k),
        world_within(uncached(left_of(nodes, id)), k, n, compose) == world_within(
            uncached(nodes),
            k,
            n,
            compose,
        ),
    decreases n,
{
    let b = left_of(nodes, id);
    assert(uncached(nodes).contains_key(k) == nodes.contains_key(k));
    assert(uncached(b).contains_key(k) == b.contains_key(k));
    if nodes.contains_key(k) {
        lemma_left_parent(nodes, id, k);
        lemma_rooted_step(nodes, k);
        lemma_rooted_step(b, k);
        if nodes[k].parent is Some {
            lemma_left_world(nodes, id, nodes[k].parent->0, (n - 1) as nat, compose);
        }
    } else {
        assert(!nodes.remove(id).contains_key(k));
        assert(!b.contains_key(k));
        if rooted(nodes, k) {
            let r = choose|r: NodeId| #[trigger] above(nodes, r, k) && nodes[r].parent is None;
            lemma_above_present(nodes, r, k);
        }
        if rooted(b, k) {
            let r = choose|r: NodeId| #[trigger] above(b, r, k) && b[r].parent is None;
            lemma_above_present(b, r, k);
        }
    }
}

/// Taking out a node that nothing lists keeps transforms right.
proof fn lemma_left_coherent(nodes: NodeMap, roots: Seq<Handle>, id: NodeId, compose: Compose)
    requires
        coherent(nodes, compose),
        forest(nodes, roots),
        nodes.contains_key(id),
    ensures
        coherent(left_of(nodes, id), compose),
{
    let b = left_of(nodes, id);
    assert forall|k: NodeId| #[trigger] b.contains_key(k) && b[k].world_cache is Some implies rooted(
        b,
        k,
    ) && b[k].world_cache == Some(world(uncached(b), k, compose)) by {
        lemma_kept_aside(nodes, id, k);
        assert(climb_ends(nodes, k));
        let n = height_above(nodes, k);
        lemma_left_world(nodes, id, k, n, compose);
        lemma_uncached_shape(nodes);
        lemma_uncached_shape(b);
        lemma_same_climbs(nodes, uncached(nodes), k, n);
        lemma_same_climbs(b, uncached(b), k, n);
        lemma_world_height(uncached(nodes), k, n, compose);
        lemma_world_height(uncached(b), k, n, compose);
    }
}

/// Taking out a node that nothing lists keeps what is seen right.
proof fn lemma_left_seen(nodes: NodeMap, roots: Seq<Handle>, id: NodeId)
    requires
        seen_right(nodes),
        forest(nodes, roots),
        forall|p: NodeId| #[trigger] nodes.contains_key(p) ==> !lists_id(nodes[p].children, id),
    ensures
        seen_right(left_of(nodes, id)),
{
    let b = left_of(nodes, id);
    assert forall|k: NodeId| #[trigger]
        b.contains_key(k) && b[k].visibility_cache is Some implies b[k].visibility_cache == Some(
        shown_below(unseen(b), k),
    ) by {
        assert(nodes.remove(id).contains_key(k));
        assert(descent_ends(nodes, k));
        let n = depth_below(nodes, k);
        lemma_left_shown(nodes, id, k, n);
        let ub = unseen(b);
        let ua = unseen(nodes);
        lemma_unseen_shape(nodes);
        lemma_unseen_shape(b);
        lemma_same_descends(nodes, ua, k, n);
        lemma_same_descends(b, ub, k, n);
        lemma_visibility_depth(ua, k, n);
        lemma_visibility_depth(ub, k, n);
    }
}

/// What is shown of the others does not depend on a node that nothing lists.
proof fn lemma_left_shown(nodes: NodeMap, id: NodeId, k: NodeId, n: nat)
    requires
        k != id,
        descends(nodes, k, n),
        forall|p: NodeId| #[trigger] nodes.contains_key(p) ==> !lists_id(nodes[p].children, id),
    ensures
        descends(left_of(nodes, id), k, n),
        visibility_within(
            unseen(left_of(nodes, id)),
            k,
            n,
        ) == visibility_within(
            unseen(nodes),
            k,
            n,
        ),
    decreases n,
{
    let b = left_of(nodes, id);
    let ua = unseen(nodes);
    let ub = unseen(b);
    assert(ua.contains_key(k) == nodes.contains_key(k));
    assert(ub.contains_key(k) == b.contains_key(k));
    assert(nodes.remove(id).contains_key(k) == nodes.contains_key(k));
    assert(b.contains_key(k) == nodes.contains_key(k));
    if nodes.contains_key(k) {
        let children = nodes[k].children;
        assert(b[k].children == children && ua[k].children == children && ub[k].children
            == children);
        assert forall|i: int| 0 <= i < children.len() implies n > 0 && descends(
            b,
            (#[trigger] children[i]).id,
            (n - 1) as nat,
        ) && visibility_within(ub, children[i].id, (n - 1) as nat)
            == visibility_within(ua, children[i].id, (n - 1) as nat) by {
            assert(descends(nodes, nodes[k].children[i].id, (n - 1) as nat));
            assert(children[i].id != id) by {
                if children[i].id == id {
                    assert(lists_id(nodes[k].children, id));
                }
            }
            lemma_left_shown(nodes, id, children[i].id, (n - 1) as nat);
        }
        if n > 0 {
            assert forall|i: int|
                0 <= i < ua[k].children.len() implies visibility_within(
                ua,
                (#[trigger] ua[k].children[i]).id,
                (n - 1) as nat,
            ) == visibility_within(ub, ub[k].children[i].id, (n - 1) as nat) by {
                assert(children[i] == ua[k].children[i]);
            }
            assert forall|i: int|
                0 <= i < ub[k].children.len() implies visibility_within(
                ua,
                ua[k].children[i].id,
                (n - 1) as nat,
            ) == visibility_within(
                ub,
                (#[trigger] ub[k].children[i]).id,
                (n - 1) as nat,
            ) by {
                assert(children[i] == ub[k].children[i]);
            }
        }
    }
}

/// The bounds of what is not below the node that is gone are as before.
proof fn lemma_left_bounds(
    m: SceneModel,
    after: SceneModel,
    id: NodeId,
    k: NodeId,
    n: nat,
    geo: Geometry,
)
    requires
        m.tree(),
        m.nodes.contains_key(id),
        forall|p: NodeId| #[trigger] m.nodes.contains_key(p) ==> !lists_id(m.nodes[p].children, id),
        after.nodes == left_of(m.nodes, id),
        after.instances == m.instances,
        after.meshes == m.meshes,
        !above(m.nodes, id, k),
        descends(m.nodes, k, n),
    ensures
        after.unmeasured().bounds_within(k, n, geo) == m.unmeasured().bounds_within(k, n, geo),
        descends(after.nodes, k, n),
    decreases n,
{
    let a = m.unmeasured();
    let b = after.unmeasured();
    lemma_above_step(m.nodes, id, id);
    assert(a.nodes.contains_key(k) == m.nodes.contains_key(k));
    assert(b.nodes.contains_key(k) == after.nodes.contains_key(k));
    assert(m.nodes.remove(id).contains_key(k) == m.nodes.contains_key(k));
    assert(after.nodes.contains_key(k) == m.nodes.contains_key(k));
    if m.nodes.contains_key(k) {
        let children = m.nodes[k].children;
        assert(after.nodes[k].children == children);
        assert forall|i: int| 0 <= i < children.len() implies n > 0 && descends(
            after.nodes,
            (#[trigger] children[i]).id,
            (n - 1) as nat,
        ) && a.bounds_within(children[i].id, (n - 1) as nat, geo) == b.bounds_within(
            children[i].id,
            (n - 1) as nat,
            geo,
        ) by {
            let c = children[i].id;
            assert(descends(m.nodes, m.nodes[k].children[i].id, (n - 1) as nat));
            assert(lists_id(m.nodes[k].children, c));
            assert(!above(m.nodes, id, c)) by {
                if above(m.nodes, id, c) {
                    lemma_above_present(m.nodes, id, c);
                    lemma_above_step(m.nodes, id, c);
                    assert(m.nodes[c].parent == Some(k));
                }
            }
            lemma_left_bounds(m, after, id, c, (n - 1) as nat, geo);
        }
        if n > 0 {
            assert(a.child_bounds(k, (n - 1) as nat, geo) =~= b.child_bounds(
                k,
                (n - 1) as nat,
                geo,
            ));
        }
        lemma_left_own(m, after, id, k, geo);
    }
}

/// What is not below the node that is gone carries the same geometry in the same place.
proof fn lemma_left_own(m: SceneModel, after: SceneModel, id: NodeId, k: NodeId, geo: Geometry)
    requires
        m.tree(),
        m.nodes.contains_key(id),
        m.nodes.contains_key(k),
        after.nodes == left_of(m.nodes, id),
        after.instances == m.instances,
        after.meshes == m.meshes,
        !above(m.nodes, id, k),
    ensures
        after.unmeasured().own_bounds(k, geo) == m.unmeasured().own_bounds(k, geo),
{
    let a = forgotten(m.nodes);
    let b = forgotten(after.nodes);
    assert(climb_ends(m.nodes, k));
    let h = height_above(m.nodes, k);
    lemma_left_parent(m.nodes, id, k);
    lemma_left_world(m.nodes, id, k, h, geo.compose);
    lemma_forgotten_shape(m.nodes);
    lemma_forgotten_shape(after.nodes);
    lemma_same_placement(m.nodes, a, k, h, geo.compose);
    lemma_same_placement(after.nodes, b, k, h, geo.compose);
    lemma_same_climbs(m.nodes, a, k, h);
    lemma_same_climbs(after.nodes, b, k, h);
    lemma_world_height(a, k, h, geo.compose);
    lemma_world_height(b, k, h, geo.compose);
    lemma_shape_rooted(m.nodes, a, k);
    lemma_shape_rooted(after.nodes, b, k);
    assert(a.contains_key(k) && b.contains_key(k));
    assert(transform_of(a, k, geo.compose) == transform_of(b, k, geo.compose));
}

/// Taking out a node that nothing lists keeps caches right.
proof fn lemma_left_measured(m: SceneModel, after: SceneModel, id: NodeId, geo: Geometry)
    requires
        m.tree(),
        m.measured_right(geo),
        m.nodes.contains_key(id),
        forall|p: NodeId| #[trigger] m.nodes.contains_key(p) ==> !lists_id(m.nodes[p].children, id),
        after.nodes == left_of(m.nodes, id),
        after.instances == m.instances,
        after.meshes == m.meshes,
    ensures
        after.measured_right(geo),
{
    lemma_left_coherent(m.nodes, m.roots, id, geo.compose);
    assert forall|k: NodeId| #[trigger]
        after.nodes.contains_key(k) && after.nodes[k].bounds_cache is Some implies after.bounds_right(
        k,
        geo,
    ) by {
        lemma_kept_aside(m.nodes, id, k);
        assert(m.nodes.remove(id).contains_key(k));
        assert(m.bounds_right(k, geo));
        assert(descent_ends(m.nodes, k));
        let n = depth_below(m.nodes, k);
        lemma_left_bounds(m, after, id, k, n, geo);
        lemma_forgotten_shape(m.nodes);
        lemma_forgotten_shape(after.nodes);
        lemma_same_descends(m.nodes, forgotten(m.nodes), k, n);
        lemma_same_descends(after.nodes, forgotten(after.nodes), k, n);
        lemma_bounds_depth(m.unmeasured(), k, n, geo);
        lemma_bounds_depth(after.unmeasured(), k, n, geo);
    }
}

impl SceneModel {
    /// Whether a handle is one of those that keep its resource.
    pub open spec fn keeps(self, h: Handle) -> bool {
        self.ledger.slots.contains_key(h.id) && h.core == Some(self.ledger.slots[h.id])
    }

    /// Whether nodes keep the instances that they carry, and instances their meshes, where
    /// these are there.
    pub open spec fn keeps_geometry(self) -> bool {
        &&& forall|k: NodeId| #[trigger]
            self.nodes.contains_key(k) ==> (self.nodes[k].payload.handle() matches Some(h)
                ==> self.instances.contains_key(h.id) ==> self.keeps(h))
        &&& forall|i: GenericId| #[trigger]
            self.instances.contains_key(i) ==> self.meshes.contains_key(self.instances[i].mesh.id)
                ==> self.keeps(self.instances[i].mesh)
    }
}

/// What a node or an instance keeps is live.
proof fn lemma_kept_is_live(m: SceneModel, h: Handle)
    requires
        m.sound(),
        m.keeps(h),
        (exists|k: NodeId| #[trigger] m.nodes.contains_key(k) && m.nodes[k].payload.handle()
            == Some(h)) || (exists|i: GenericId| #[trigger]
            m.instances.contains_key(i) && m.instances[i].mesh == h),
    ensures
        m.ledger.slot_live(h.id),
{
    let c = m.ledger.slots[h.id];
    if exists|k: NodeId| #[trigger]
        m.nodes.contains_key(k) && m.nodes[k].payload.handle() == Some(h) {
        let k = choose|k: NodeId| #[trigger]
            m.nodes.contains_key(k) && m.nodes[k].payload.handle() == Some(h);
        let pay = opt_seq(m.nodes[k].payload.handle());
        assert(pay[0] == h);
        lemma_count_member(pay, 0, c);
        lemma_count_append(m.nodes[k].children, pay, c);
        lemma_total_remove(m.nodes, node_refs(c), k);
    } else {
        let i = choose|i: GenericId| #[trigger]
            m.instances.contains_key(i) && m.instances[i].mesh == h;
        let hs = m.instances[i].handles();
        assert(hs[0] == h);
        lemma_count_member(hs, 0, c);
        lemma_total_remove(m.instances, instance_refs(c), i);
    }
    assert(m.refs(c) >= 1);
    assert(m.refs(c) <= m.ledger.strong(c));
}

/// What handling one entry of the queue does to the nodes: nothing, or one that nothing
/// lists is taken out.
pub proof fn lemma_reap_one_nodes(m: SceneModel)
    requires
        m.sound(),
        m.ledger.dropped.len() > 0,
    ensures
        ({
            let entry = m.ledger.dropped[0];
            let goes = m.present(entry.0, entry.1) && !m.ledger.slot_live(entry.1);
            if goes && entry.0 == ResourceKind::Node {
                &&& m.reap_one().nodes == left_of(m.nodes, entry.1)
                &&& m.reap_one().instances == m.instances
                &&& m.reap_one().meshes == m.meshes
                &&& forall|p: NodeId| #[trigger]
                    m.nodes.contains_key(p) ==> !lists_id(m.nodes[p].children, entry.1)
            } else {
                &&& m.reap_one().nodes == m.nodes
                &&& m.reap_one().instances == (if goes && entry.0 == ResourceKind::Instance {
                    m.instances.remove(entry.1)
                } else {
                    m.instances
                })
                &&& m.reap_one().meshes == (if goes && entry.0 == ResourceKind::Mesh {
                    m.meshes.remove(entry.1)
                } else {
                    m.meshes
                })
            }
        }),
        forall|x: GenericId| #[trigger]
            m.ledger.slots.contains_key(x) && m.ledger.slot_live(x)
                ==> m.reap_one().ledger.slots.contains_key(x) && m.reap_one().ledger.slots[x]
                == m.ledger.slots[x],
{
    let entry = m.ledger.dropped[0];
    let rest = m.with_ledger(m.ledger.without_oldest());
    assert(rest.ledger.slot_live(entry.1) == m.ledger.slot_live(entry.1));
    if m.present(entry.0, entry.1) && !m.ledger.slot_live(entry.1) {
        if entry.0 == ResourceKind::Node {
            lemma_unnamed(m, entry.0, entry.1);
        }
        assert(rest.ledger.wf());
        lemma_release_all(
            rest.ledger,
            owned_handles(m, entry.0, entry.1),
        );
    }
}

/// Reaping keeps a sound scene coherent: the transforms of what is left without a parent
/// are given up.
pub proof fn reap_keeps_coherent(m: SceneModel, compose: Compose)
    requires
        m.sound(),
        m.node_generation + m.nodes.dom().len() <= u64::MAX,
        coherent(m.nodes, compose),
    ensures
        coherent(m.reaped().nodes, compose),
    decreases m.ledger.drain_bound(),
{
    if m.ledger.dropped.len() > 0 {
        lemma_reap_one_bound(m);
        lemma_reap_one_effect(m);
        reap_one_keeps_sound(m);
        lemma_reap_one_nodes(m);
        if m.reap_one().nodes != m.nodes {
            lemma_left_coherent(m.nodes, m.roots, m.ledger.dropped[0].1, compose);
        }
        reap_keeps_coherent(m.reap_one(), compose);
    }
}

/// Reaping keeps the visibility caches of a sound scene right.
pub proof fn reap_keeps_seen(m: SceneModel)
    requires
        m.sound(),
        m.node_generation + m.nodes.dom().len() <= u64::MAX,
        seen_right(m.nodes),
    ensures
        seen_right(m.reaped().nodes),
    decreases m.ledger.drain_bound(),
{
    if m.ledger.dropped.len() > 0 {
        lemma_reap_one_bound(m);
        lemma_reap_one_effect(m);
        reap_one_keeps_sound(m);
        lemma_reap_one_nodes(m);
        if m.reap_one().nodes != m.nodes {
            lemma_left_seen(m.nodes, m.roots, m.ledger.dropped[0].1);
        }
        reap_keeps_seen(m.reap_one());
    }
}

/// Reaping takes nothing that is kept.
proof fn lemma_reap_one_keeps_geometry(m: SceneModel)
    requires
        m.sound(),
        m.ledger.dropped.len() > 0,
        m.keeps_geometry(),
    ensures
        m.reap_one().keeps_geometry(),
{
    let after = m.reap_one();
    let gone = m.ledger.dropped[0].1;
    lemma_reap_one_nodes(m);
    assert forall|k: NodeId| #[trigger] after.nodes.contains_key(k) implies (
    after.nodes[k].payload.handle() matches Some(h) ==> after.instances.contains_key(h.id)
        ==> after.keeps(h)) by {
        assert(m.nodes.contains_key(k));
        assert(after.nodes[k].payload == m.nodes[k].payload);
        if let Some(h) = m.nodes[k].payload.handle() {
            if after.instances.contains_key(h.id) {
                assert(m.keeps(h));
                lemma_kept_is_live(m, h);
                assert(m.ledger.slots.contains_key(h.id));
            }
        }
    }
    assert forall|i: GenericId| #[trigger]
        after.instances.contains_key(i) && after.meshes.contains_key(
            after.instances[i].mesh.id,
        ) implies after.keeps(after.instances[i].mesh) by {
        assert(m.instances.contains_key(i));
        let h = m.instances[i].mesh;
        assert(m.keeps(h));
        lemma_kept_is_live(m, h);
        assert(m.ledger.slots.contains_key(h.id));
    }
}

/// Bounds are the same where all nodes carry the same geometry.
proof fn lemma_same_own_bounds(a: SceneModel, b: SceneModel, k: NodeId, n: nat, geo: Geometry)
    requires
        a.nodes == b.nodes,
        forall|x: NodeId| #[trigger]
            a.nodes.contains_key(x) ==> a.own_bounds(x, geo) == b.own_bounds(x, geo),
    ensures
        a.bounds_within(k, n, geo) == b.bounds_within(k, n, geo),
    decreases n,
{
    if a.nodes.contains_key(k) && n > 0 {
        let c = a.child_bounds(k, (n - 1) as nat, geo);
        let d = b.child_bounds(k, (n - 1) as nat, geo);
        assert forall|i: int| 0 <= i < c.len() implies #[trigger] c[i] == d[i] by {
            lemma_same_own_bounds(a, b, a.nodes[k].children[i].id, (n - 1) as nat, geo);
        }
        assert(c =~= d);
    }
}

/// What a node carries is not reaped.
proof fn lemma_unused_own(m: SceneModel, k: NodeId, geo: Geometry)
    requires
        m.sound(),
        m.ledger.dropped.len() > 0,
        m.keeps_geometry(),
        m.reap_one().nodes == m.nodes,
        m.nodes.contains_key(k),
    ensures
        m.unmeasured().own_bounds(k, geo) == m.reap_one().unmeasured().own_bounds(k, geo),
{
    let after = m.reap_one();
    let entry = m.ledger.dropped[0];
    lemma_reap_one_nodes(m);
    let goes = m.present(entry.0, entry.1) && !m.ledger.slot_live(entry.1);
    if goes && entry.0 == ResourceKind::Node {
        assert(!left_of(m.nodes, entry.1).contains_key(entry.1));
    }
    assert(m.unmeasured().nodes == after.unmeasured().nodes);
    assert(m.unmeasured().nodes[k].payload == m.nodes[k].payload);
    if let Some(h) = m.nodes[k].payload.handle() {
        if m.instances.contains_key(h.id) {
            assert(m.keeps(h));
            lemma_kept_is_live(m, h);
            assert(after.instances.contains_key(h.id) && after.instances[h.id]
                == m.instances[h.id]);
            let mesh = m.instances[h.id].mesh;
            if m.meshes.contains_key(mesh.id) {
                assert(m.keeps(mesh));
                lemma_kept_is_live(m, mesh);
                assert(after.meshes.contains_key(mesh.id) && after.meshes[mesh.id]
                    == m.meshes[mesh.id]);
            } else {
                assert(!after.meshes.contains_key(mesh.id));
            }
        } else {
            assert(!after.instances.contains_key(h.id));
        }
    }
}

/// Taking out what no node carries keeps caches right.
proof fn lemma_unused_measured(m: SceneModel, geo: Geometry)
    requires
        m.sound(),
        m.ledger.dropped.len() > 0,
        m.keeps_geometry(),
        m.measured_right(geo),
        m.reap_one().nodes == m.nodes,
    ensures
        m.reap_one().measured_right(geo),
{
    let after = m.reap_one();
    let a = m.unmeasured();
    let b = after.unmeasured();
    assert forall|k: NodeId| #[trigger] a.nodes.contains_key(k) implies a.own_bounds(k, geo)
        == b.own_bounds(k, geo) by {
        lemma_unused_own(m, k, geo);
    }
    assert forall|k: NodeId| #[trigger]
        after.nodes.contains_key(k) && after.nodes[k].bounds_cache is Some implies after.bounds_right(
        k,
        geo,
    ) by {
        assert(m.bounds_right(k, geo));
        assert(descent_ends(m.nodes, k));
        let n = depth_below(m.nodes, k);
        lemma_same_own_bounds(a, b, k, n, geo);
        lemma_forgotten_shape(m.nodes);
        lemma_same_descends(m.nodes, forgotten(m.nodes), k, n);
        lemma_bounds_depth(a, k, n, geo);
        lemma_bounds_depth(b, k, n, geo);
    }
}

/// Reaping keeps the caches of a sound scene right, where nodes keep the instances that
/// they carry, and instances their meshes.
pub proof fn reap_keeps_measured(m: SceneModel, geo: Geometry)
    requires
        m.sound(),
        m.node_generation + m.nodes.dom().len() <= u64::MAX,
        m.keeps_geometry(),
        m.measured_right(geo),
    ensures
        m.reaped().measured_right(geo),
        m.reaped().keeps_geometry(),
    decreases m.ledger.drain_bound(),
{
    if m.ledger.dropped.len() > 0 {
        lemma_reap_one_bound(m);
        lemma_reap_one_effect(m);
        reap_one_keeps_sound(m);
        lemma_reap_one_nodes(m);
        lemma_reap_one_keeps_geometry(m);
        if m.reap_one().nodes != m.nodes {
            lemma_left_measured(m, m.reap_one(), m.ledger.dropped[0].1, geo);
        } else {
            lemma_unused_measured(m, geo);
        }
        reap_keeps_measured(m.reap_one(), geo);
    }
}

/// Removing a node keeps a sound scene coherent.
pub proof fn remove_node_keeps_coherent(m: SceneModel, id: NodeId, compose: Compose)
    requires
        m.sound(),
        m.node_generation + 1 + m.nodes.dom().len() <= u64::MAX,
        coherent(m.nodes, compose),
    ensures
        coherent(m.remove_node(id).nodes, compose),
{
    if m.nodes.contains_key(id) {
        detach_keeps_coherent(m, id, compose);
        lemma_let_go_sound(m, id);
        reap_keeps_coherent(let_go(m, id), compose);
    }
}

/// Removing a node keeps the visibility caches of a sound scene right.
pub proof fn remove_node_keeps_seen(m: SceneModel, id: NodeId)
    requires
        m.sound(),
        m.node_generation + 1 + m.nodes.dom().len() <= u64::MAX,
        seen_right(m.nodes),
    ensures
        seen_right(m.remove_node(id).nodes),
{
    if m.nodes.contains_key(id) {
        detach_keeps_seen(m, id);
        lemma_let_go_sound(m, id);
        reap_keeps_seen(let_go(m, id));
    }
}

/// Removing a node keeps the caches of a sound scene right, where nodes keep the instances
/// that they carry, and instances their meshes.
pub proof fn remove_node_keeps_measured(m: SceneModel, id: NodeId, geo: Geometry)
    requires
        m.sound(),
        m.node_generation + 1 + m.nodes.dom().len() <= u64::MAX,
        m.keeps_geometry(),
        m.measured_right(geo),
    ensures
        m.remove_node(id).measured_right(geo),
        m.remove_node(id).keeps_geometry(),
{
    if m.nodes.contains_key(id) {
        let mid = let_go(m, id);
        detach_keeps_measured(m, id, geo);
        lemma_let_go_sound(m, id);
        lemma_detach_relinked(m, id);
        lemma_same_measured(m.detach(id), mid, geo);
        assert(mid.keeps_geometry()) by {
            assert forall|k: NodeId| #[trigger] mid.nodes.contains_key(k) implies (
            mid.nodes[k].payload.handle() matches Some(h) ==> mid.instances.contains_key(h.id)
                ==> mid.keeps(h)) by {
                assert(m.nodes.contains_key(k));
            }
            assert forall|i: GenericId| #[trigger]
                mid.instances.contains_key(i) && mid.meshes.contains_key(
                    mid.instances[i].mesh.id,
                ) implies mid.keeps(mid.instances[i].mesh) by {
                assert(m.instances.contains_key(i));
            }
        }
        reap_keeps_measured(mid, geo);
    }
}

} // verus!
