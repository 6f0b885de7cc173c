//! What rebinding promises.

use super::model::{lists_id, SceneModel};
use super::nodes::lemma_below_present;
use super::rebind::{
    lemma_below_child, lemma_reachable_present, unbind, unbind_all, unbind_payload,
};
use super::rebuild::{
    all_canonical_in, canonical_in, cores_from, face_role, instance_role, line_role, node_role,
    point_role, tidy,
};
use super::trace_laws::older_than;
use super::tree::{
    below, below_within, climb_ends, climbs, descends, descent_ends, distinct, forest, NodeMap,
};
use crate::resource::handle::{GenericId, Handle, LedgerModel, NodeId, ResourceKind};
use crate::resource::instance::opt_id;
use crate::resource::material::opt_seq;
use crate::resource::node::NodePayload;
use vstd::prelude::*;

verus! {

impl SceneModel {
    /// Whether every texture that a material refers to is there.
    pub open spec fn textures_present(self) -> bool {
        &&& forall|k: u64, id: GenericId|
            self.face_materials.contains_key(k) && #[trigger] self.face_materials[k].samples(id)
                ==> self.textures.contains_key(id)
        &&& forall|k: u64| #[trigger]
            self.line_materials.contains_key(k) ==> (opt_id(
                self.line_materials[k].base_color_texture,
            ) matches Some(id) ==> self.textures.contains_key(id))
        &&& forall|k: u64| #[trigger]
            self.point_materials.contains_key(k) ==> (opt_id(
                self.point_materials[k].base_color_texture,
            ) matches Some(id) ==> self.textures.contains_key(id))
    }

    /// Whether every root is there.
    pub open spec fn roots_present(self) -> bool {
        forall|i: int|
            0 <= i < self.roots.len() ==> self.nodes.contains_key((#[trigger] self.roots[i]).id)
    }
}

/// Handles that agree up to their cores agree in their ids.
proof fn lemma_unbound_ids(a: Seq<Handle>, b: Seq<Handle>)
    requires
        unbind_all(a) == unbind_all(b),
    ensures
        a.len() == b.len(),
        forall|i: int| 0 <= i < a.len() ==> (#[trigger] a[i]).id == b[i].id,
        forall|id: u64| #[trigger] lists_id(a, id) ==> lists_id(b, id),
        forall|id: u64| #[trigger] lists_id(b, id) ==> lists_id(a, id),
{
    assert(unbind_all(a).len() == a.len());
    assert(unbind_all(b).len() == b.len());
    assert forall|i: int| 0 <= i < a.len() implies (#[trigger] a[i]).id == b[i].id by {
        assert(unbind_all(a)[i] == unbind(a[i]));
        assert(unbind_all(b)[i] == unbind(b[i]));
    }
    assert forall|id: u64| #[trigger] lists_id(a, id) implies lists_id(b, id) by {
        let i = choose|i: int| 0 <= i < a.len() && (#[trigger] a[i]).id == id;
        assert(b[i].id == id);
    }
    assert forall|id: u64| #[trigger] lists_id(b, id) implies lists_id(a, id) by {
        let i = choose|i: int| 0 <= i < b.len() && (#[trigger] b[i]).id == id;
        assert(a[i].id == id);
    }
}

/// What stays the same of a node.
proof fn lemma_node_kept(m: SceneModel, r: SceneModel, k: u64)
    requires
        r.holds_live_of(m),
        r.nodes.contains_key(k),
    ensures
        m.nodes.contains_key(k),
        m.reachable(k),
        r.nodes[k].parent == m.nodes[k].parent,
        r.nodes[k].children.len() == m.nodes[k].children.len(),
        forall|i: int|
            0 <= i < m.nodes[k].children.len() ==> (#[trigger] r.nodes[k].children[i]).id
                == m.nodes[k].children[i].id,
        forall|id: u64| #[trigger]
            lists_id(r.nodes[k].children, id) <==> lists_id(m.nodes[k].children, id),
        opt_id(r.nodes[k].payload.handle()) == opt_id(m.nodes[k].payload.handle()),
{
    assert(m.reachable_nodes().contains(k));
    let a = r.nodes[k].unbound();
    let b = m.nodes[k].unbound();
    assert(a == b);
    assert(a.parent == b.parent);
    lemma_unbound_ids(r.nodes[k].children, m.nodes[k].children);
    assert(a.payload == b.payload);
    assert(opt_id(a.payload.handle()) == opt_id(r.nodes[k].payload.handle()));
    assert(opt_id(b.payload.handle()) == opt_id(m.nodes[k].payload.handle()));
}

/// A child of a reachable node is reachable, if it is there.
proof fn lemma_reachable_child(m: SceneModel, k: NodeId, i: int)
    requires
        m.reachable(k),
        0 <= i < m.nodes[k].children.len(),
        m.nodes.contains_key(m.nodes[k].children[i].id),
    ensures
        m.reachable(m.nodes[k].children[i].id),
{
    let j = choose|j: int|
        0 <= j < m.roots.len() && below(m.nodes, k, (#[trigger] m.roots[j]).id);
    lemma_below_child(m.nodes, m.roots[j].id, k, i);
}

/// A root that is there is reachable.
proof fn lemma_reachable_root(m: SceneModel, i: int)
    requires
        0 <= i < m.roots.len(),
        m.nodes.contains_key(m.roots[i].id),
    ensures
        m.reachable(m.roots[i].id),
{
    assert(below_within(m.nodes, m.roots[i].id, m.roots[i].id, 0));
    assert(below(m.nodes, m.roots[i].id, m.roots[i].id));
}

/// A node below another is that one, or listed by a node below it.
proof fn lemma_below_listed(nodes: NodeMap, c: NodeId, top: NodeId, n: nat) -> (q: NodeId)
    requires
        below_within(nodes, c, top, n),
        c != top,
    ensures
        below(nodes, q, top),
        nodes.contains_key(q),
        lists_id(nodes[q].children, c),
    decreases n,
{
    let i = choose|i: int|
        0 <= i < nodes[top].children.len() && below_within(
            nodes,
            c,
            (#[trigger] nodes[top].children[i]).id,
            (n - 1) as nat,
        );
    let next = nodes[top].children[i].id;
    if c == next {
        assert(below_within(nodes, top, top, 0));
        assert(lists_id(nodes[top].children, c));
        top
    } else {
        let q = lemma_below_listed(nodes, c, next, (n - 1) as nat);
        let d = choose|d: nat| below_within(nodes, q, next, d);
        assert(below_within(nodes, q, nodes[top].children[i].id, ((d + 1) - 1) as nat));
        assert(below_within(nodes, q, top, d + 1));
        q
    }
}

/// A reachable node is a root, or listed by a reachable node.
proof fn lemma_reachable_listed(m: SceneModel, k: NodeId)
    requires
        m.reachable(k),
    ensures
        lists_id(m.roots, k) || exists|q: NodeId| #[trigger]
            m.reachable(q) && m.nodes.contains_key(q) && lists_id(m.nodes[q].children, k),
{
    let j = choose|j: int|
        0 <= j < m.roots.len() && below(m.nodes, k, (#[trigger] m.roots[j]).id);
    let top = m.roots[j].id;
    if k == top {
        assert(lists_id(m.roots, k));
    } else {
        let n = choose|n: nat| below_within(m.nodes, k, top, n);
        let q = lemma_below_listed(m.nodes, k, top, n);
        assert(m.reachable(q));
    }
}

proof fn lemma_kept_climbs(m: SceneModel, r: SceneModel, id: NodeId, n: nat)
    requires
        r.holds_live_of(m),
        climbs(m.nodes, id, n),
    ensures
        climbs(r.nodes, id, n),
    decreases n,
{
    if r.nodes.contains_key(id) {
        lemma_node_kept(m, r, id);
        if m.nodes[id].parent is Some {
            lemma_kept_climbs(m, r, m.nodes[id].parent->0, (n - 1) as nat);
        }
    }
}

proof fn lemma_kept_descends(m: SceneModel, r: SceneModel, id: NodeId, n: nat)
    requires
        r.holds_live_of(m),
        descends(m.nodes, id, n),
    ensures
        descends(r.nodes, id, n),
    decreases n,
{
    if r.nodes.contains_key(id) {
        lemma_node_kept(m, r, id);
        assert forall|i: int|
            #![trigger r.nodes[id].children[i]]
            0 <= i < r.nodes[id].children.len() implies n > 0 && descends(
            r.nodes,
            r.nodes[id].children[i].id,
            (n - 1) as nat,
        ) by {
            assert(descends(m.nodes, m.nodes[id].children[i].id, (n - 1) as nat));
            lemma_kept_descends(m, r, m.nodes[id].children[i].id, (n - 1) as nat);
        }
    }
}

/// What is kept of a forest is a forest.
proof fn lemma_kept_forest(m: SceneModel, r: SceneModel)
    requires
        m.tree(),
        r.holds_live_of(m),
    ensures
        r.tree(),
{
    assert forall|id: NodeId| #[trigger] climb_ends(r.nodes, id) by {
        assert(climb_ends(m.nodes, id));
        let n = choose|n: nat| climbs(m.nodes, id, n);
        lemma_kept_climbs(m, r, id, n);
    }
    assert forall|id: NodeId| #[trigger] descent_ends(r.nodes, id) by {
        assert(descent_ends(m.nodes, id));
        let n = choose|n: nat| descends(m.nodes, id, n);
        lemma_kept_descends(m, r, id, n);
    }
    assert forall|p: NodeId, c: NodeId|
        r.nodes.contains_key(p) && r.nodes.contains_key(c) && #[trigger] lists_id(
            r.nodes[p].children,
            c,
        ) implies r.nodes[c].parent == Some(p) by {
        lemma_node_kept(m, r, p);
        lemma_node_kept(m, r, c);
        assert(lists_id(m.nodes[p].children, c));
    }
    lemma_unbound_ids(r.roots, m.roots);
    assert forall|c: NodeId| #[trigger]
        r.nodes.contains_key(c) && r.nodes[c].parent is Some implies r.nodes.contains_key(
        r.nodes[c].parent->0,
    ) && lists_id(r.nodes[r.nodes[c].parent->0].children, c) by {
        lemma_node_kept(m, r, c);
        let p = m.nodes[c].parent->0;
        lemma_reachable_listed(m, c);
        if lists_id(m.roots, c) {
            assert(m.nodes[c].parent is None);
        } else {
            let q = choose|q: NodeId| #[trigger]
                m.reachable(q) && m.nodes.contains_key(q) && lists_id(m.nodes[q].children, c);
            assert(m.nodes[c].parent == Some(q));
            assert(m.reachable_nodes().contains(p));
            assert(r.nodes.contains_key(p));
            lemma_node_kept(m, r, p);
        }
    }
    assert forall|x: NodeId|
        r.nodes.contains_key(x) && #[trigger] lists_id(r.roots, x) implies r.nodes[x].parent
        is None by {
        lemma_node_kept(m, r, x);
        assert(lists_id(m.roots, x));
    }
    assert(distinct(r.roots)) by {
        assert forall|i: int, j: int|
            #![trigger r.roots[i], r.roots[j]]
            0 <= i < j < r.roots.len() implies r.roots[i].id != r.roots[j].id by {
            assert(m.roots[i].id != m.roots[j].id);
        }
    }
    assert forall|id: NodeId| #[trigger] r.nodes.contains_key(id) implies distinct(
        r.nodes[id].children,
    ) by {
        lemma_node_kept(m, r, id);
        let a = r.nodes[id].children;
        let b = m.nodes[id].children;
        assert(distinct(b));
        assert forall|i: int, j: int| #![trigger a[i], a[j]] 0 <= i < j < a.len() implies a[i].id
            != a[j].id by {
            assert(b[i].id != b[j].id);
        }
    }
}

/// What stays the same of an instance.
proof fn lemma_instance_kept(m: SceneModel, r: SceneModel, k: u64)
    requires
        r.holds_live_of(m),
        r.instances.contains_key(k),
    ensures
        m.instances.contains_key(k),
        m.live_instance(k),
        r.instances[k].mesh.id == m.instances[k].mesh.id,
        opt_id(r.instances[k].face_material) == opt_id(m.instances[k].face_material),
        opt_id(r.instances[k].line_material) == opt_id(m.instances[k].line_material),
        opt_id(r.instances[k].point_material) == opt_id(m.instances[k].point_material),
{
    assert(m.live_instances().contains(k));
    let a = r.instances[k].unbound();
    let b = m.instances[k].unbound();
    assert(a == b);
    assert(a.mesh == b.mesh);
    assert(a.face_material == b.face_material);
    assert(a.line_material == b.line_material);
    assert(a.point_material == b.point_material);
}

/// What stays the same of a face material.
proof fn lemma_face_kept(m: SceneModel, r: SceneModel, k: u64)
    requires
        r.holds_live_of(m),
        r.face_materials.contains_key(k),
    ensures
        m.face_materials.contains_key(k),
        m.live_face(k),
        forall|id: GenericId| #[trigger]
            r.face_materials[k].samples(id) <==> m.face_materials[k].samples(id),
{
    assert(m.live_faces().contains(k));
    let a = r.face_materials[k].unbound();
    let b = m.face_materials[k].unbound();
    assert(a == b);
    assert(a.base_color_texture == b.base_color_texture);
    assert(a.normal_texture == b.normal_texture);
    assert(a.metallic_roughness_texture == b.metallic_roughness_texture);
}

/// What stays the same of a line material.
proof fn lemma_line_kept(m: SceneModel, r: SceneModel, k: u64)
    requires
        r.holds_live_of(m),
        r.line_materials.contains_key(k),
    ensures
        m.line_materials.contains_key(k),
        m.live_line(k),
        opt_id(r.line_materials[k].base_color_texture) == opt_id(
            m.line_materials[k].base_color_texture,
        ),
{
    assert(m.live_lines().contains(k));
    assert(r.line_materials[k].unbound() == m.line_materials[k].unbound());
}

/// What stays the same of a point material.
proof fn lemma_point_kept(m: SceneModel, r: SceneModel, k: u64)
    requires
        r.holds_live_of(m),
        r.point_materials.contains_key(k),
    ensures
        m.point_materials.contains_key(k),
        m.live_point(k),
        opt_id(r.point_materials[k].base_color_texture) == opt_id(
            m.point_materials[k].base_color_texture,
        ),
{
    assert(m.live_points().contains(k));
    assert(r.point_materials[k].unbound() == m.point_materials[k].unbound());
}

/// In a complete scene, a live instance and what it refers to are there.
proof fn lemma_live_instance_complete(m: SceneModel, k: GenericId)
    requires
        m.nodes_complete(),
        m.live_instance(k),
    ensures
        m.instance_complete(k),
{
    let x = choose|x: NodeId| #[trigger]
        m.reachable(x) && opt_id(m.nodes[x].payload.handle()) == Some(k);
    lemma_reachable_present(m, x);
    assert(m.node_complete(x));
}

/// A handle for `id` among the stored ones makes its canonical core live.
proof fn lemma_stored_live(l: LedgerModel, hs: Seq<Handle>, i: int)
    requires
        tidy(l),
        all_canonical_in(l, hs),
        0 <= i < hs.len(),
    ensures
        l.slot_live(hs[i].id),
        l.slots.contains_key(hs[i].id),
        hs[i].core == Some(l.slots[hs[i].id]),
{
    assert(canonical_in(l, hs[i]));
}

/// The canonical core of what an optional slot refers to is live.
proof fn lemma_slot_stored(l: LedgerModel, hs: Seq<Handle>, h: Option<Handle>)
    requires
        tidy(l),
        all_canonical_in(l, hs),
        h is Some,
        hs.contains(h->0),
    ensures
        l.slot_live(h->0.id),
{
    let i = choose|i: int| 0 <= i < hs.len() && hs[i] == h->0;
    lemma_stored_live(l, hs, i);
}

/// In a rebound scene every resource has a live handle.
proof fn lemma_rebound_live(m: SceneModel, r: SceneModel, kind: ResourceKind, id: GenericId)
    requires
        r.rebound(m),
        r.present(kind, id),
    ensures
        r.ledger.slot_live(id),
{
    match kind {
        ResourceKind::Node => {
            lemma_node_kept(m, r, id);
            lemma_reachable_listed(m, id);
            if lists_id(m.roots, id) {
                lemma_unbound_ids(r.roots, m.roots);
                assert(lists_id(r.roots, id));
                let i = choose|i: int| 0 <= i < r.roots.len() && (#[trigger] r.roots[i]).id == id;
                lemma_stored_live(r.ledger, r.roots, i);
            } else {
                let q = choose|q: NodeId| #[trigger]
                    m.reachable(q) && m.nodes.contains_key(q) && lists_id(m.nodes[q].children, id);
                assert(m.reachable_nodes().contains(q));
                assert(r.nodes.contains_key(q));
                lemma_node_kept(m, r, q);
                assert(lists_id(r.nodes[q].children, id));
                let c = r.nodes[q].children;
                let i = choose|i: int| 0 <= i < c.len() && (#[trigger] c[i]).id == id;
                assert(r.nodes[q].handles()[i] == c[i]);
                lemma_stored_live(r.ledger, r.nodes[q].handles(), i);
            }
        },
        ResourceKind::Instance => {
            lemma_instance_kept(m, r, id);
            let x = choose|x: NodeId| #[trigger]
                m.reachable(x) && opt_id(m.nodes[x].payload.handle()) == Some(id);
            lemma_reachable_present(m, x);
            assert(m.reachable_nodes().contains(x));
            assert(r.nodes.contains_key(x));
            lemma_node_kept(m, r, x);
            let n = r.nodes[x];
            let h = n.payload.handle();
            assert(n.handles()[n.children.len() as int] == h->0);
            lemma_slot_stored(r.ledger, n.handles(), h);
        },
        ResourceKind::Mesh => {
            assert(m.live_meshes().contains(id));
            let k = choose|k: GenericId| #[trigger]
                m.live_instance(k) && m.instances.contains_key(k) && m.instances[k].mesh.id == id;
            assert(m.live_instances().contains(k));
            assert(r.instances.contains_key(k));
            lemma_instance_kept(m, r, k);
            assert(r.instances[k].handles()[0] == r.instances[k].mesh);
            lemma_stored_live(r.ledger, r.instances[k].handles(), 0);
        },
        ResourceKind::FaceMaterial => {
            assert(m.live_faces().contains(id));
            let k = choose|k: GenericId| #[trigger]
                m.live_instance(k) && m.instances.contains_key(k) && opt_id(
                    m.instances[k].face_material,
                ) == Some(id);
            assert(m.live_instances().contains(k));
            assert(r.instances.contains_key(k));
            lemma_instance_kept(m, r, k);
            let i = r.instances[k];
            assert(i.handles()[1] == i.face_material->0);
            lemma_slot_stored(r.ledger, i.handles(), i.face_material);
        },
        ResourceKind::LineMaterial => {
            assert(m.live_lines().contains(id));
            let k = choose|k: GenericId| #[trigger]
                m.live_instance(k) && m.instances.contains_key(k) && opt_id(
                    m.instances[k].line_material,
                ) == Some(id);
            assert(m.live_instances().contains(k));
            assert(r.instances.contains_key(k));
            lemma_instance_kept(m, r, k);
            let i = r.instances[k];
            assert(i.handles()[(1 + opt_seq(i.face_material).len()) as int] == i.line_material->0);
            lemma_slot_stored(r.ledger, i.handles(), i.line_material);
        },
        ResourceKind::PointMaterial => {
            assert(m.live_points().contains(id));
            let k = choose|k: GenericId| #[trigger]
                m.live_instance(k) && m.instances.contains_key(k) && opt_id(
                    m.instances[k].point_material,
                ) == Some(id);
            assert(m.live_instances().contains(k));
            assert(r.instances.contains_key(k));
            lemma_instance_kept(m, r, k);
            let i = r.instances[k];
            assert(i.handles()[(1 + opt_seq(i.face_material).len() + opt_seq(
                i.line_material,
            ).len()) as int] == i.point_material->0);
            lemma_slot_stored(r.ledger, i.handles(), i.point_material);
        },
        ResourceKind::Texture => {
            lemma_texture_live(m, r, id);
        },
    }
}

/// In a rebound scene every texture has a live handle.
proof fn lemma_texture_live(m: SceneModel, r: SceneModel, id: GenericId)
    requires
        r.rebound(m),
        r.textures.contains_key(id),
    ensures
        r.ledger.slot_live(id),
{
    assert(m.live_textures().contains(id));
    if m.live_face_samples(id) {
        let k = choose|k: GenericId| #[trigger]
            m.live_face(k) && m.face_materials.contains_key(k) && m.face_materials[k].samples(id);
        assert(m.live_faces().contains(k));
        assert(r.face_materials.contains_key(k));
        lemma_face_kept(m, r, k);
        let f = r.face_materials[k];
        assert(f.samples(id));
        let hs = f.handles();
        if opt_id(f.base_color_texture) == Some(id) {
            assert(hs[0] == f.base_color_texture->0);
            lemma_slot_stored(r.ledger, hs, f.base_color_texture);
        } else if opt_id(f.normal_texture) == Some(id) {
            assert(hs[opt_seq(f.base_color_texture).len() as int] == f.normal_texture->0);
            lemma_slot_stored(r.ledger, hs, f.normal_texture);
        } else {
            assert(hs[(opt_seq(f.base_color_texture).len() + opt_seq(
                f.normal_texture,
            ).len()) as int] == f.metallic_roughness_texture->0);
            lemma_slot_stored(r.ledger, hs, f.metallic_roughness_texture);
        }
    } else if m.live_line_samples(id) {
        let k = choose|k: GenericId| #[trigger]
            m.live_line(k) && m.line_materials.contains_key(k) && opt_id(
                m.line_materials[k].base_color_texture,
            ) == Some(id);
        assert(m.live_lines().contains(k));
        assert(r.line_materials.contains_key(k));
        lemma_line_kept(m, r, k);
        let f = r.line_materials[k];
        assert(f.handles()[0] == f.base_color_texture->0);
        lemma_slot_stored(r.ledger, f.handles(), f.base_color_texture);
    } else {
        let k = choose|k: GenericId| #[trigger]
            m.live_point(k) && m.point_materials.contains_key(k) && opt_id(
                m.point_materials[k].base_color_texture,
            ) == Some(id);
        assert(m.live_points().contains(k));
        assert(r.point_materials.contains_key(k));
        lemma_point_kept(m, r, k);
        let f = r.point_materials[k];
        assert(f.handles()[0] == f.base_color_texture->0);
        lemma_slot_stored(r.ledger, f.handles(), f.base_color_texture);
    }
}

/// Rebinding a complete forest, all references of which are there, leaves what
/// stored handles refer to.
proof fn lemma_rebound_refers(m: SceneModel, r: SceneModel, kind: ResourceKind, id: GenericId)
    requires
        r.rebound(m),
        m.nodes_complete(),
        m.textures_present(),
        m.roots_present(),
        r.refers_to(kind, id),
    ensures
        r.present(kind, id),
{
    lemma_unbound_ids(r.roots, m.roots);
    if kind == ResourceKind::Node && lists_id(r.roots, id) {
        assert(lists_id(m.roots, id));
        let i = choose|i: int| 0 <= i < m.roots.len() && (#[trigger] m.roots[i]).id == id;
        lemma_reachable_root(m, i);
        assert(m.reachable_nodes().contains(id));
    } else if exists|k: u64| #[trigger]
        r.nodes.contains_key(k) && node_role(r.nodes[k])(kind, id) {
        let k = choose|k: u64| #[trigger]
            r.nodes.contains_key(k) && node_role(r.nodes[k])(kind, id);
        lemma_node_kept(m, r, k);
        assert(m.node_complete(k));
        if kind == ResourceKind::Node {
            assert(lists_id(m.nodes[k].children, id));
            let c = m.nodes[k].children;
            let i = choose|i: int| 0 <= i < c.len() && (#[trigger] c[i]).id == id;
            assert(m.nodes.contains_key(m.nodes[k].children[i].id));
            lemma_reachable_child(m, k, i);
            assert(m.reachable_nodes().contains(id));
        } else {
            assert(m.live_instance(id));
            assert(m.instance_complete(id));
            assert(m.live_instances().contains(id));
        }
    } else if exists|k: u64| #[trigger]
        r.instances.contains_key(k) && instance_role(r.instances[k])(kind, id) {
        let k = choose|k: u64| #[trigger]
            r.instances.contains_key(k) && instance_role(r.instances[k])(kind, id);
        lemma_instance_kept(m, r, k);
        lemma_live_instance_complete(m, k);
        match kind {
            ResourceKind::Mesh => {
                assert(m.live_mesh(id));
                assert(m.live_meshes().contains(id));
            },
            ResourceKind::FaceMaterial => {
                assert(m.live_face(id));
                assert(m.live_faces().contains(id));
            },
            ResourceKind::LineMaterial => {
                assert(m.live_line(id));
                assert(m.live_lines().contains(id));
            },
            ResourceKind::PointMaterial => {
                assert(m.live_point(id));
                assert(m.live_points().contains(id));
            },
            _ => {},
        }
    } else if exists|k: u64| #[trigger]
        r.face_materials.contains_key(k) && face_role(r.face_materials[k])(kind, id) {
        let k = choose|k: u64| #[trigger]
            r.face_materials.contains_key(k) && face_role(r.face_materials[k])(kind, id);
        lemma_face_kept(m, r, k);
        assert(m.face_materials[k].samples(id));
        assert(m.live_face_samples(id));
        assert(m.live_textures().contains(id));
    } else if exists|k: u64| #[trigger]
        r.line_materials.contains_key(k) && line_role(r.line_materials[k])(kind, id) {
        let k = choose|k: u64| #[trigger]
            r.line_materials.contains_key(k) && line_role(r.line_materials[k])(kind, id);
        lemma_line_kept(m, r, k);
        assert(m.live_line_samples(id));
        assert(m.live_textures().contains(id));
    } else {
        let k = choose|k: u64| #[trigger]
            r.point_materials.contains_key(k) && point_role(r.point_materials[k])(kind, id);
        lemma_point_kept(m, r, k);
        assert(m.live_point_samples(id));
        assert(m.live_textures().contains(id));
    }
}

/// Rebinding makes a sound scene of any complete forest whose references are all
/// there and whose ids are in use for one resource only, whatever its handles were.
pub proof fn rebound_is_sound(m: SceneModel, r: SceneModel)
    requires
        m.tree(),
        m.ids_apart(),
        m.nodes_complete(),
        m.textures_present(),
        m.roots_present(),
        r.wf(),
        r.rebound(m),
    ensures
        r.sound(),
        forall|c: u64| #[trigger] r.outside(c) == 0,
{
    lemma_kept_forest(m, r);
    assert forall|c: u64| #[trigger] r.refs(c) <= r.ledger.strong(c) by {
        assert(r.ledger.strong(c) == r.refs(c));
    }
    assert forall|c: u64| #[trigger] r.outside(c) == 0 by {
        assert(r.ledger.strong(c) == r.refs(c));
    }
    assert(r.tree_handles()) by {
        assert forall|i: int| 0 <= i < r.roots.len() implies r.names_node(#[trigger] r.roots[i]) by {
            lemma_stored_live(r.ledger, r.roots, i);
            assert(lists_id(r.roots, r.roots[i].id));
            assert(r.refers_to(ResourceKind::Node, r.roots[i].id));
            lemma_rebound_refers(m, r, ResourceKind::Node, r.roots[i].id);
        }
        assert forall|k: NodeId, i: int|
            r.nodes.contains_key(k) && 0 <= i < r.nodes[k].children.len() implies r.names_node(
            #[trigger] r.nodes[k].children[i],
        ) by {
            let n = r.nodes[k];
            assert(n.handles()[i] == n.children[i]);
            lemma_stored_live(r.ledger, n.handles(), i);
            assert(lists_id(n.children, n.children[i].id));
            assert(node_role(n)(ResourceKind::Node, n.children[i].id));
            assert(r.refers_to(ResourceKind::Node, n.children[i].id));
            lemma_rebound_refers(m, r, ResourceKind::Node, n.children[i].id);
        }
    }
    assert(r.ids_apart()) by {
        assert forall|a: ResourceKind, b: ResourceKind, id: GenericId|
            #![trigger r.present(a, id), r.present(b, id)]
            r.present(a, id) && r.present(b, id) implies a == b by {
            lemma_rebound_present(m, r, a, id);
            lemma_rebound_present(m, r, b, id);
        }
    }
    assert forall|id: GenericId| #[trigger] r.ledger.slot_live(id) implies r.ledger.cores[r.ledger.slots[id]].id
        == id && r.present(r.ledger.cores[r.ledger.slots[id]].kind, id) by {
        let c = r.ledger.slots[id];
        assert(r.ledger.cores.contains_key(c));
        assert(r.refers_to(r.ledger.cores[c].kind, r.ledger.cores[c].id));
        lemma_rebound_refers(m, r, r.ledger.cores[c].kind, id);
    }
    assert forall|kind: ResourceKind, id: GenericId| #[trigger] r.present(
        kind,
        id,
    ) implies r.ledger.slot_live(id) || r.ledger.dropped.contains((kind, id)) by {
        lemma_rebound_live(m, r, kind, id);
    }
}

/// Rebinding adds nothing.
proof fn lemma_rebound_present(m: SceneModel, r: SceneModel, kind: ResourceKind, id: GenericId)
    requires
        r.rebound(m),
        r.present(kind, id),
    ensures
        m.present(kind, id),
{
    match kind {
        ResourceKind::Node => {
            assert(m.reachable_nodes().contains(id));
        },
        ResourceKind::Instance => {
            assert(m.live_instances().contains(id));
        },
        ResourceKind::Mesh => {},
        ResourceKind::FaceMaterial => {
            assert(m.live_faces().contains(id));
        },
        ResourceKind::LineMaterial => {
            assert(m.live_lines().contains(id));
        },
        ResourceKind::PointMaterial => {
            assert(m.live_points().contains(id));
        },
        ResourceKind::Texture => {},
    }
}

impl SceneModel {
    /// Whether a resource of the given kind is reached from the roots: a node along the
    /// lists of children, an instance through a node, a mesh or a material through an
    /// instance, and a texture through a material.
    pub open spec fn reached_as(self, kind: ResourceKind, id: GenericId) -> bool {
        match kind {
            ResourceKind::Node => self.reachable(id),
            ResourceKind::Instance => self.live_instance(id),
            ResourceKind::Mesh => self.live_mesh(id),
            ResourceKind::FaceMaterial => self.live_face(id),
            ResourceKind::LineMaterial => self.live_line(id),
            ResourceKind::PointMaterial => self.live_point(id),
            ResourceKind::Texture => self.live_texture(id),
        }
    }
}

/// Rebinding keeps exactly what is reached from the roots, be it in place or in a copy.
pub proof fn rebinding_keeps_what_is_reached(m: SceneModel, r: SceneModel)
    requires
        r.rebound(m),
    ensures
        forall|kind: ResourceKind, id: GenericId| #[trigger]
            r.present(kind, id) <==> m.present(kind, id) && m.reached_as(kind, id),
{
    assert forall|kind: ResourceKind, id: GenericId| #[trigger] r.present(kind, id)
        <==> m.present(kind, id) && m.reached_as(kind, id) by {
        match kind {
            ResourceKind::Node => {
                assert(r.nodes.dom().contains(id) == m.reachable_nodes().contains(id));
            },
            ResourceKind::Instance => {
                assert(r.instances.dom().contains(id) == m.live_instances().contains(id));
            },
            ResourceKind::Mesh => {
                assert(r.meshes.contains_key(id) <==> m.meshes.contains_key(id)
                    && m.live_meshes().contains(id));
            },
            ResourceKind::FaceMaterial => {
                assert(r.face_materials.dom().contains(id) == m.live_faces().contains(id));
            },
            ResourceKind::LineMaterial => {
                assert(r.line_materials.dom().contains(id) == m.live_lines().contains(id));
            },
            ResourceKind::PointMaterial => {
                assert(r.point_materials.dom().contains(id) == m.live_points().contains(id));
            },
            ResourceKind::Texture => {
                assert(r.textures.contains_key(id) <==> m.textures.contains_key(id)
                    && m.live_textures().contains(id));
            },
        }
    }
}

/// Rebinding keeps the tree as it is: the same roots in the same order, and each node that
/// stays with its parent, its children in their order, its transform, name, visibility
/// and payload. Meshes and textures that stay are unchanged. The environment maps, the
/// active one and the generation stay. The active camera stays exactly when its node does.
/// No removal is logged.
pub proof fn rebinding_keeps_the_tree(m: SceneModel, r: SceneModel)
    requires
        r.rebound(m),
    ensures
        r.roots.len() == m.roots.len(),
        forall|i: int| 0 <= i < m.roots.len() ==> (#[trigger] r.roots[i]).id == m.roots[i].id,
        forall|k: NodeId| #[trigger]
            r.nodes.contains_key(k) ==> {
                let (a, b) = (m.nodes[k], r.nodes[k]);
                &&& m.nodes.contains_key(k)
                &&& b.id == a.id
                &&& b.name == a.name
                &&& b.parent == a.parent
                &&& b.transform == a.transform
                &&& b.flags == a.flags
                &&& b.visibility == a.visibility
                &&& b.display == a.display
                &&& b.world_cache == a.world_cache
                &&& unbind_payload(b.payload) == unbind_payload(a.payload)
                &&& b.children.len() == a.children.len()
                &&& forall|i: int|
                    0 <= i < a.children.len() ==> (#[trigger] b.children[i]).id
                        == a.children[i].id
            },
        forall|k: u64| #[trigger] r.meshes.contains_key(k) ==> r.meshes[k] == m.meshes[k],
        forall|k: u64| #[trigger] r.textures.contains_key(k) ==> r.textures[k] == m.textures[k],
        r.environment_maps == m.environment_maps,
        r.active_environment_map == m.active_environment_map,
        r.node_generation == m.node_generation,
        r.active_camera == (match m.active_camera {
            Some(id) => if r.nodes.contains_key(id) {
                Some(id)
            } else {
                None
            },
            None => None,
        }),
        r.removals.len() == 0,
{
    lemma_unbound_ids(r.roots, m.roots);
    assert forall|k: NodeId| #[trigger] r.nodes.contains_key(k) implies {
        let (a, b) = (m.nodes[k], r.nodes[k]);
        &&& m.nodes.contains_key(k)
        &&& b.id == a.id
        &&& b.name == a.name
        &&& b.parent == a.parent
        &&& b.transform == a.transform
        &&& b.flags == a.flags
        &&& b.visibility == a.visibility
        &&& b.display == a.display
        &&& b.world_cache == a.world_cache
        &&& unbind_payload(b.payload) == unbind_payload(a.payload)
        &&& b.children.len() == a.children.len()
        &&& forall|i: int|
            0 <= i < a.children.len() ==> (#[trigger] b.children[i]).id == a.children[i].id
    } by {
        let (a, b) = (m.nodes[k], r.nodes[k]);
        lemma_node_kept(m, r, k);
        assert(m.reachable_nodes().contains(k));
        assert(b.unbound() == a.unbound());
        lemma_unbound_ids(b.children, a.children);
    }
    if let Some(id) = m.active_camera {
        assert(r.nodes.dom().contains(id) == m.reachable_nodes().contains(id));
    }
}

/// Handles from before a rebinding are inert, those that counted then and those left over
/// from earlier ones: they count on nothing, and giving them up and reaping changes
/// nothing at all.
pub proof fn rebinding_disconnects(m: SceneModel, r: SceneModel, hs: Seq<Handle>)
    requires
        r.rebound(m),
        forall|i: int| 0 <= i < hs.len() ==> older_than(#[trigger] hs[i], m.ledger.clock),
    ensures
        forall|i: int| 0 <= i < hs.len() ==> !r.ledger.is_live(#[trigger] hs[i]),
        r.ledger.release_all(hs) == r.ledger,
        r.with_ledger(r.ledger.release_all(hs)).reaped() == r,
    decreases hs.len(),
{
    assert forall|i: int| 0 <= i < hs.len() implies !r.ledger.is_live(#[trigger] hs[i]) by {
        assert(older_than(hs[i], m.ledger.clock));
    }
    if hs.len() > 0 {
        assert forall|i: int| 0 <= i < hs.drop_last().len() implies older_than(
            #[trigger] hs.drop_last()[i],
            m.ledger.clock,
        ) by {
            assert(older_than(hs[i], m.ledger.clock));
        }
        rebinding_disconnects(m, r, hs.drop_last());
        assert(!r.ledger.is_live(hs[hs.len() - 1]));
    }
    assert(r.reaped() == r);
}

/// A handle that counts in a scene is from before any later rebinding.
pub proof fn live_handles_are_old(m: SceneModel, h: Handle)
    requires
        m.wf(),
        m.ledger.is_live(h),
    ensures
        older_than(h, m.ledger.clock),
{
}

/// A copy shares no counts with the scene it was made of: a handle that counts in one of
/// them counts in the other on nothing, so that giving it up there and reaping changes
/// nothing.
pub proof fn copies_share_no_counts(m: SceneModel, copy: SceneModel, h: Handle)
    requires
        m.wf(),
        copy.rebound(m),
    ensures
        m.ledger.is_live(h) ==> copy.with_ledger(copy.ledger.release(h)).reaped() == copy,
        copy.ledger.is_live(h) ==> m.with_ledger(m.ledger.release(h)) == m,
{
    assert(copy.reaped() == copy);
    assert(copy.with_ledger(copy.ledger) == copy);
    assert(m.with_ledger(m.ledger) == m);
}

/// Handles from before a rebinding stay inert, whatever is done with handles and resources
/// afterwards: every live core is from after the rebinding.
pub proof fn disconnected_stays_disconnected(
    l: LedgerModel,
    clock: u64,
    id: GenericId,
    kind: ResourceKind,
    handle: Handle,
    handles: Seq<Handle>,
)
    requires
        l.wf(),
        l.clock < u64::MAX,
        cores_from(l, clock),
    ensures
        cores_from(l.mint(id, kind), clock),
        cores_from(l.retain(handle), clock),
        cores_from(l.release(handle), clock),
        cores_from(l.release_all(handles), clock),
        cores_from(l.forget(id), clock),
        cores_from(l.without_oldest(), clock),
        older_than(handle, clock) ==> l.release(handle) == l && l.retain(handle) == l,
{
    super::model::lemma_release_all(l, handles);
    super::ownership::lemma_release_all_cores(l, handles);
    assert forall|c: u64| #[trigger] l.mint(id, kind).cores.contains_key(c) implies c
        >= clock by {
        if l.slot_live(id) {
            assert(l.cores.contains_key(l.slots[id]));
        }
    }
}

proof fn lemma_kept_below(m: SceneModel, r: SceneModel, k: NodeId, top: NodeId, n: nat)
    requires
        r.holds_live_of(m),
        m.reachable(top),
        below_within(m.nodes, k, top, n),
    ensures
        below_within(r.nodes, k, top, n),
    decreases n,
{
    lemma_reachable_present(m, top);
    assert(m.reachable_nodes().contains(top));
    assert(r.nodes.contains_key(top));
    if k != top {
        lemma_node_kept(m, r, top);
        let i = choose|i: int|
            0 <= i < m.nodes[top].children.len() && below_within(
                m.nodes,
                k,
                (#[trigger] m.nodes[top].children[i]).id,
                (n - 1) as nat,
            );
        lemma_below_present(m.nodes, k, m.nodes[top].children[i].id, (n - 1) as nat);
        lemma_reachable_child(m, top, i);
        lemma_kept_below(m, r, k, m.nodes[top].children[i].id, (n - 1) as nat);
        assert(below_within(r.nodes, k, r.nodes[top].children[i].id, (n - 1) as nat));
    }
}

/// What was reachable still is.
proof fn lemma_kept_reachable(m: SceneModel, r: SceneModel, k: NodeId)
    requires
        r.holds_live_of(m),
        m.reachable(k),
    ensures
        r.reachable(k),
        r.nodes.contains_key(k),
{
    lemma_reachable_present(m, k);
    assert(m.reachable_nodes().contains(k));
    assert(r.nodes.contains_key(k));
    let j = choose|j: int|
        0 <= j < m.roots.len() && below(m.nodes, k, (#[trigger] m.roots[j]).id);
    let n = choose|n: nat| below_within(m.nodes, k, m.roots[j].id, n);
    lemma_below_present(m.nodes, k, m.roots[j].id, n);
    lemma_reachable_root(m, j);
    lemma_kept_below(m, r, k, m.roots[j].id, n);
    lemma_unbound_ids(r.roots, m.roots);
    assert(below(r.nodes, k, r.roots[j].id));
}

/// An instance that was live still is.
proof fn lemma_kept_instance_live(m: SceneModel, r: SceneModel, k: GenericId)
    requires
        r.holds_live_of(m),
        m.live_instance(k),
    ensures
        r.live_instance(k),
        m.instances.contains_key(k) ==> r.instances.contains_key(k),
{
    let x = choose|x: NodeId| #[trigger]
        m.reachable(x) && opt_id(m.nodes[x].payload.handle()) == Some(k);
    lemma_kept_reachable(m, r, x);
    lemma_node_kept(m, r, x);
    if m.instances.contains_key(k) {
        assert(m.live_instances().contains(k));
    }
}

/// Everything in a rebound scene is live in it.
proof fn lemma_rebound_all_live(m: SceneModel, r: SceneModel)
    requires
        r.rebound(m),
    ensures
        r.reachable_nodes() == r.nodes.dom(),
        r.live_instances() == r.instances.dom(),
        r.live_meshes() == r.meshes.dom(),
        r.live_faces() == r.face_materials.dom(),
        r.live_lines() == r.line_materials.dom(),
        r.live_points() == r.point_materials.dom(),
        r.live_textures() == r.textures.dom(),
{
    assert forall|k: u64| r.nodes.contains_key(k) implies r.reachable(k) by {
        lemma_node_kept(m, r, k);
        lemma_kept_reachable(m, r, k);
    }
    assert(r.reachable_nodes() =~= r.nodes.dom());
    assert forall|k: u64| r.instances.contains_key(k) implies r.live_instance(k) by {
        lemma_instance_kept(m, r, k);
        lemma_kept_instance_live(m, r, k);
    }
    assert(r.live_instances() =~= r.instances.dom());
    assert forall|id: u64| r.meshes.contains_key(id) implies r.live_mesh(id) by {
        assert(m.live_meshes().contains(id));
        let k = choose|k: GenericId| #[trigger]
            m.live_instance(k) && m.instances.contains_key(k) && m.instances[k].mesh.id == id;
        lemma_kept_instance_live(m, r, k);
        lemma_instance_kept(m, r, k);
    }
    assert(r.live_meshes() =~= r.meshes.dom());
    assert forall|id: u64| m.live_face(id) implies r.live_face(id) by {
        let k = choose|k: GenericId| #[trigger]
            m.live_instance(k) && m.instances.contains_key(k) && opt_id(
                m.instances[k].face_material,
            ) == Some(id);
        lemma_kept_instance_live(m, r, k);
        lemma_instance_kept(m, r, k);
    }
    assert forall|id: u64| m.live_line(id) implies r.live_line(id) by {
        let k = choose|k: GenericId| #[trigger]
            m.live_instance(k) && m.instances.contains_key(k) && opt_id(
                m.instances[k].line_material,
            ) == Some(id);
        lemma_kept_instance_live(m, r, k);
        lemma_instance_kept(m, r, k);
    }
    assert forall|id: u64| m.live_point(id) implies r.live_point(id) by {
        let k = choose|k: GenericId| #[trigger]
            m.live_instance(k) && m.instances.contains_key(k) && opt_id(
                m.instances[k].point_material,
            ) == Some(id);
        lemma_kept_instance_live(m, r, k);
        lemma_instance_kept(m, r, k);
    }
    assert forall|k: u64| r.face_materials.contains_key(k) implies r.live_face(k) by {
        lemma_face_kept(m, r, k);
    }
    assert forall|k: u64| r.line_materials.contains_key(k) implies r.live_line(k) by {
        lemma_line_kept(m, r, k);
    }
    assert forall|k: u64| r.point_materials.contains_key(k) implies r.live_point(k) by {
        lemma_point_kept(m, r, k);
    }
    assert(r.live_faces() =~= r.face_materials.dom());
    assert(r.live_lines() =~= r.line_materials.dom());
    assert(r.live_points() =~= r.point_materials.dom());
    assert forall|id: u64| r.textures.contains_key(id) implies r.live_texture(id) by {
        assert(m.live_textures().contains(id));
        if m.live_face_samples(id) {
            let k = choose|k: GenericId| #[trigger]
                m.live_face(k) && m.face_materials.contains_key(k)
                    && m.face_materials[k].samples(id);
            assert(m.live_faces().contains(k));
            assert(r.face_materials.contains_key(k));
            lemma_face_kept(m, r, k);
            assert(r.live_face(k));
            assert(r.live_face_samples(id));
        } else if m.live_line_samples(id) {
            let k = choose|k: GenericId| #[trigger]
                m.live_line(k) && m.line_materials.contains_key(k) && opt_id(
                    m.line_materials[k].base_color_texture,
                ) == Some(id);
            assert(m.live_lines().contains(k));
            assert(r.line_materials.contains_key(k));
            lemma_line_kept(m, r, k);
            assert(r.live_line(k));
            assert(r.live_line_samples(id));
        } else {
            let k = choose|k: GenericId| #[trigger]
                m.live_point(k) && m.point_materials.contains_key(k) && opt_id(
                    m.point_materials[k].base_color_texture,
                ) == Some(id);
            assert(m.live_points().contains(k));
            assert(r.point_materials.contains_key(k));
            lemma_point_kept(m, r, k);
            assert(r.live_point(k));
            assert(r.live_point_samples(id));
        }
    }
    assert(r.live_textures() =~= r.textures.dom());
}

/// Rebinding a second time changes nothing but the cores of the handles.
pub proof fn rebinding_twice_keeps_contents(m: SceneModel, r: SceneModel, s: SceneModel)
    requires
        r.rebound(m),
        s.rebound(r),
    ensures
        s.meshes == r.meshes,
        s.textures == r.textures,
        s.environment_maps == r.environment_maps,
        s.active_environment_map == r.active_environment_map,
        s.active_camera == r.active_camera,
        s.node_generation == r.node_generation,
        unbind_all(s.roots) == unbind_all(r.roots),
        s.nodes.dom() == r.nodes.dom(),
        forall|k: u64| #[trigger]
            s.nodes.contains_key(k) ==> s.nodes[k].unbound() == r.nodes[k].unbound(),
        s.instances.dom() == r.instances.dom(),
        forall|k: u64| #[trigger]
            s.instances.contains_key(k) ==> s.instances[k].unbound() == r.instances[k].unbound(),
        s.face_materials.dom() == r.face_materials.dom(),
        forall|k: u64| #[trigger]
            s.face_materials.contains_key(k) ==> s.face_materials[k].unbound()
                == r.face_materials[k].unbound(),
        s.line_materials.dom() == r.line_materials.dom(),
        forall|k: u64| #[trigger]
            s.line_materials.contains_key(k) ==> s.line_materials[k].unbound()
                == r.line_materials[k].unbound(),
        s.point_materials.dom() == r.point_materials.dom(),
        forall|k: u64| #[trigger]
            s.point_materials.contains_key(k) ==> s.point_materials[k].unbound()
                == r.point_materials[k].unbound(),
{
    lemma_rebound_all_live(m, r);
    assert(r.meshes.restrict(r.live_meshes()) =~= r.meshes);
    assert(r.textures.restrict(r.live_textures()) =~= r.textures);
    if let Some(id) = r.active_camera {
        assert(m.reachable_nodes().contains(id));
        assert(r.nodes.contains_key(id));
    }
}

/// A live instance of a scene whose nodes are complete is complete once it is rebound.
proof fn lemma_live_kept_complete(m: SceneModel, r: SceneModel, id: GenericId)
    requires
        m.nodes_complete(),
        r.rebound(m),
        m.live_instance(id),
    ensures
        r.instance_complete(id),
{
    lemma_live_instance_complete(m, id);
    assert(m.live_instances().contains(id));
    assert(r.instances.contains_key(id));
    lemma_instance_kept(m, r, id);
    assert(m.live_mesh(m.instances[id].mesh.id));
    assert(m.live_meshes().contains(m.instances[id].mesh.id));
    if let Some(x) = opt_id(m.instances[id].face_material) {
        assert(m.live_face(x));
        assert(m.live_faces().contains(x));
    }
    if let Some(x) = opt_id(m.instances[id].line_material) {
        assert(m.live_line(x));
        assert(m.live_lines().contains(x));
    }
    if let Some(x) = opt_id(m.instances[id].point_material) {
        assert(m.live_point(x));
        assert(m.live_points().contains(x));
    }
}

/// Rebinding a scene whose nodes are complete leaves a complete scene: what no node
/// reaches is dropped.
pub proof fn rebinding_keeps_complete(m: SceneModel, r: SceneModel)
    requires
        m.nodes_complete(),
        r.rebound(m),
    ensures
        r.complete(),
{
    assert forall|k: NodeId| #[trigger] r.nodes.contains_key(k) implies r.node_complete(k) by {
        lemma_node_kept(m, r, k);
        assert(m.node_complete(k));
        assert forall|i: int| 0 <= i < r.nodes[k].children.len() implies r.nodes.contains_key(
            (#[trigger] r.nodes[k].children[i]).id,
        ) by {
            assert(m.nodes.contains_key(m.nodes[k].children[i].id));
            lemma_reachable_child(m, k, i);
            assert(m.reachable_nodes().contains(m.nodes[k].children[i].id));
        }
        if let Some(h) = r.nodes[k].payload.handle() {
            assert(opt_id(m.nodes[k].payload.handle()) == Some(h.id));
            assert(m.live_instance(h.id));
            lemma_live_kept_complete(m, r, h.id);
        }
    }
    assert forall|id: GenericId| #[trigger] r.instances.contains_key(
        id,
    ) implies r.instance_complete(id) by {
        assert(m.live_instances().contains(id));
        lemma_live_kept_complete(m, r, id);
    }
}

/// Whether two handles, where there are any, are for the same resource.
pub open spec fn same_target(a: Option<Handle>, b: Option<Handle>) -> bool {
    &&& a is Some == b is Some
    &&& a is Some ==> a->0.id == b->0.id
}

/// Whether what a handle names is kept, if there is a handle and what it names was held.
pub open spec fn follows<V>(held: Map<u64, V>, kept: Map<u64, V>, h: Option<Handle>) -> bool {
    h is Some && held.contains_key(h->0.id) ==> kept.contains_key(h->0.id)
}

/// Rebinding keeps, of what a scene holds, all that the kept refers to: the instance that a
/// kept node carries, the mesh and the materials of a kept instance, and the textures of a
/// kept material, each slot of it.
pub proof fn rebinding_keeps_what_the_kept_refer_to(m: SceneModel, r: SceneModel)
    requires
        r.rebound(m),
    ensures
        forall|k: NodeId| #[trigger]
            r.nodes.contains_key(k) ==> (m.nodes[k].payload matches NodePayload::Instance(h)
                ==> follows(m.instances, r.instances, Some(h))),
        forall|k: u64| #[trigger]
            r.instances.contains_key(k) ==> {
                let parts = m.instances[k];
                &&& m.instances.contains_key(k)
                &&& follows(m.meshes, r.meshes, Some(parts.mesh))
                &&& follows(m.face_materials, r.face_materials, parts.face_material)
                &&& follows(m.line_materials, r.line_materials, parts.line_material)
                &&& follows(m.point_materials, r.point_materials, parts.point_material)
            },
        forall|k: u64| #[trigger]
            r.face_materials.contains_key(k) ==> {
                let parts = m.face_materials[k];
                &&& follows(m.textures, r.textures, parts.base_color_texture)
                &&& follows(m.textures, r.textures, parts.normal_texture)
                &&& follows(m.textures, r.textures, parts.metallic_roughness_texture)
            },
        forall|k: u64| #[trigger]
            r.line_materials.contains_key(k) ==> follows(
                m.textures,
                r.textures,
                m.line_materials[k].base_color_texture,
            ),
        forall|k: u64| #[trigger]
            r.point_materials.contains_key(k) ==> follows(
                m.textures,
                r.textures,
                m.point_materials[k].base_color_texture,
            ),
{
    assert forall|k: NodeId| #[trigger] r.nodes.contains_key(k) implies (m.nodes[k].payload
        matches NodePayload::Instance(h) ==> follows(m.instances, r.instances, Some(h))) by {
        lemma_node_kept(m, r, k);
        if let NodePayload::Instance(h) = m.nodes[k].payload {
            assert(opt_id(m.nodes[k].payload.handle()) == Some(h.id));
            assert(m.live_instance(h.id));
            assert(m.instances.contains_key(h.id) ==> m.live_instances().contains(h.id));
        }
    }
    assert forall|k: u64| #[trigger] r.instances.contains_key(k) implies {
        let parts = m.instances[k];
        &&& m.instances.contains_key(k)
        &&& follows(m.meshes, r.meshes, Some(parts.mesh))
        &&& follows(m.face_materials, r.face_materials, parts.face_material)
        &&& follows(m.line_materials, r.line_materials, parts.line_material)
        &&& follows(m.point_materials, r.point_materials, parts.point_material)
    } by {
        lemma_instance_kept(m, r, k);
        let parts = m.instances[k];
        assert(m.live_mesh(parts.mesh.id));
        assert(m.meshes.contains_key(parts.mesh.id) ==> m.live_meshes().contains(parts.mesh.id));
        if let Some(h) = parts.face_material {
            assert(m.live_face(h.id));
            assert(m.face_materials.contains_key(h.id) ==> m.live_faces().contains(h.id));
        }
        if let Some(h) = parts.line_material {
            assert(m.live_line(h.id));
            assert(m.line_materials.contains_key(h.id) ==> m.live_lines().contains(h.id));
        }
        if let Some(h) = parts.point_material {
            assert(m.live_point(h.id));
            assert(m.point_materials.contains_key(h.id) ==> m.live_points().contains(h.id));
        }
    }
    assert forall|k: u64| #[trigger] r.face_materials.contains_key(k) implies {
        let parts = m.face_materials[k];
        &&& follows(m.textures, r.textures, parts.base_color_texture)
        &&& follows(m.textures, r.textures, parts.normal_texture)
        &&& follows(m.textures, r.textures, parts.metallic_roughness_texture)
    } by {
        let parts = m.face_materials[k];
        assert(m.live_faces().contains(k));
        assert forall|id: u64| #[trigger]
            parts.samples(id) && m.textures.contains_key(id) implies r.textures.contains_key(
            id,
        ) by {
            assert(m.live_face(k));
            assert(m.live_face_samples(id));
            assert(m.live_textures().contains(id));
        }
        if let Some(h) = parts.base_color_texture {
            assert(parts.samples(h.id));
        }
        if let Some(h) = parts.normal_texture {
            assert(parts.samples(h.id));
        }
        if let Some(h) = parts.metallic_roughness_texture {
            assert(parts.samples(h.id));
        }
    }
    assert forall|k: u64| #[trigger] r.line_materials.contains_key(k) implies follows(
        m.textures,
        r.textures,
        m.line_materials[k].base_color_texture,
    ) by {
        assert(m.live_lines().contains(k));
        if let Some(h) = m.line_materials[k].base_color_texture {
            assert(m.live_line(k));
            assert(m.live_line_samples(h.id));
            assert(m.textures.contains_key(h.id) ==> m.live_textures().contains(h.id));
        }
    }
    assert forall|k: u64| #[trigger] r.point_materials.contains_key(k) implies follows(
        m.textures,
        r.textures,
        m.point_materials[k].base_color_texture,
    ) by {
        assert(m.live_points().contains(k));
        if let Some(h) = m.point_materials[k].base_color_texture {
            assert(m.live_point(k));
            assert(m.live_point_samples(h.id));
            assert(m.textures.contains_key(h.id) ==> m.live_textures().contains(h.id));
        }
    }
}

/// Rebinding keeps nothing that the kept does not need: every instance is carried by a
/// node, every mesh and every material belongs to an instance, and every texture to a
/// material.
pub proof fn rebinding_keeps_nothing_unused(m: SceneModel, r: SceneModel)
    requires
        r.rebound(m),
    ensures
        forall|k: NodeId| #[trigger]
            r.nodes.contains_key(k) <==> m.nodes.contains_key(k) && exists|i: int|
                0 <= i < m.roots.len() && below(m.nodes, k, (#[trigger] m.roots[i]).id),
        forall|k: u64| #[trigger]
            r.instances.contains_key(k) ==> exists|n: NodeId| #[trigger]
                r.nodes.contains_key(n) && (r.nodes[n].payload matches NodePayload::Instance(h)
                    && h.id == k),
        forall|k: u64| #[trigger]
            r.meshes.contains_key(k) ==> exists|n: u64| #[trigger]
                r.instances.contains_key(n) && r.instances[n].mesh.id == k,
        forall|k: u64| #[trigger]
            r.face_materials.contains_key(k) ==> exists|n: u64| #[trigger]
                r.instances.contains_key(n) && (r.instances[n].face_material matches Some(h)
                    && h.id == k),
        forall|k: u64| #[trigger]
            r.line_materials.contains_key(k) ==> exists|n: u64| #[trigger]
                r.instances.contains_key(n) && (r.instances[n].line_material matches Some(h)
                    && h.id == k),
        forall|k: u64| #[trigger]
            r.point_materials.contains_key(k) ==> exists|n: u64| #[trigger]
                r.instances.contains_key(n) && (r.instances[n].point_material matches Some(h)
                    && h.id == k),
        forall|k: u64| #[trigger]
            r.textures.contains_key(k) ==> {
                ||| exists|n: u64| #[trigger]
                    r.face_materials.contains_key(n) && {
                        let parts = r.face_materials[n];
                        ||| parts.base_color_texture is Some && parts.base_color_texture->0.id == k
                        ||| parts.normal_texture is Some && parts.normal_texture->0.id == k
                        ||| parts.metallic_roughness_texture is Some
                            && parts.metallic_roughness_texture->0.id == k
                    }
                ||| exists|n: u64| #[trigger]
                    r.line_materials.contains_key(n) && (r.line_materials[n].base_color_texture
                        matches Some(h) && h.id == k)
                ||| exists|n: u64| #[trigger]
                    r.point_materials.contains_key(n) && (r.point_materials[n].base_color_texture
                        matches Some(h) && h.id == k)
            },
{
    assert forall|k: u64| #[trigger] r.textures.contains_key(k) implies {
        ||| exists|n: u64| #[trigger]
            r.face_materials.contains_key(n) && {
                let parts = r.face_materials[n];
                ||| parts.base_color_texture is Some && parts.base_color_texture->0.id == k
                ||| parts.normal_texture is Some && parts.normal_texture->0.id == k
                ||| parts.metallic_roughness_texture is Some
                    && parts.metallic_roughness_texture->0.id == k
            }
        ||| exists|n: u64| #[trigger]
            r.line_materials.contains_key(n) && (r.line_materials[n].base_color_texture
                matches Some(h) && h.id == k)
        ||| exists|n: u64| #[trigger]
            r.point_materials.contains_key(n) && (r.point_materials[n].base_color_texture
                matches Some(h) && h.id == k)
    } by {
        assert(m.live_textures().contains(k));
        if m.live_face_samples(k) {
            let n = choose|n: u64| #[trigger]
                m.live_face(n) && m.face_materials.contains_key(n) && m.face_materials[n].samples(k);
            assert(m.live_faces().contains(n));
            assert(r.face_materials.contains_key(n));
            lemma_face_kept(m, r, n);
            assert(r.face_materials[n].samples(k));
        } else if m.live_line_samples(k) {
            let n = choose|n: u64| #[trigger]
                m.live_line(n) && m.line_materials.contains_key(n) && opt_id(
                    m.line_materials[n].base_color_texture,
                ) == Some(k);
            assert(m.live_lines().contains(n));
            assert(r.line_materials.contains_key(n));
            lemma_line_kept(m, r, n);
        } else {
            let n = choose|n: u64| #[trigger]
                m.live_point(n) && m.point_materials.contains_key(n) && opt_id(
                    m.point_materials[n].base_color_texture,
                ) == Some(k);
            assert(m.live_points().contains(n));
            assert(r.point_materials.contains_key(n));
            lemma_point_kept(m, r, n);
        }
    }
    assert forall|k: NodeId| #[trigger] r.nodes.contains_key(k) <==> m.nodes.contains_key(k)
        && exists|i: int|
        0 <= i < m.roots.len() && below(m.nodes, k, (#[trigger] m.roots[i]).id) by {
        assert(r.nodes.dom().contains(k) == m.reachable_nodes().contains(k));
    }
    assert forall|k: u64| #[trigger] r.instances.contains_key(k) implies exists|n: NodeId|
        #[trigger]
        r.nodes.contains_key(n) && (r.nodes[n].payload matches NodePayload::Instance(h) && h.id
            == k) by {
        lemma_instance_kept(m, r, k);
        let n = choose|n: NodeId| #[trigger]
            m.reachable(n) && opt_id(m.nodes[n].payload.handle()) == Some(k);
        lemma_reachable_present(m, n);
        assert(m.reachable_nodes().contains(n));
        assert(r.nodes.contains_key(n));
        lemma_node_kept(m, r, n);
    }
    assert forall|k: u64| #[trigger] r.meshes.contains_key(k) implies exists|n: u64| #[trigger]
        r.instances.contains_key(n) && r.instances[n].mesh.id == k by {
        assert(m.live_meshes().contains(k));
        let n = choose|n: u64| #[trigger]
            m.live_instance(n) && m.instances.contains_key(n) && m.instances[n].mesh.id == k;
        assert(m.live_instances().contains(n));
        assert(r.instances.contains_key(n));
        lemma_instance_kept(m, r, n);
    }
    assert forall|k: u64| #[trigger] r.face_materials.contains_key(k) implies exists|n: u64|
        #[trigger]
        r.instances.contains_key(n) && (r.instances[n].face_material matches Some(h) && h.id
            == k) by {
        assert(m.live_faces().contains(k));
        let n = choose|n: u64| #[trigger]
            m.live_instance(n) && m.instances.contains_key(n) && opt_id(
                m.instances[n].face_material,
            ) == Some(k);
        assert(m.live_instances().contains(n));
        assert(r.instances.contains_key(n));
        lemma_instance_kept(m, r, n);
    }
    assert forall|k: u64| #[trigger] r.line_materials.contains_key(k) implies exists|n: u64|
        #[trigger]
        r.instances.contains_key(n) && (r.instances[n].line_material matches Some(h) && h.id
            == k) by {
        assert(m.live_lines().contains(k));
        let n = choose|n: u64| #[trigger]
            m.live_instance(n) && m.instances.contains_key(n) && opt_id(
                m.instances[n].line_material,
            ) == Some(k);
        assert(m.live_instances().contains(n));
        assert(r.instances.contains_key(n));
        lemma_instance_kept(m, r, n);
    }
    assert forall|k: u64| #[trigger] r.point_materials.contains_key(k) implies exists|n: u64|
        #[trigger]
        r.instances.contains_key(n) && (r.instances[n].point_material matches Some(h) && h.id
            == k) by {
        assert(m.live_points().contains(k));
        let n = choose|n: u64| #[trigger]
            m.live_instance(n) && m.instances.contains_key(n) && opt_id(
                m.instances[n].point_material,
            ) == Some(k);
        assert(m.live_instances().contains(n));
        assert(r.instances.contains_key(n));
        lemma_instance_kept(m, r, n);
    }
}

/// What rebinding keeps is what it was, but for the cores of its handles: instances show
/// the same mesh with the same materials, and materials have the same values and textures.
pub proof fn rebinding_keeps_values(m: SceneModel, r: SceneModel, k: u64)
    requires
        r.rebound(m),
    ensures
        r.instances.contains_key(k) ==> {
            let (a, b) = (m.instances[k], r.instances[k]);
            &&& b.id == a.id
            &&& b.mesh.id == a.mesh.id
            &&& same_target(b.face_material, a.face_material)
            &&& same_target(b.line_material, a.line_material)
            &&& same_target(b.point_material, a.point_material)
        },
        r.face_materials.contains_key(k) ==> {
            let (a, b) = (m.face_materials[k], r.face_materials[k]);
            &&& b.id == a.id
            &&& b.generation == a.generation
            &&& b.base_color_factor == a.base_color_factor
            &&& b.metallic == a.metallic
            &&& b.roughness == a.roughness
            &&& b.normal_scale == a.normal_scale
            &&& b.alpha_cutoff == a.alpha_cutoff
            &&& b.alpha_mode == a.alpha_mode
            &&& b.flags == a.flags
            &&& same_target(b.base_color_texture, a.base_color_texture)
            &&& same_target(b.normal_texture, a.normal_texture)
            &&& same_target(b.metallic_roughness_texture, a.metallic_roughness_texture)
        },
        r.line_materials.contains_key(k) ==> {
            let (a, b) = (m.line_materials[k], r.line_materials[k]);
            &&& b.id == a.id
            &&& b.generation == a.generation
            &&& b.color == a.color
            &&& b.alpha_mode == a.alpha_mode
            &&& same_target(b.base_color_texture, a.base_color_texture)
        },
        r.point_materials.contains_key(k) ==> {
            let (a, b) = (m.point_materials[k], r.point_materials[k]);
            &&& b.id == a.id
            &&& b.generation == a.generation
            &&& b.color == a.color
            &&& b.alpha_mode == a.alpha_mode
            &&& same_target(b.base_color_texture, a.base_color_texture)
        },
{
    if r.instances.contains_key(k) {
        let (a, b) = (m.instances[k].unbound(), r.instances[k].unbound());
        assert(a == b);
        assert(a.mesh == b.mesh && a.face_material == b.face_material && a.line_material
            == b.line_material && a.point_material == b.point_material);
    }
    if r.face_materials.contains_key(k) {
        let (a, b) = (m.face_materials[k].unbound(), r.face_materials[k].unbound());
        assert(a == b);
        assert(a.base_color_texture == b.base_color_texture && a.normal_texture
            == b.normal_texture && a.metallic_roughness_texture == b.metallic_roughness_texture);
    }
    if r.line_materials.contains_key(k) {
        let (a, b) = (m.line_materials[k].unbound(), r.line_materials[k].unbound());
        assert(a == b);
        assert(a.base_color_texture == b.base_color_texture);
    }
    if r.point_materials.contains_key(k) {
        let (a, b) = (m.point_materials[k].unbound(), r.point_materials[k].unbound());
        assert(a == b);
        assert(a.base_color_texture == b.base_color_texture);
    }
}

/// A scene is complete if and only if nothing that it refers to is missing: every child
/// that a node lists, every instance that a node carries, and of every instance, carried or
/// not, the mesh and each material that it has.
pub proof fn complete_scenes_lack_nothing(m: SceneModel)
    ensures
        m.complete() <==> {
            &&& forall|k: NodeId, i: int|
                m.nodes.contains_key(k) && 0 <= i < m.nodes[k].children.len()
                    ==> m.nodes.contains_key((#[trigger] m.nodes[k].children[i]).id)
            &&& forall|k: NodeId| #[trigger]
                m.nodes.contains_key(k) ==> (m.nodes[k].payload matches NodePayload::Instance(h)
                    ==> m.instances.contains_key(h.id))
            &&& forall|k: u64| #[trigger]
                m.instances.contains_key(k) ==> {
                    let parts = m.instances[k];
                    &&& m.meshes.contains_key(parts.mesh.id)
                    &&& parts.face_material matches Some(h) ==> m.face_materials.contains_key(h.id)
                    &&& parts.line_material matches Some(h) ==> m.line_materials.contains_key(h.id)
                    &&& parts.point_material matches Some(h) ==> m.point_materials.contains_key(
                        h.id,
                    )
                }
        },
{
    if m.complete() {
        assert forall|k: NodeId, i: int|
            m.nodes.contains_key(k) && 0 <= i < m.nodes[k].children.len() implies m.nodes.contains_key(
            (#[trigger] m.nodes[k].children[i]).id,
        ) by {
            assert(m.node_complete(k));
        }
        assert forall|k: NodeId| #[trigger] m.nodes.contains_key(k) implies (m.nodes[k].payload
            matches NodePayload::Instance(h) ==> m.instances.contains_key(h.id)) by {
            assert(m.node_complete(k));
        }
        assert forall|k: u64| #[trigger] m.instances.contains_key(k) implies {
            let parts = m.instances[k];
            &&& m.meshes.contains_key(parts.mesh.id)
            &&& parts.face_material matches Some(h) ==> m.face_materials.contains_key(h.id)
            &&& parts.line_material matches Some(h) ==> m.line_materials.contains_key(h.id)
            &&& parts.point_material matches Some(h) ==> m.point_materials.contains_key(h.id)
        } by {
            assert(m.instance_complete(k));
        }
    }
}

} // verus!
