//! Adding and replacing parts keeps a scene in order.

use super::nodes::{retained, slots_retained};
use crate::common::identity_transform;
use crate::data::laws::{
    add_instance_keeps_sound, add_mesh_keeps_sound, lemma_add_instance_clock,
    reaped_resources_are_live, retain_keeps_sound,
};
use crate::data::model::SceneModel;
use crate::data::node_laws::{
    add_node_keeps_sound, lemma_give_up_sound, lemma_reap_revives_nothing, set_payload_keeps_sound,
};
use crate::data::ownership::{
    instance_refs, lemma_count_append, lemma_count_opt, lemma_mint_strong,
    lemma_retain_strong, lemma_total_remove, node_refs, total,
};
use crate::resource::handle::{
    count_core, count_one,
    FaceMaterialHandle, GenericId, Handle, InstanceId, LineMaterialHandle, NodeId,
    PointMaterialHandle, ResourceKind,
};
use crate::resource::instance::InstanceParts;
use crate::resource::material::opt_seq;
use crate::resource::mesh::MeshModel;
use crate::resource::node::{NodeFlags, NodePayload};
use vstd::prelude::*;

verus! {

/// The handles for the materials of a part.
pub open spec fn slot_seq(
    face: Option<Handle>,
    line: Option<Handle>,
    point: Option<Handle>,
) -> Seq<Handle> {
    opt_seq(face) + opt_seq(line) + opt_seq(point)
}

/// How often a core is counted on by the materials of a part.
proof fn lemma_slot_seq(
    face: Option<Handle>,
    line: Option<Handle>,
    point: Option<Handle>,
    c: u64,
)
    ensures
        count_core(slot_seq(face, line, point), c) == count_core(opt_seq(face), c) + count_core(
            opt_seq(line),
            c,
        ) + count_core(opt_seq(point), c),
{
    lemma_count_append(opt_seq(face) + opt_seq(line), opt_seq(point), c);
    lemma_count_append(opt_seq(face), opt_seq(line), c);
}

/// Adding a mesh and an instance of it, under ids that no other kind of resource uses,
/// keeps a scene sound; one handle for the instance exists outside the scene.
pub proof fn add_part_keeps_sound(
    m: SceneModel,
    mesh: MeshModel,
    instance: InstanceId,
    face: Option<FaceMaterialHandle>,
    line: Option<LineMaterialHandle>,
    point: Option<PointMaterialHandle>,
)
    requires
        m.sound(),
        m.ledger.clock + 2 <= u64::MAX,
        m.id_open(ResourceKind::Mesh, mesh.id),
        m.id_open(ResourceKind::Instance, instance),
        mesh.id != instance,
        m.holds_outside(slot_seq(face, line, point)),
    ensures
        m.add_part(mesh, instance, face, line, point).0.sound(),
        forall|c: u64| #[trigger]
            m.add_part(mesh, instance, face, line, point).0.outside(c) == m.outside(c) + count_one(
                m.add_part(mesh, instance, face, line, point).1,
                c,
            ) - count_core(slot_seq(face, line, point), c),
        m.add_part(mesh, instance, face, line, point).0.ledger.clock == m.ledger.clock + 2,
{
    let a = m.add_mesh(mesh);
    let mesh_handle = m.added_mesh(mesh);
    add_mesh_keeps_sound(m, mesh);
    lemma_mint_strong(m.ledger, mesh.id, ResourceKind::Mesh, 0);
    let item = InstanceParts {
        id: instance,
        mesh: mesh_handle,
        face_material: face,
        line_material: line,
        point_material: point,
    };
    assert forall|c: u64| #[trigger] count_core(item.handles(), c) == count_one(mesh_handle, c)
        + count_core(slot_seq(face, line, point), c) by {
        assert(item.handles() =~= opt_seq(Some(mesh_handle)) + slot_seq(face, line, point));
        lemma_count_append(opt_seq(Some(mesh_handle)), slot_seq(face, line, point), c);
        lemma_count_opt(Some(mesh_handle), c);
    }
    assert(a.id_open(ResourceKind::Instance, instance)) by {
        assert forall|other: ResourceKind| #[trigger] a.present(other, instance) implies other
            == ResourceKind::Instance by {
            assert(m.present(other, instance));
        }
    }
    assert(a.holds_outside(item.handles())) by {
        assert forall|c: u64| #[trigger] a.refs(c) + count_core(item.handles(), c)
            <= a.ledger.strong(c) by {
            assert(a.outside(c) == m.outside(c) + count_one(mesh_handle, c));
            assert(m.refs(c) + count_core(slot_seq(face, line, point), c) <= m.ledger.strong(c));
        }
    }
    add_instance_keeps_sound(a, item);
    lemma_add_instance_clock(a, item);
    let b = m.add_part(mesh, instance, face, line, point).0;
    assert forall|c: u64| #[trigger] b.outside(c) == m.outside(c) + count_one(
        m.add_part(mesh, instance, face, line, point).1,
        c,
    ) - count_core(slot_seq(face, line, point), c) by {
        assert(a.outside(c) == m.outside(c) + count_one(mesh_handle, c));
        assert(a.add_instance(item).outside(c) == a.outside(c) + count_one(
            a.added_instance(item),
            c,
        ) - count_core(item.handles(), c));
    }
}

/// Adding a part under fresh ids keeps a scene sound, whether or not its parent is there.
pub proof fn finish_part_keeps_sound(
    m: SceneModel,
    mesh: MeshModel,
    instance: InstanceId,
    node: NodeId,
    face: FaceMaterialHandle,
    line: LineMaterialHandle,
    parent: Option<NodeId>,
    name: Option<Seq<char>>,
)
    requires
        m.sound(),
        m.ledger.clock + 4 <= u64::MAX,
        m.node_generation + 2 <= u64::MAX,
        m.id_open(ResourceKind::Mesh, mesh.id),
        m.id_open(ResourceKind::Instance, instance),
        forall|kind: ResourceKind| !#[trigger] m.present(kind, node),
        mesh.id != instance,
        node != mesh.id,
        node != instance,
        m.holds_outside(slot_seq(Some(face), Some(line), None)),
    ensures
        m.finish_part(mesh, instance, node, face, line, parent, name).0.sound(),
{
    let (a, h) = m.add_part(mesh, instance, Some(face), Some(line), None);
    let slots = slot_seq(Some(face), Some(line), None);
    add_part_keeps_sound(m, mesh, instance, Some(face), Some(line), None);
    assert forall|c: u64| #[trigger] a.outside(c) >= count_one(h, c) by {
        assert(m.refs(c) + count_core(slots, c) <= m.ledger.strong(c));
    }
    let missing = parent matches Some(p) && !m.nodes.contains_key(p);
    if missing {
        lemma_give_up_sound(a, h);
    } else {
        assert forall|kind: ResourceKind| !#[trigger] a.present(kind, node) by {
            assert(!m.present(kind, node));
        }
        add_node_keeps_sound(
            a,
            node,
            parent,
            name,
            identity_transform(),
            NodeFlags { bits: 0 },
        );
        let b = a.add_node(node, parent, name, identity_transform(), NodeFlags { bits: 0 });
        let payload = NodePayload::Instance(h);
        assert(b.holds_outside(opt_seq(payload.handle()))) by {
            assert forall|c: u64| #[trigger] b.refs(c) + count_core(opt_seq(payload.handle()), c)
                <= b.ledger.strong(c) by {
                lemma_count_opt(payload.handle(), c);
                assert(b.outside(c) == a.outside(c) + count_one(a.ledger.minted(node), c));
                assert(a.outside(c) >= count_one(h, c));
            }
        }
        set_payload_keeps_sound(b, node, payload);
    }
}

/// Making another handle like a live one, if there is one, keeps a scene sound.
proof fn lemma_retained_sound(m: SceneModel, h: Option<Handle>)
    requires
        m.sound(),
        m.ledger.clock < u64::MAX,
        h matches Some(h) ==> h.core is None || m.ledger.is_live(h),
    ensures
        m.with_ledger(retained(m.ledger, h)).sound(),
        forall|c: u64| #[trigger]
            m.with_ledger(retained(m.ledger, h)).outside(c) == m.outside(c) + count_core(
                opt_seq(h),
                c,
            ),
        m.ledger.clock <= retained(m.ledger, h).clock <= m.ledger.clock + 1,
        forall|x: Handle| #[trigger]
            m.ledger.is_live(x) ==> retained(m.ledger, h).is_live(x),
{
    let after = m.with_ledger(retained(m.ledger, h));
    assert(m.with_ledger(m.ledger) =~= m);
    match h {
        Some(x) if m.ledger.is_live(x) => {
            retain_keeps_sound(m, x);
        },
        _ => {},
    }
    assert forall|c: u64| #[trigger] after.outside(c) == m.outside(c) + count_core(
        opt_seq(h),
        c,
    ) by {
        lemma_count_opt(h, c);
    }
}

/// What an instance of a sound scene is drawn with is counted.
proof fn lemma_slots_counted(m: SceneModel, instance: InstanceId, c: u64)
    requires
        m.sound(),
        m.instances.contains_key(instance),
    ensures
        count_core(m.instances[instance].handles(), c) <= m.ledger.strong(c),
        total(m.instances, instance_refs(c)) >= count_core(m.instances[instance].handles(), c),
{
    lemma_total_remove(m.instances, instance_refs(c), instance);
    assert(m.refs(c) <= m.ledger.strong(c));
}

proof fn lemma_slot_count(item: InstanceParts, c: u64)
    ensures
        count_core(item.handles(), c) >= count_core(
            slot_seq(item.face_material, item.line_material, item.point_material),
            c,
        ),
        item.face_material matches Some(h) ==> count_core(item.handles(), c) >= count_one(h, c),
        item.line_material matches Some(h) ==> count_core(item.handles(), c) >= count_one(h, c),
        item.point_material matches Some(h) ==> count_core(item.handles(), c) >= count_one(h, c),
{
    let slots = slot_seq(item.face_material, item.line_material, item.point_material);
    let first = opt_seq(Some(item.mesh));
    assert(item.handles() =~= first + slots);
    lemma_count_append(first, slots, c);
    lemma_slot_seq(item.face_material, item.line_material, item.point_material, c);
    lemma_count_opt(item.face_material, c);
    lemma_count_opt(item.line_material, c);
    lemma_count_opt(item.point_material, c);
}

/// What a material slot of an instance holds is counted.
proof fn lemma_slot_live(m: SceneModel, instance: InstanceId, slot: Option<Handle>)
    requires
        m.sound(),
        m.instances.contains_key(instance),
        slot == m.instances[instance].face_material || slot
            == m.instances[instance].line_material || slot == m.instances[instance].point_material,
    ensures
        slot matches Some(h) ==> h.core is None || m.ledger.is_live(h),
{
    if let Some(h) = slot {
        if let Some(c) = h.core {
            lemma_slots_counted(m, instance, c);
            lemma_slot_count(m.instances[instance], c);
        }
    }
}

/// The handles of a re-tessellated part, counted once more.
proof fn lemma_shared_sound(m: SceneModel, instance: InstanceId)
    requires
        m.sound(),
        m.ledger.clock + 3 <= u64::MAX,
        m.instances.contains_key(instance),
    ensures
        ({
            let item = m.instances[instance];
            let slots = slot_seq(item.face_material, item.line_material, item.point_material);
            let shared = m.with_ledger(slots_retained(m.ledger, item));
            &&& shared.sound()
            &&& shared.ledger.clock <= m.ledger.clock + 3
            &&& forall|c: u64| #[trigger]
                shared.outside(c) == m.outside(c) + count_core(slots, c)
            &&& shared.holds_outside(slots)
        }),
{
    let item = m.instances[instance];
    let face = item.face_material;
    let line = item.line_material;
    let point = item.point_material;
    lemma_slot_live(m, instance, face);
    lemma_slot_live(m, instance, line);
    lemma_slot_live(m, instance, point);
    lemma_retained_sound(m, face);
    let one = m.with_ledger(retained(m.ledger, face));
    lemma_retained_sound(one, line);
    let two = m.with_ledger(retained(one.ledger, line));
    assert(one.with_ledger(retained(one.ledger, line)) =~= two);
    lemma_retained_sound(two, point);
    let shared = m.with_ledger(slots_retained(m.ledger, item));
    assert(two.with_ledger(retained(two.ledger, point)) =~= shared);
    assert forall|c: u64| #[trigger] shared.outside(c) == m.outside(c) + count_core(
        slot_seq(face, line, point),
        c,
    ) by {
        lemma_slot_seq(face, line, point, c);
        assert(one.outside(c) == m.outside(c) + count_core(opt_seq(face), c));
        assert(one.with_ledger(retained(one.ledger, line)).outside(c) == one.outside(c)
            + count_core(opt_seq(line), c));
        assert(two.with_ledger(retained(two.ledger, point)).outside(c) == two.outside(c)
            + count_core(opt_seq(point), c));
    }
    assert(shared.holds_outside(slot_seq(face, line, point))) by {
        assert forall|c: u64| #[trigger] shared.refs(c) + count_core(
            slot_seq(face, line, point),
            c,
        ) <= shared.ledger.strong(c) by {
            assert(shared.outside(c) == m.outside(c) + count_core(slot_seq(face, line, point), c));
            assert(m.refs(c) <= m.ledger.strong(c));
        }
    }
}

/// Re-tessellating a node, under ids that no other kind of resource uses, keeps a scene
/// sound, and changes nothing about the handles outside of it.
pub proof fn retessellating_keeps_sound(
    m: SceneModel,
    mesh: MeshModel,
    instance: InstanceId,
    node: NodeId,
)
    requires
        m.sound(),
        m.ledger.clock + 5 <= u64::MAX,
        m.node_generation < u64::MAX,
        m.id_open(ResourceKind::Mesh, mesh.id),
        m.id_open(ResourceKind::Instance, instance),
        mesh.id != instance,
    ensures
        m.retessellate_node(mesh, instance, node).sound(),
        forall|c: u64| #[trigger]
            m.retessellate_node(mesh, instance, node).outside(c) == m.outside(c),
{
    if let Ok(carried) = m.retessellated(node) {
        let item = m.instances[carried];
        let face = item.face_material;
        let line = item.line_material;
        let point = item.point_material;
        let shared = m.with_ledger(slots_retained(m.ledger, item));
        lemma_shared_sound(m, carried);
        assert forall|kind: ResourceKind, id: GenericId| #[trigger]
            shared.present(kind, id) == m.present(kind, id) by {}
        add_part_keeps_sound(shared, mesh, instance, face, line, point);
        let (a, h) = shared.add_part(mesh, instance, face, line, point);
        let payload = NodePayload::Instance(h);
        assert forall|c: u64| #[trigger] a.outside(c) == m.outside(c) + count_one(h, c) by {
            assert(shared.outside(c) == m.outside(c) + count_core(slot_seq(face, line, point), c));
        }
        assert(a.holds_outside(opt_seq(payload.handle()))) by {
            assert forall|c: u64| #[trigger] a.refs(c) + count_core(opt_seq(payload.handle()), c)
                <= a.ledger.strong(c) by {
                lemma_count_opt(payload.handle(), c);
                assert(a.outside(c) == m.outside(c) + count_one(h, c));
                assert(m.refs(c) <= m.ledger.strong(c));
            }
        }
        set_payload_keeps_sound(a, node, payload);
        let after = m.retessellate_node(mesh, instance, node);
        assert forall|c: u64| #[trigger] after.outside(c) == m.outside(c) by {
            lemma_count_opt(payload.handle(), c);
            assert(a.outside(c) == m.outside(c) + count_one(h, c));
            assert(a.set_node_payload(node, payload).outside(c) == a.outside(c) - count_core(
                opt_seq(payload.handle()),
                c,
            ));
        }
    }
}

/// Re-tessellating a node whose instance nothing else holds removes that instance with
/// the next reaping.
pub proof fn replaced_instance_is_removed(
    m: SceneModel,
    mesh: MeshModel,
    instance: InstanceId,
    node: NodeId,
)
    requires
        m.sound(),
        m.ledger.clock + 5 <= u64::MAX,
        m.node_generation + 1 + m.nodes.dom().len() <= u64::MAX,
        forall|kind: ResourceKind| !#[trigger] m.present(kind, mesh.id),
        forall|kind: ResourceKind| !#[trigger] m.present(kind, instance),
        mesh.id != instance,
        m.retessellated(node) is Ok,
        m.ledger.slots.contains_key(m.retessellated(node)->Ok_0),
        m.nodes[node].payload matches NodePayload::Instance(h) && h.core == Some(
            m.ledger.slots[h.id],
        ) && m.ledger.strong(m.ledger.slots[h.id]) == 1,
    ensures
        !m.retessellate_node(mesh, instance, node).reaped().instances.contains_key(
            m.retessellated(node)->Ok_0,
        ),
{
    let carried = m.retessellated(node)->Ok_0;
    let c = m.ledger.slots[carried];
    let item = m.instances[carried];
    let face = item.face_material;
    let line = item.line_material;
    let point = item.point_material;
    let shared = m.with_ledger(slots_retained(m.ledger, item));
    let (a, h) = shared.add_part(mesh, instance, face, line, point);
    let after = m.retessellate_node(mesh, instance, node);
    assert(m.present(ResourceKind::Instance, carried));
    assert(!m.present(ResourceKind::Instance, mesh.id));
    assert(!m.present(ResourceKind::Instance, instance));
    lemma_only_holder(m, node, carried);
    lemma_shared_sound(m, carried);
    assert forall|kind: ResourceKind, id: GenericId| #[trigger] shared.present(kind, id)
        == m.present(kind, id) by {}
    lemma_add_part_core(shared, mesh, instance, face, line, point, carried);
    assert(a.nodes == m.nodes);
    assert(!after.ledger.slot_live(carried));
    retessellating_keeps_sound(m, mesh, instance, node);
    assert(after.nodes.dom() =~= m.nodes.dom());
    lemma_reap_revives_nothing(after, carried);
    if after.reaped().instances.contains_key(carried) {
        assert(after.reaped().present(ResourceKind::Instance, carried));
        reaped_resources_are_live(after, ResourceKind::Instance, carried);
    }
}

/// When a node holds the only handle for its instance, sharing the instance's materials
/// makes no other.
proof fn lemma_only_holder(m: SceneModel, node: NodeId, carried: InstanceId)
    requires
        m.sound(),
        m.ledger.clock + 3 <= u64::MAX,
        m.nodes.contains_key(node),
        m.instances.contains_key(carried),
        m.ledger.slots.contains_key(carried),
        m.ledger.strong(m.ledger.slots[carried]) == 1,
        m.nodes[node].payload matches NodePayload::Instance(h) && h.id == carried && h.core
            == Some(m.ledger.slots[carried]),
    ensures
        ({
            let ledger = slots_retained(m.ledger, m.instances[carried]);
            &&& ledger.strong(m.ledger.slots[carried]) == 1
            &&& ledger.slots == m.ledger.slots
        }),
{
    let c = m.ledger.slots[carried];
    let item = m.instances[carried];
    let face = item.face_material;
    let line = item.line_material;
    let point = item.point_material;
    assert(m.refs(c) <= 1);
    assert(total(m.nodes, node_refs(c)) >= 1) by {
        lemma_total_remove(m.nodes, node_refs(c), node);
        lemma_count_append(m.nodes[node].children, opt_seq(m.nodes[node].payload.handle()), c);
        lemma_count_opt(m.nodes[node].payload.handle(), c);
    }
    lemma_slots_counted(m, carried, c);
    lemma_slot_count(item, c);
    lemma_slot_seq(face, line, point, c);
    lemma_count_opt(face, c);
    lemma_count_opt(line, c);
    lemma_count_opt(point, c);
    lemma_slot_live(m, carried, face);
    lemma_slot_live(m, carried, line);
    let one = m.with_ledger(retained(m.ledger, face));
    lemma_retained_sound(m, face);
    lemma_retained_sound(one, line);
    let two = one.with_ledger(retained(one.ledger, line));
    if let Some(x) = face {
        if m.ledger.is_live(x) {
            lemma_retain_strong(m.ledger, x, c);
        }
    }
    if let Some(x) = line {
        if one.ledger.is_live(x) {
            lemma_retain_strong(one.ledger, x, c);
        }
    }
    if let Some(x) = point {
        if two.ledger.is_live(x) {
            lemma_retain_strong(two.ledger, x, c);
        }
    }
}

/// Adding a part leaves the handles of another resource alone.
proof fn lemma_add_part_core(
    m: SceneModel,
    mesh: MeshModel,
    instance: InstanceId,
    face: Option<Handle>,
    line: Option<Handle>,
    point: Option<Handle>,
    other: GenericId,
)
    requires
        m.sound(),
        m.ledger.clock + 2 <= u64::MAX,
        forall|kind: ResourceKind| !#[trigger] m.present(kind, mesh.id),
        forall|kind: ResourceKind| !#[trigger] m.present(kind, instance),
        mesh.id != instance,
        other != mesh.id,
        other != instance,
        m.ledger.slot_live(other),
    ensures
        ({
            let ledger = m.add_part(mesh, instance, face, line, point).0.ledger;
            &&& ledger.strong(m.ledger.slots[other]) == m.ledger.strong(m.ledger.slots[other])
            &&& ledger.slots.contains_key(other)
            &&& ledger.slots[other] == m.ledger.slots[other]
        }),
{
    let c = m.ledger.slots[other];
    assert(!m.present(ResourceKind::Mesh, mesh.id));
    assert(!m.present(ResourceKind::Instance, instance));
    lemma_fresh_core(m, mesh.id, other);
    lemma_mint_strong(m.ledger, mesh.id, ResourceKind::Mesh, c);
    let b = m.add_mesh(mesh);
    add_mesh_keeps_sound(m, mesh);
    assert(b.ledger.slots[other] == c);
    assert(b.ledger.strong(c) == m.ledger.strong(c));
    assert(b.ledger.slot_live(other));
    lemma_fresh_core(b, instance, other);
    lemma_mint_strong(b.ledger, instance, ResourceKind::Instance, c);
    assert(!b.instances.contains_key(instance));
}

/// The core that a handle for one id counts on is not that of another.
proof fn lemma_fresh_core(m: SceneModel, id: GenericId, other: GenericId)
    requires
        m.sound(),
        id != other,
        m.ledger.slot_live(other),
    ensures
        m.ledger.core_for(id) != m.ledger.slots[other],
        count_one(m.ledger.minted(id), m.ledger.slots[other]) == 0,
{
    if m.ledger.slot_live(id) {
        assert(m.ledger.cores[m.ledger.slots[id]].id == id);
        assert(m.ledger.cores[m.ledger.slots[other]].id == other);
    }
}

} // verus!
