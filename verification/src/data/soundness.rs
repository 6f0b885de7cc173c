//! Every operation keeps the ownership invariant.
//!
//! The laws here are about [`SceneModel::sound`]: what keeps it, and what follows
//! from it for the resources of a scene.

use super::forest::{lemma_remove_orphaning, lemma_same_forest, same_shape};
use super::model::{lemma_release_all, lists_id, orphan, orphaned, SceneModel};
use super::ownership::{
    face_refs, instance_refs, lemma_count_append, lemma_count_member, lemma_release_all_cores,
    lemma_release_all_strong, lemma_total_empty, lemma_total_remove, lemma_total_same, line_refs,
    node_refs, point_refs,
};
use super::tree::{lemma_empty_forest, NodeMap};
use crate::resource::handle::{count_core, GenericId, Handle, LedgerModel, NodeId, ResourceKind};
use crate::resource::material::opt_seq;
use vstd::prelude::*;

verus! {

/// An empty scene is sound.
pub proof fn empty_is_sound()
    ensures
        SceneModel::empty().sound(),
{
    let m = SceneModel::empty();
    lemma_empty_forest();
    assert forall|c: u64| #[trigger] m.refs(c) <= m.ledger.strong(c) by {
        lemma_total_empty(node_refs(c));
        lemma_total_empty(instance_refs(c));
        lemma_total_empty(face_refs(c));
        lemma_total_empty(line_refs(c));
        lemma_total_empty(point_refs(c));
    }
}

/// A scene that was cleared is sound, whatever it held before.
pub proof fn cleared_is_sound(m: SceneModel, cleared: SceneModel)
    requires
        cleared == m.clear(),
        cleared.wf(),
    ensures
        cleared.sound(),
{
    lemma_empty_forest();
    assert forall|c: u64| #[trigger] cleared.refs(c) <= cleared.ledger.strong(c) by {
        lemma_total_empty(node_refs(c));
        lemma_total_empty(instance_refs(c));
        lemma_total_empty(face_refs(c));
        lemma_total_empty(line_refs(c));
        lemma_total_empty(point_refs(c));
    }
}

/// Giving up handles that exist outside the scene keeps the scene sound.
pub proof fn release_keeps_sound(m: SceneModel, hs: Seq<Handle>)
    requires
        m.sound(),
        m.holds_outside(hs),
    ensures
        m.with_ledger(m.ledger.release_all(hs)).sound(),
        forall|c: u64| #[trigger]
            m.with_ledger(m.ledger.release_all(hs)).outside(c) == m.outside(c) - count_core(hs, c),
{
    let after = m.with_ledger(m.ledger.release_all(hs));
    lemma_release_all(m.ledger, hs);
    lemma_release_all_cores(m.ledger, hs);
    assert forall|c: u64| #[trigger] after.outside(c) == m.outside(c) - count_core(hs, c) by {
        lemma_release_all_strong(m.ledger, hs, c);
        assert(m.refs(c) + count_core(hs, c) <= m.ledger.strong(c));
        assert(after.refs(c) == m.refs(c));
    }
    assert(after.counted()) by {
        assert forall|c: u64| #[trigger] after.refs(c) <= after.ledger.strong(c) by {
            assert(m.refs(c) + count_core(hs, c) <= m.ledger.strong(c));
            assert(after.outside(c) == m.outside(c) - count_core(hs, c));
            assert(after.refs(c) == m.refs(c));
        }
    }
    assert(after.tree_handles()) by {
        assert forall|i: int| 0 <= i < after.roots.len() implies after.names_node(
            #[trigger] after.roots[i],
        ) by {
            assert(m.names_node(m.roots[i]));
        }
        assert forall|k: NodeId, i: int|
            after.nodes.contains_key(k) && 0 <= i
                < after.nodes[k].children.len() implies after.names_node(
            #[trigger] after.nodes[k].children[i],
        ) by {
            assert(m.names_node(m.nodes[k].children[i]));
        }
    }
    assert(after.ids_apart()) by {
        assert forall|a: ResourceKind, b: ResourceKind, id: GenericId|
            #![trigger after.present(a, id), after.present(b, id)]
            after.present(a, id) && after.present(b, id) implies a == b by {
            assert(m.present(a, id) && m.present(b, id));
        }
    }
    assert(after.slots_sound()) by {
        assert forall|id: GenericId| #[trigger] after.ledger.slot_live(
            id,
        ) implies after.ledger.cores[after.ledger.slots[id]].id == id && after.present(
            after.ledger.cores[after.ledger.slots[id]].kind,
            id,
        ) by {
            let c = after.ledger.slots[id];
            assert(after.ledger.cores.contains_key(c));
            assert(m.ledger.slot_live(id));
            assert(m.present(m.ledger.cores[c].kind, id));
        }
    }
    assert(after.live_or_dropped()) by {
        assert forall|kind: ResourceKind, id: GenericId| #[trigger] after.present(
            kind,
            id,
        ) implies after.ledger.slot_live(id) || after.ledger.dropped.contains((kind, id)) by {
            assert(m.present(kind, id));
            if !after.ledger.slot_live(id) && m.ledger.slot_live(id) {
                let c = m.ledger.slots[id];
                assert(m.ledger.cores.contains_key(c));
                assert(m.present(m.ledger.cores[c].kind, id));
                assert(m.ledger.cores[c].kind == kind);
                assert(!after.ledger.cores.contains_key(c));
            }
        }
    }
}

/// Forgetting a slot and releasing handles can be done in either order.
pub proof fn lemma_forget_release(l: LedgerModel, id: GenericId, hs: Seq<Handle>)
    ensures
        l.forget(id).release_all(hs) == l.release_all(hs).forget(id),
    decreases hs.len(),
{
    if hs.len() > 0 {
        lemma_forget_release(l, id, hs.drop_last());
        let a = l.release_all(hs.drop_last());
        let h = hs.last();
        assert(a.forget(id).release(h) =~= a.release(h).forget(id));
    }
}

/// A node that some list of the scene tree names has a live canonical core.
pub proof fn lemma_named_is_live(m: SceneModel, id: NodeId)
    requires
        m.wf(),
        m.counted(),
        m.tree_handles(),
        lists_id(m.roots, id) || exists|k: NodeId| #[trigger]
            m.nodes.contains_key(k) && lists_id(m.nodes[k].children, id),
    ensures
        m.ledger.slot_live(id),
        m.nodes.contains_key(id),
        m.refs(m.ledger.slots[id]) >= 1,
{
    if lists_id(m.roots, id) {
        let i = choose|i: int| 0 <= i < m.roots.len() && (#[trigger] m.roots[i]).id == id;
        assert(m.names_node(m.roots[i]));
        let c = m.ledger.slots[id];
        lemma_count_member(m.roots, i, c);
        assert(m.refs(c) <= m.ledger.strong(c));
    } else {
        let k = choose|k: NodeId| #[trigger]
            m.nodes.contains_key(k) && lists_id(m.nodes[k].children, id);
        let i = choose|i: int|
            0 <= i < m.nodes[k].children.len() && (#[trigger] m.nodes[k].children[i]).id == id;
        assert(m.names_node(m.nodes[k].children[i]));
        let c = m.ledger.slots[id];
        lemma_count_member(m.nodes[k].children, i, c);
        lemma_count_append(m.nodes[k].children, opt_seq(m.nodes[k].payload.handle()), c);
        lemma_total_remove(m.nodes, node_refs(c), k);
        assert(m.refs(c) <= m.ledger.strong(c));
    }
}

/// The handles that a stored resource owns.
pub open spec fn owned_handles(m: SceneModel, kind: ResourceKind, id: GenericId) -> Seq<Handle> {
    match kind {
        ResourceKind::Mesh => Seq::empty(),
        ResourceKind::Texture => Seq::empty(),
        ResourceKind::Instance => m.instances[id].handles(),
        ResourceKind::Node => m.nodes[id].handles(),
        ResourceKind::FaceMaterial => m.face_materials[id].handles(),
        ResourceKind::LineMaterial => m.line_materials[id].handles(),
        ResourceKind::PointMaterial => m.point_materials[id].handles(),
    }
}

/// The scene with one resource taken out of its collection and its slot forgotten,
/// but with the handles it owned not yet given up.
spec fn taken_out(m: SceneModel, kind: ResourceKind, id: GenericId) -> SceneModel {
    let base = SceneModel {
        ledger: m.ledger.forget(id),
        removals: m.removals.push((kind, id)),
        ..m
    };
    match kind {
        ResourceKind::Mesh => SceneModel { meshes: m.meshes.remove(id), ..base },
        ResourceKind::Texture => SceneModel { textures: m.textures.remove(id), ..base },
        ResourceKind::Instance => SceneModel { instances: m.instances.remove(id), ..base },
        ResourceKind::FaceMaterial => SceneModel {
            face_materials: m.face_materials.remove(id),
            ..base
        },
        ResourceKind::LineMaterial => SceneModel {
            line_materials: m.line_materials.remove(id),
            ..base
        },
        ResourceKind::PointMaterial => SceneModel {
            point_materials: m.point_materials.remove(id),
            ..base
        },
        ResourceKind::Node => SceneModel {
            nodes: orphaned(m.nodes.remove(id), m.nodes[id].children),
            active_camera: if m.active_camera == Some(id) {
                None
            } else {
                m.active_camera
            },
            node_generation: (m.node_generation + 1) as u64,
            ..base
        },
    }
}

/// Giving up the transforms of orphans touches no link.
pub proof fn lemma_orphaned_shape(nodes: NodeMap, handles: Seq<Handle>)
    ensures
        same_shape(orphan(nodes, handles), orphaned(nodes, handles)),
        orphaned(nodes, handles).dom() == nodes.dom(),
{
    assert(orphan(nodes, handles).dom() =~= nodes.dom());
    assert(orphaned(nodes, handles).dom() =~= nodes.dom());
}

proof fn lemma_taken_out_refs(m: SceneModel, kind: ResourceKind, id: GenericId, c: u64)
    requires
        m.wf(),
        m.present(kind, id),
    ensures
        taken_out(m, kind, id).refs(c) + count_core(owned_handles(m, kind, id), c) == m.refs(c),
{
    match kind {
        ResourceKind::Instance => lemma_total_remove(m.instances, instance_refs(c), id),
        ResourceKind::FaceMaterial => lemma_total_remove(m.face_materials, face_refs(c), id),
        ResourceKind::LineMaterial => lemma_total_remove(m.line_materials, line_refs(c), id),
        ResourceKind::PointMaterial => lemma_total_remove(m.point_materials, point_refs(c), id),
        ResourceKind::Node => {
            lemma_total_remove(m.nodes, node_refs(c), id);
            let rest = m.nodes.remove(id);
            let after = orphaned(rest, m.nodes[id].children);
            assert(rest.dom() =~= after.dom());
            assert(rest.dom() =~= m.nodes.dom().remove(id));
            lemma_total_same(rest, after, node_refs(c));
        },
        _ => {},
    }
}

proof fn lemma_taken_out_released(m: SceneModel, kind: ResourceKind, id: GenericId)
    requires
        m.wf(),
        m.present(kind, id),
    ensures
        m.remove_resource(kind, id) == taken_out(m, kind, id).with_ledger(
            taken_out(m, kind, id).ledger.release_all(owned_handles(m, kind, id)),
        ),
{
    lemma_forget_release(m.ledger, id, owned_handles(m, kind, id));
    assert(m.ledger.forget(id).release_all(Seq::empty()) == m.ledger.forget(id));
    assert(m.remove_resource(kind, id) =~= taken_out(m, kind, id).with_ledger(
        taken_out(m, kind, id).ledger.release_all(owned_handles(m, kind, id)),
    ));
}

/// No list of the scene tree names a resource that is not a node, or a node that no
/// handle is left for.
pub proof fn lemma_unnamed(m: SceneModel, kind: ResourceKind, id: GenericId)
    requires
        m.sound(),
        m.present(kind, id),
        kind == ResourceKind::Node ==> !m.ledger.slot_live(id),
    ensures
        !lists_id(m.roots, id),
        forall|k: NodeId| #[trigger]
            m.nodes.contains_key(k) ==> !lists_id(m.nodes[k].children, id),
{
    if lists_id(m.roots, id) {
        lemma_named_is_live(m, id);
        assert(m.present(ResourceKind::Node, id));
    }
    assert forall|k: NodeId| #[trigger] m.nodes.contains_key(k) implies !lists_id(
        m.nodes[k].children,
        id,
    ) by {
        if lists_id(m.nodes[k].children, id) {
            lemma_named_is_live(m, id);
            assert(m.present(ResourceKind::Node, id));
        }
    }
}

/// Whether `after` holds the resources of `m` but one, and the same roots.
spec fn one_fewer(m: SceneModel, after: SceneModel, kind: ResourceKind, id: GenericId) -> bool {
    &&& forall|k: ResourceKind, x: GenericId| #[trigger]
        after.present(k, x) <==> m.present(k, x) && (k, x) != (kind, id)
    &&& after.roots == m.roots
    &&& after.ledger == m.ledger.forget(id)
    &&& forall|k: NodeId| #[trigger]
        after.nodes.contains_key(k) ==> m.nodes.contains_key(k) && after.nodes[k].children
            == m.nodes[k].children && after.nodes[k].id == m.nodes[k].id
}

proof fn lemma_taken_out_one_fewer(m: SceneModel, kind: ResourceKind, id: GenericId)
    requires
        m.wf(),
        m.present(kind, id),
        kind == ResourceKind::Node ==> m.node_generation < u64::MAX,
    ensures
        one_fewer(m, taken_out(m, kind, id), kind, id),
        taken_out(m, kind, id).wf(),
{
    let mid = taken_out(m, kind, id);
    assert forall|k: ResourceKind, x: GenericId| #[trigger] mid.present(k, x) <==> m.present(k, x)
        && (k, x) != (kind, id) by {
        match k {
            ResourceKind::Mesh => {},
            ResourceKind::Texture => {},
            ResourceKind::Instance => {},
            ResourceKind::Node => {},
            ResourceKind::FaceMaterial => {},
            ResourceKind::LineMaterial => {},
            ResourceKind::PointMaterial => {},
        }
    }
    assert(mid.ledger.wf()) by {
        assert forall|x: GenericId| #[trigger] mid.ledger.slots.contains_key(
            x,
        ) implies mid.ledger.slots[x] < mid.ledger.clock by {
            assert(m.ledger.slots.contains_key(x));
        }
    }
    if kind == ResourceKind::Node {
        assert(mid.nodes.dom() =~= m.nodes.dom().remove(id));
        assert forall|k: u64| #[trigger] mid.nodes.contains_key(k) implies mid.nodes[k].id == k by {
            assert(m.nodes.contains_key(k));
        }
    }
}

/// A scene with one resource fewer is sound when its nodes still form a forest, the
/// counts still cover what is stored, and nothing in the tree names the resource.
proof fn lemma_one_fewer_sound(
    m: SceneModel,
    after: SceneModel,
    kind: ResourceKind,
    id: GenericId,
)
    requires
        m.sound(),
        m.present(kind, id),
        one_fewer(m, after, kind, id),
        after.wf(),
        after.tree(),
        after.counted(),
        !lists_id(m.roots, id),
        forall|k: NodeId| #[trigger]
            m.nodes.contains_key(k) ==> !lists_id(m.nodes[k].children, id),
    ensures
        after.sound(),
{
    assert forall|k: NodeId|
        m.nodes.contains_key(k) && k != id implies #[trigger] after.nodes.contains_key(k) by {
        assert(m.present(ResourceKind::Node, k));
        assert(after.present(ResourceKind::Node, k));
    }
    assert(after.tree_handles()) by {
        assert forall|i: int| 0 <= i < after.roots.len() implies after.names_node(
            #[trigger] after.roots[i],
        ) by {
            assert(m.names_node(m.roots[i]));
            assert(m.roots[i].id != id);
        }
        assert forall|k: NodeId, i: int|
            after.nodes.contains_key(k) && 0 <= i
                < after.nodes[k].children.len() implies after.names_node(
            #[trigger] after.nodes[k].children[i],
        ) by {
            assert(m.nodes.contains_key(k));
            assert(m.names_node(m.nodes[k].children[i]));
            assert(!lists_id(m.nodes[k].children, id));
            assert(m.nodes[k].children[i].id != id);
        }
    }
    assert(after.ids_apart()) by {
        assert forall|a: ResourceKind, b: ResourceKind, x: GenericId|
            #![trigger after.present(a, x), after.present(b, x)]
            after.present(a, x) && after.present(b, x) implies a == b by {
            assert(m.present(a, x) && m.present(b, x));
        }
    }
    assert(after.slots_sound()) by {
        assert forall|x: GenericId| #[trigger] after.ledger.slot_live(
            x,
        ) implies after.ledger.cores[after.ledger.slots[x]].id == x && after.present(
            after.ledger.cores[after.ledger.slots[x]].kind,
            x,
        ) by {
            assert(x != id);
            assert(m.ledger.slot_live(x));
            assert(m.present(m.ledger.cores[m.ledger.slots[x]].kind, x));
        }
    }
    assert(after.live_or_dropped()) by {
        assert forall|k: ResourceKind, x: GenericId| #[trigger] after.present(
            k,
            x,
        ) implies after.ledger.slot_live(x) || after.ledger.dropped.contains((k, x)) by {
            assert(m.present(k, x));
            if x == id {
                assert(m.present(kind, id));
            }
            if m.ledger.slot_live(x) {
                assert(after.ledger.slot_live(x));
            }
        }
    }
}

/// Removing a resource keeps a scene sound, and leaves every handle outside the
/// scene as it was. A node may be removed so only when no handle for it is left.
pub proof fn remove_resource_keeps_sound(m: SceneModel, kind: ResourceKind, id: GenericId)
    requires
        m.sound(),
        kind == ResourceKind::Node && m.present(kind, id) ==> m.node_generation < u64::MAX,
        kind == ResourceKind::Node ==> !m.ledger.slot_live(id),
    ensures
        m.remove_resource(kind, id).sound(),
        forall|c: u64| #[trigger] m.remove_resource(kind, id).outside(c) == m.outside(c),
{
    if m.present(kind, id) {
        let mid = taken_out(m, kind, id);
        let hs = owned_handles(m, kind, id);
        assert forall|c: u64| #[trigger] mid.refs(c) + count_core(hs, c) <= mid.ledger.strong(
            c,
        ) by {
            lemma_taken_out_refs(m, kind, id, c);
            assert(m.refs(c) <= m.ledger.strong(c));
        }
        assert(mid.counted()) by {
            assert forall|c: u64| #[trigger] mid.refs(c) <= mid.ledger.strong(c) by {
                assert(mid.refs(c) + count_core(hs, c) <= mid.ledger.strong(c));
            }
        }
        if kind == ResourceKind::Node {
            lemma_remove_orphaning(m.nodes, m.roots, id);
            lemma_orphaned_shape(m.nodes.remove(id), m.nodes[id].children);
            lemma_same_forest(
                orphan(m.nodes.remove(id), m.nodes[id].children),
                mid.nodes,
                m.roots,
            );
        }
        lemma_unnamed(m, kind, id);
        lemma_taken_out_one_fewer(m, kind, id);
        lemma_one_fewer_sound(m, mid, kind, id);
        release_keeps_sound(mid, hs);
        lemma_taken_out_released(m, kind, id);
        assert forall|c: u64| #[trigger] m.remove_resource(kind, id).outside(c) == m.outside(
            c,
        ) by {
            lemma_taken_out_refs(m, kind, id, c);
            assert(mid.with_ledger(mid.ledger.release_all(hs)).outside(c) == mid.outside(c)
                - count_core(hs, c));
        }
    }
}

/// Handling one entry of the queue keeps a scene sound, and leaves every handle
/// outside the scene as it was.
pub proof fn reap_one_keeps_sound(m: SceneModel)
    requires
        m.sound(),
        m.ledger.dropped.len() > 0,
        m.node_generation + m.nodes.dom().len() <= u64::MAX,
    ensures
        m.reap_one().sound(),
        forall|c: u64| #[trigger] m.reap_one().outside(c) == m.outside(c),
{
    let entry = m.ledger.dropped[0];
    let rest = m.with_ledger(m.ledger.without_oldest());
    assert forall|e: (ResourceKind, GenericId)|
        m.ledger.dropped.contains(e) && e != entry implies rest.ledger.dropped.contains(e) by {
        let i = choose|i: int| 0 <= i < m.ledger.dropped.len() && m.ledger.dropped[i] == e;
        assert(rest.ledger.dropped[i - 1] == e);
    }
    assert forall|c: u64| #[trigger] rest.refs(c) == m.refs(c) by {}
    assert(rest.tree_handles()) by {
        assert forall|i: int| 0 <= i < rest.roots.len() implies rest.names_node(
            #[trigger] rest.roots[i],
        ) by {
            assert(m.names_node(m.roots[i]));
        }
        assert forall|k: NodeId, i: int|
            rest.nodes.contains_key(k) && 0 <= i
                < rest.nodes[k].children.len() implies rest.names_node(
            #[trigger] rest.nodes[k].children[i],
        ) by {
            assert(m.names_node(m.nodes[k].children[i]));
        }
    }
    assert(rest.ids_apart()) by {
        assert forall|a: ResourceKind, b: ResourceKind, id: GenericId|
            #![trigger rest.present(a, id), rest.present(b, id)]
            rest.present(a, id) && rest.present(b, id) implies a == b by {
            assert(m.present(a, id) && m.present(b, id));
        }
    }
    assert(rest.slots_sound()) by {
        assert forall|id: GenericId| #[trigger] rest.ledger.slot_live(
            id,
        ) implies rest.ledger.cores[rest.ledger.slots[id]].id == id && rest.present(
            rest.ledger.cores[rest.ledger.slots[id]].kind,
            id,
        ) by {
            assert(m.ledger.slot_live(id));
        }
    }
    assert(rest.counted()) by {
        assert forall|c: u64| #[trigger] rest.refs(c) <= rest.ledger.strong(c) by {
            assert(m.refs(c) <= m.ledger.strong(c));
        }
    }
    if rest.ledger.slot_live(entry.1) {
        assert(rest.live_or_dropped()) by {
            assert forall|kind: ResourceKind, id: GenericId| #[trigger] rest.present(
                kind,
                id,
            ) implies rest.ledger.slot_live(id) || rest.ledger.dropped.contains((kind, id)) by {
                assert(m.present(kind, id));
            }
        }
    } else {
        // With the entry put back in front, removing its resource keeps soundness;
        // the resource being gone, the entry is needed no more.
        let gone = m.remove_resource(entry.0, entry.1);
        if entry.0 == ResourceKind::Node && m.present(entry.0, entry.1) {
            assert(m.nodes.dom().contains(entry.1));
            assert(m.nodes.dom().len() > 0);
        }
        remove_resource_keeps_sound(m, entry.0, entry.1);
        let after = m.reap_one();
        if m.present(entry.0, entry.1) {
            lemma_skip_release(
                m.ledger,
                owned_handles(m, entry.0, entry.1),
            );
            lemma_release_all(m.ledger, owned_handles(m, entry.0, entry.1));
            lemma_dropped_grows(m.ledger, owned_handles(m, entry.0, entry.1));
            assert(m.ledger.forget(entry.1).release_all(Seq::empty()) == m.ledger.forget(entry.1));
            assert(rest.ledger.release_all(Seq::empty()) == rest.ledger);
        }
        assert(gone.ledger.dropped.len() > 0 && gone.ledger.dropped[0] == entry);
        assert(after =~= gone.with_ledger(gone.ledger.without_oldest()));
        assert forall|e: (ResourceKind, GenericId)|
            gone.ledger.dropped.contains(e) && e != entry implies after.ledger.dropped.contains(
            e,
        ) by {
            let i = choose|i: int|
                0 <= i < gone.ledger.dropped.len() && gone.ledger.dropped[i] == e;
            assert(after.ledger.dropped[i - 1] == e);
        }
        assert forall|c: u64| #[trigger] after.refs(c) == gone.refs(c) by {}
        assert(after.counted()) by {
            assert forall|c: u64| #[trigger] after.refs(c) <= after.ledger.strong(c) by {
                assert(gone.refs(c) <= gone.ledger.strong(c));
            }
        }
        assert(after.tree_handles()) by {
            assert forall|i: int| 0 <= i < after.roots.len() implies after.names_node(
                #[trigger] after.roots[i],
            ) by {
                assert(gone.names_node(gone.roots[i]));
            }
            assert forall|k: NodeId, i: int|
                after.nodes.contains_key(k) && 0 <= i
                    < after.nodes[k].children.len() implies after.names_node(
                #[trigger] after.nodes[k].children[i],
            ) by {
                assert(gone.names_node(gone.nodes[k].children[i]));
            }
        }
        assert(after.ids_apart()) by {
            assert forall|a: ResourceKind, b: ResourceKind, id: GenericId|
                #![trigger after.present(a, id), after.present(b, id)]
                after.present(a, id) && after.present(b, id) implies a == b by {
                assert(gone.present(a, id) && gone.present(b, id));
            }
        }
        assert(after.slots_sound()) by {
            assert forall|id: GenericId| #[trigger] after.ledger.slot_live(
                id,
            ) implies after.ledger.cores[after.ledger.slots[id]].id == id && after.present(
                after.ledger.cores[after.ledger.slots[id]].kind,
                id,
            ) by {
                assert(gone.ledger.slot_live(id));
            }
        }
        assert(after.live_or_dropped()) by {
            assert forall|kind: ResourceKind, id: GenericId| #[trigger] after.present(
                kind,
                id,
            ) implies after.ledger.slot_live(id) || after.ledger.dropped.contains((kind, id)) by {
                assert(gone.present(kind, id));
                assert((kind, id) != entry);
            }
        }
        assert forall|c: u64| #[trigger] after.outside(c) == m.outside(c) by {
            assert(gone.outside(c) == m.outside(c));
        }
    }
}

/// The queue's oldest entry plays no part in releasing handles.
proof fn lemma_skip_release(l: LedgerModel, hs: Seq<Handle>)
    requires
        l.dropped.len() > 0,
    ensures
        l.without_oldest().release_all(hs) == l.release_all(hs).without_oldest(),
        l.release_all(hs).dropped.len() > 0,
    decreases hs.len(),
{
    if hs.len() > 0 {
        lemma_skip_release(l, hs.drop_last());
        let a = l.release_all(hs.drop_last());
        let b = a.without_oldest();
        let h = hs.last();
        assert(b.release(h) =~= a.release(h).without_oldest()) by {
            assert(a.release(h).dropped.skip(1) =~= b.release(h).dropped);
        }
    }
}

/// Releasing handles only appends to the queue.
proof fn lemma_dropped_grows(l: LedgerModel, hs: Seq<Handle>)
    ensures
        l.release_all(hs).dropped.len() >= l.dropped.len(),
        l.release_all(hs).dropped.take(l.dropped.len() as int) == l.dropped,
    decreases hs.len(),
{
    if hs.len() > 0 {
        lemma_dropped_grows(l, hs.drop_last());
        let a = l.release_all(hs.drop_last());
        assert(a.release(hs.last()).dropped.take(l.dropped.len() as int) =~= a.dropped.take(
            l.dropped.len() as int,
        ));
    } else {
        assert(l.dropped.take(l.dropped.len() as int) =~= l.dropped);
    }
}

} // verus!
