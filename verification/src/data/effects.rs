//! What operations on nodes do, by the links and attributes that they change and by those
//! that they leave.

use super::bounds_laws::children_present;
use super::cameras::Positioned;
use super::forest::{
    lemma_push_distinct, lemma_same_descends, lemma_same_relations, lemma_without_first,
};
use super::model::{lists_id, SceneModel};
use super::nodes::{
    fill_rotation, key_rotation, lemma_below_bound, lemma_below_present, subtree,
};
use super::tree::{
    above, below, below_within, climb, climb_ends, climbs, descends, descent_ends,
    lemma_above_present, NodeMap,
};
use super::visibility::{
    depth_below, effective_visibility, hidden_from_above, lemma_visibility_depth, shown_below,
    visibility_within,
};
use super::visibility_coherence::{
    lemma_unseen_shape, seen_answers_are_true, seen_right, unseen,
};
use super::walk::{hangs, lemma_all_rooted};
use super::world::{world, Compose};
use crate::camera::PositionedCamera;
use crate::common::{
    identity_transform, negated, scalar_lt_spec, Point3, Quaternion, Scalar, Transform, Vector3,
};
use crate::error::SceneError;
use crate::light::Light;
use crate::resource::display::RenderLayer;
use crate::resource::handle::{count_core, GenericId, Handle, NodeId, ResourceKind};
use crate::resource::instance::InstanceParts;
use crate::resource::material::{
    opt_seq, FaceMaterialParts, LineMaterialParts, PointMaterialParts,
};
use crate::resource::mesh::MeshModel;
use crate::resource::node::{
    lemma_first_index, EffectiveVisibility, NodeFlags, NodeModel, NodePayload, Visibility,
};
use crate::resource::texture::TextureModel;
use vstd::prelude::*;

verus! {

/// Whether a node has what it had, but for its links and what is cached of it.
pub open spec fn unchanged(before: NodeModel, after: NodeModel) -> bool {
    &&& after.id == before.id
    &&& after.name == before.name
    &&& after.transform == before.transform
    &&& after.flags == before.flags
    &&& after.visibility == before.visibility
    &&& after.display == before.display
    &&& after.payload == before.payload
}

/// Whether a node has the links that it had.
pub open spec fn unmoved(before: NodeModel, after: NodeModel) -> bool {
    after.parent == before.parent && after.children == before.children
}

/// Whether everything of a scene but its tree is as it was.
pub open spec fn resources_unchanged(before: SceneModel, after: SceneModel) -> bool {
    &&& after.meshes == before.meshes
    &&& after.instances == before.instances
    &&& after.face_materials == before.face_materials
    &&& after.line_materials == before.line_materials
    &&& after.point_materials == before.point_materials
    &&& after.textures == before.textures
    &&& after.environment_maps == before.environment_maps
    &&& after.active_environment_map == before.active_environment_map
    &&& after.active_camera == before.active_camera
    &&& after.removals == before.removals
}

/// Whether a node is the last of those in a list, and the list is else what it was.
pub open spec fn joins(before: Seq<Handle>, after: Seq<Handle>, id: NodeId) -> bool {
    &&& after.len() == before.len() + 1
    &&& after.last().id == id
    &&& after.drop_last() == before
}

/// A node that is added hangs below its parent, or off the roots, as the last there, with
/// what it was given and nothing else: visible, ordinary, empty and without children. No
/// other node changes but for the list of the parent, and nothing else of the scene does.
pub proof fn added_nodes_hang_where_they_were_put(
    m: SceneModel,
    id: NodeId,
    parent: Option<NodeId>,
    name: Option<Seq<char>>,
    transform: Transform,
    flags: NodeFlags,
)
    requires
        !m.nodes.contains_key(id),
        parent matches Some(p) ==> m.nodes.contains_key(p),
    ensures
        ({
            let after = m.add_node(id, parent, name, transform, flags);
            let node = after.nodes[id];
            &&& forall|k: NodeId| #[trigger]
                after.nodes.contains_key(k) <==> m.nodes.contains_key(k) || k == id
            &&& node.id == id
            &&& node.name == name
            &&& node.transform == transform
            &&& node.flags == flags
            &&& node.parent == parent
            &&& node.children.len() == 0
            &&& node.visibility == Visibility::Visible
            &&& node.display.screen_size is None
            &&& !node.display.screen_facing
            &&& node.display.layer == RenderLayer::Scene
            &&& node.payload == NodePayload::Empty
            &&& parent matches Some(p) ==> joins(
                m.nodes[p].children,
                after.nodes[p].children,
                id,
            ) && after.roots == m.roots
            &&& parent is None ==> joins(m.roots, after.roots, id)
            &&& forall|k: NodeId| #[trigger]
                m.nodes.contains_key(k) ==> unchanged(m.nodes[k], after.nodes[k])
                    && after.nodes[k].parent == m.nodes[k].parent && (parent != Some(k)
                    ==> after.nodes[k].children == m.nodes[k].children)
            &&& resources_unchanged(m, after)
        }),
{
    let after = m.add_node(id, parent, name, transform, flags);
    match parent {
        Some(p) => {
            assert(m.unsummed(parent).nodes.contains_key(p));
            assert(after.nodes[p].children.drop_last() =~= m.nodes[p].children);
        },
        None => {
            assert(after.roots.drop_last() =~= m.roots);
        },
    }
    assert forall|k: NodeId| #[trigger] m.nodes.contains_key(k) implies unchanged(
        m.nodes[k],
        after.nodes[k],
    ) && after.nodes[k].parent == m.nodes[k].parent && (parent != Some(k)
        ==> after.nodes[k].children == m.nodes[k].children) by {
        assert(m.unsummed(parent).nodes.contains_key(k));
    }
}

/// A node that is moved hangs below its new parent, or off the roots, as the last there,
/// and nowhere else; what hangs below it comes along. All other nodes stay where they
/// are, no node changes in any other way, and nothing else of the scene does.
pub proof fn moved_nodes_hang_where_they_were_put(
    m: SceneModel,
    id: NodeId,
    new_parent: Option<NodeId>,
)
    requires
        m.sound(),
        m.reparent_error(id, new_parent) is None,
    ensures
        ({
            let after = m.reparent_node(id, new_parent);
            &&& forall|k: NodeId| #[trigger]
                after.nodes.contains_key(k) <==> m.nodes.contains_key(k)
            &&& after.nodes[id].parent == new_parent
            &&& new_parent matches Some(p) ==> after.nodes[p].children.len() > 0
                && after.nodes[p].children.last().id == id
            &&& new_parent is None ==> after.roots.len() > 0 && after.roots.last().id == id
            &&& forall|k: NodeId| #[trigger]
                m.nodes.contains_key(k) ==> unchanged(m.nodes[k], after.nodes[k]) && (k != id
                    ==> after.nodes[k].parent == m.nodes[k].parent)
            &&& forall|k: NodeId, c: NodeId|
                m.nodes.contains_key(k) && c != id ==> #[trigger] lists_id(
                    after.nodes[k].children,
                    c,
                ) == lists_id(m.nodes[k].children, c)
            &&& forall|k: NodeId|
                m.nodes.contains_key(k) ==> #[trigger] lists_id(after.nodes[k].children, id) == (
                new_parent == Some(k))
            &&& forall|r: NodeId|
                r != id ==> #[trigger] lists_id(after.roots, r) == lists_id(m.roots, r)
            &&& lists_id(after.roots, id) == (new_parent is None)
            &&& resources_unchanged(m, after)
        }),
{
    let after = m.reparent_node(id, new_parent);
    let nodes = m.nodes;
    let h = m.moved_handle(id);
    assert(h.id == id) by {
        lemma_without_first(m.roots, id);
        if let Some(p) = nodes[id].parent {
            assert(lists_id(nodes[p].children, id));
            lemma_without_first(nodes[p].children, id);
            lemma_first_index(nodes[p].children, id);
        }
        lemma_first_index(m.roots, id);
    }
    lemma_without_first(m.roots, id);
    if let Some(p) = nodes[id].parent {
        lemma_without_first(nodes[p].children, id);
    }
    let cut = m.unhung(id);
    let loose = m.detach(id);
    assert forall|k: NodeId| #[trigger] nodes.contains_key(k) implies loose.nodes.contains_key(k)
        && unchanged(nodes[k], loose.nodes[k]) && loose.nodes[k].children
        == cut.nodes[k].children && loose.nodes[k].parent == (if k == id {
        None
    } else {
        nodes[k].parent
    }) by {
        assert(cut.nodes.contains_key(k));
    }
    assert forall|k: NodeId, c: NodeId|
        nodes.contains_key(k) implies #[trigger] lists_id(loose.nodes[k].children, c) == (lists_id(
        nodes[k].children,
        c,
    ) && c != id) by {
        if c == id && lists_id(nodes[k].children, id) {
            assert(nodes[id].parent == Some(k));
        }
    }
    if let Some(p) = new_parent {
        lemma_push_distinct(loose.nodes[p].children, h);
    } else {
        lemma_push_distinct(loose.roots, h);
    }
    let ready = loose.unsummed(new_parent).with_ledger(m.moved_ledger(id));
    assert forall|k: NodeId| #[trigger] nodes.contains_key(k) implies ready.nodes.contains_key(k)
        && unchanged(nodes[k], ready.nodes[k]) && ready.nodes[k].children
        == loose.nodes[k].children && ready.nodes[k].parent == loose.nodes[k].parent by {
        assert(loose.nodes.contains_key(k));
    }
    assert(after.nodes == ready.hung(h, new_parent).nodes);
    assert forall|k: NodeId|
        m.nodes.contains_key(k) implies #[trigger] lists_id(after.nodes[k].children, id) == (
    new_parent == Some(k)) by {
        assert(!lists_id(loose.nodes[k].children, id));
        assert(ready.nodes.contains_key(k));
    }
    assert forall|k: NodeId, c: NodeId|
        m.nodes.contains_key(k) && c != id implies #[trigger] lists_id(after.nodes[k].children, c)
        == lists_id(m.nodes[k].children, c) by {
        assert(lists_id(loose.nodes[k].children, c) == lists_id(nodes[k].children, c));
        assert(ready.nodes.contains_key(k));
    }
    assert(loose.roots == cut.roots);
}

/// Setting the local transform of a node changes that transform and no other.
pub proof fn setting_a_transform_sets_it(m: SceneModel, id: NodeId, transform: Transform)
    requires
        m.nodes.contains_key(id),
    ensures
        ({
            let after = m.set_node_transform(id, transform);
            &&& after.nodes.dom() == m.nodes.dom()
            &&& after.nodes[id].transform == transform
            &&& unchanged(m.nodes[id], NodeModel {
                transform: m.nodes[id].transform,
                ..after.nodes[id]
            })
            &&& forall|k: NodeId| #[trigger]
                m.nodes.contains_key(k) ==> unmoved(m.nodes[k], after.nodes[k]) && (k != id
                    ==> unchanged(m.nodes[k], after.nodes[k]))
            &&& after.roots == m.roots
            &&& resources_unchanged(m, after)
        }),
{
    let after = m.set_node_transform(id, transform);
    assert(after.nodes.dom() =~= m.nodes.dom());
}

/// Setting the payload of a node changes that payload and no other.
pub proof fn setting_a_payload_sets_it(m: SceneModel, id: NodeId, payload: NodePayload)
    requires
        m.nodes.contains_key(id),
    ensures
        ({
            let after = m.set_node_payload(id, payload);
            &&& after.nodes.dom() == m.nodes.dom()
            &&& after.nodes[id].payload == payload
            &&& unchanged(m.nodes[id], NodeModel {
                payload: m.nodes[id].payload,
                ..after.nodes[id]
            })
            &&& forall|k: NodeId| #[trigger]
                m.nodes.contains_key(k) ==> unmoved(m.nodes[k], after.nodes[k]) && (k != id
                    ==> unchanged(m.nodes[k], after.nodes[k]))
            &&& after.roots == m.roots
            &&& resources_unchanged(m, after)
        }),
{
    let after = m.set_node_payload(id, payload);
    assert(after.nodes.dom() =~= m.nodes.dom());
}

/// Setting the flags of a node changes those flags and no others.
pub proof fn setting_flags_sets_them(m: SceneModel, id: NodeId, flags: NodeFlags)
    requires
        m.nodes.contains_key(id),
    ensures
        ({
            let after = m.set_node_flags(id, flags);
            &&& after.nodes.dom() == m.nodes.dom()
            &&& after.nodes[id].flags == flags
            &&& unchanged(m.nodes[id], NodeModel { flags: m.nodes[id].flags, ..after.nodes[id] })
            &&& forall|k: NodeId| #[trigger]
                m.nodes.contains_key(k) ==> unmoved(m.nodes[k], after.nodes[k]) && (k != id
                    ==> unchanged(m.nodes[k], after.nodes[k]))
            &&& after.roots == m.roots
            &&& resources_unchanged(m, after)
        }),
{
    let after = m.set_node_flags(id, flags);
    assert(after.nodes.dom() =~= m.nodes.dom());
}

/// Hiding a node makes it and all below it invisible, and showing a node makes that node
/// alone visible; every other node stays as it was, and so does everything but visibility.
pub proof fn showing_and_hiding_reach_as_far_as_they_should(
    m: SceneModel,
    id: NodeId,
    visibility: Visibility,
    k: NodeId,
)
    requires
        m.nodes.contains_key(id),
        m.nodes.contains_key(k),
    ensures
        ({
            let after = m.set_node_visibility(id, visibility);
            let reached = k == id || (visibility == Visibility::Invisible && below(
                m.nodes,
                k,
                id,
            ));
            &&& after.nodes.dom() == m.nodes.dom()
            &&& reached ==> after.nodes[k].visibility == visibility
            &&& !reached ==> after.nodes[k].visibility == m.nodes[k].visibility
            &&& unchanged(m.nodes[k], NodeModel {
                visibility: m.nodes[k].visibility,
                ..after.nodes[k]
            })
            &&& unmoved(m.nodes[k], after.nodes[k])
            &&& after.roots == m.roots
            &&& resources_unchanged(m, after)
        }),
{
    let after = m.set_node_visibility(id, visibility);
    assert(after.nodes.dom() =~= m.nodes.dom());
    assert(below_within(m.nodes, id, id, 0));
    assert(below(m.nodes, id, id));
    assert(subtree(m.nodes, id).contains(k) == below(m.nodes, k, id));
}

/// A camera that is written to the active camera node is what that node then carries, at
/// the pose that stands for it; no other node changes.
pub proof fn written_cameras_are_carried(
    m: SceneModel,
    camera: PositionedCamera,
    pose: spec_fn(PositionedCamera) -> Transform,
)
    requires
        m.active_camera is Some,
        m.nodes.contains_key(m.active_camera->0),
    ensures
        ({
            let after = m.set_camera(camera, pose);
            let id = m.active_camera->0;
            &&& after.active_camera == m.active_camera
            &&& after.camera_of(id) == Some(camera.projection)
            &&& after.active_camera_data() == Some(camera.projection)
            &&& after.nodes[id].transform == pose(camera)
            &&& forall|k: NodeId| #[trigger]
                m.nodes.contains_key(k) && k != id ==> after.nodes.contains_key(k) && unchanged(
                    m.nodes[k],
                    after.nodes[k],
                ) && unmoved(m.nodes[k], after.nodes[k])
        }),
{
    let id = m.active_camera->0;
    let turned = m.set_node_transform(id, pose(camera));
    setting_a_transform_sets_it(m, id, pose(camera));
    setting_a_payload_sets_it(turned, id, NodePayload::Camera(camera.projection));
    assert forall|k: NodeId| #[trigger] m.nodes.contains_key(k) && k != id implies {
        let after = m.set_camera(camera, pose);
        after.nodes.contains_key(k) && unchanged(m.nodes[k], after.nodes[k]) && unmoved(
            m.nodes[k],
            after.nodes[k],
        )
    } by {
        assert(turned.nodes.contains_key(k));
    }
}

proof fn lemma_all_shown(nodes: NodeMap, id: NodeId, n: nat)
    requires
        forall|k: NodeId| #[trigger] nodes.contains_key(k) ==> nodes[k].visibility_cache is None,
        children_present(nodes),
        nodes.contains_key(id),
        descends(nodes, id, n),
    ensures
        visibility_within(nodes, id, n) == EffectiveVisibility::Visible <==> forall|k: NodeId|
            #[trigger]
            below_within(nodes, k, id, n) ==> nodes[k].visibility == Visibility::Visible,
    decreases n,
{
    let children = nodes[id].children;
    assert(below_within(nodes, id, id, n));
    if n > 0 {
        let less = (n - 1) as nat;
        assert forall|i: int| 0 <= i < children.len() implies (visibility_within(
            nodes,
            (#[trigger] children[i]).id,
            less,
        ) == EffectiveVisibility::Visible <==> forall|k: NodeId| #[trigger]
            below_within(nodes, k, children[i].id, less) ==> nodes[k].visibility
                == Visibility::Visible) by {
            assert(nodes[id].children[i] == children[i]);
            lemma_all_shown(nodes, children[i].id, less);
        }
        if visibility_within(nodes, id, n) == EffectiveVisibility::Visible {
            assert forall|k: NodeId| #[trigger]
                below_within(nodes, k, id, n) implies nodes[k].visibility
                == Visibility::Visible by {
                if k != id {
                    let i = choose|i: int|
                        0 <= i < nodes[id].children.len() && below_within(
                            nodes,
                            k,
                            (#[trigger] nodes[id].children[i]).id,
                            (n - 1) as nat,
                        );
                    assert(below_within(nodes, k, children[i].id, less));
                }
            }
        }
        if forall|k: NodeId| #[trigger]
            below_within(nodes, k, id, n) ==> nodes[k].visibility == Visibility::Visible {
            assert forall|i: int| 0 <= i < children.len() implies visibility_within(
                nodes,
                (#[trigger] children[i]).id,
                less,
            ) == EffectiveVisibility::Visible by {
                assert forall|k: NodeId| #[trigger]
                    below_within(nodes, k, children[i].id, less) implies nodes[k].visibility
                    == Visibility::Visible by {
                    assert(nodes[id].children[i] == children[i]);
                    assert(below_within(nodes, k, id, n));
                }
            }
        }
    } else {
        if children.len() > 0 {
            assert(nodes[id].children[0] == children[0]);
        }
        assert forall|k: NodeId| #[trigger] below_within(nodes, k, id, n) implies k == id by {}
    }
}

/// What is shown of a node: nothing if and only if it or a node above it is invisible; all
/// of it if and only if besides every node below it is visible; and else a part.
pub proof fn visibility_is_decided_above_and_below(nodes: NodeMap, id: NodeId)
    requires
        seen_right(nodes),
        descent_ends(nodes, id),
        children_present(nodes),
        nodes.contains_key(id),
    ensures
        effective_visibility(nodes, id) == EffectiveVisibility::Invisible <==> exists|a: NodeId|
            #[trigger]
            above(nodes, a, id) && nodes[a].visibility == Visibility::Invisible,
        effective_visibility(nodes, id) == EffectiveVisibility::Visible <==> (forall|a: NodeId|
            #[trigger]
            above(nodes, a, id) ==> nodes[a].visibility == Visibility::Visible) && (forall|
            k: NodeId,
        | #[trigger]
            below(nodes, k, id) ==> nodes[k].visibility == Visibility::Visible),
{
    let bare = unseen(nodes);
    let n = depth_below(nodes, id);
    lemma_unseen_shape(nodes);
    lemma_same_descends(nodes, bare, id, n);
    assert(children_present(bare)) by {
        assert forall|k: NodeId, i: int|
            bare.contains_key(k) && 0 <= i < bare[k].children.len() implies bare.contains_key(
            (#[trigger] bare[k].children[i]).id,
        ) by {
            assert(nodes.contains_key(k));
            assert(nodes[k].children[i] == bare[k].children[i]);
            assert(nodes.contains_key(nodes[k].children[i].id));
        }
    }
    seen_answers_are_true(nodes, id);
    lemma_visibility_depth(bare, id, n);
    lemma_all_shown(bare, id, n);
    assert forall|k: NodeId| #[trigger] below(nodes, k, id) <==> below_within(bare, k, id, n) by {
        lemma_same_relations(nodes, bare, k, id);
        if below(nodes, k, id) {
            let d = choose|d: nat| below_within(bare, k, id, d);
            lemma_below_bound(bare, k, id, d, n);
        }
        if below_within(bare, k, id, n) {
            assert(below(bare, k, id));
        }
    }
    assert forall|k: NodeId| #[trigger] below_within(bare, k, id, n) implies nodes.contains_key(k)
        && bare[k].visibility == nodes[k].visibility by {
        lemma_below_present(bare, k, id, n);
    }
    assert forall|a: NodeId| #[trigger] above(nodes, a, id) implies nodes.contains_key(a) by {
        lemma_above_present(nodes, a, id);
    }
    assert(above(nodes, id, id)) by {
        assert(climb(nodes, id, 0) == Some(id));
    }
    if hidden_from_above(nodes, id) {
        let a = choose|a: NodeId| #[trigger]
            above(nodes, a, id) && nodes.contains_key(a) && nodes[a].visibility
                == Visibility::Invisible;
        assert(above(nodes, a, id));
    } else {
        assert(nodes[id].visibility == Visibility::Visible);
        assert(effective_visibility(nodes, id) == shown_below(bare, id));
        if forall|k: NodeId| #[trigger]
            below(nodes, k, id) ==> nodes[k].visibility == Visibility::Visible {
            assert forall|k: NodeId| #[trigger]
                below_within(bare, k, id, n) implies bare[k].visibility
                == Visibility::Visible by {
                assert(below(nodes, k, id));
            }
        }
        if shown_below(bare, id) == EffectiveVisibility::Visible {
            assert forall|k: NodeId| #[trigger] below(nodes, k, id) implies nodes[k].visibility
                == Visibility::Visible by {
                assert(below_within(bare, k, id, n));
            }
        }
    }
}

/// A node that is added with an instance hangs where it was put and carries that instance,
/// which is then in the scene; no other node and no other instance changes.
pub proof fn added_instances_are_carried(
    m: SceneModel,
    id: NodeId,
    parent: Option<NodeId>,
    instance: InstanceParts,
    name: Option<Seq<char>>,
    transform: Transform,
    flags: NodeFlags,
)
    requires
        !m.nodes.contains_key(id),
        parent matches Some(p) ==> m.nodes.contains_key(p),
    ensures
        ({
            let after = m.add_instance_node(id, parent, instance, name, transform, flags);
            let node = after.nodes[id];
            &&& forall|k: NodeId| #[trigger]
                after.nodes.contains_key(k) <==> m.nodes.contains_key(k) || k == id
            &&& node.payload matches NodePayload::Instance(h) && h.id == instance.id
            &&& after.instances.contains_key(instance.id)
            &&& after.instances[instance.id] == instance
            &&& forall|k: u64| #[trigger]
                m.instances.contains_key(k) && k != instance.id ==> after.instances.contains_key(k)
                    && after.instances[k] == m.instances[k]
            &&& node.id == id
            &&& node.name == name
            &&& node.transform == transform
            &&& node.flags == flags
            &&& node.parent == parent
            &&& node.children.len() == 0
            &&& node.visibility == Visibility::Visible
            &&& parent matches Some(p) ==> joins(
                m.nodes[p].children,
                after.nodes[p].children,
                id,
            ) && after.roots == m.roots
            &&& parent is None ==> joins(m.roots, after.roots, id)
            &&& forall|k: NodeId| #[trigger]
                m.nodes.contains_key(k) ==> unchanged(m.nodes[k], after.nodes[k])
                    && after.nodes[k].parent == m.nodes[k].parent && (parent != Some(k)
                    ==> after.nodes[k].children == m.nodes[k].children)
        }),
{
    let given = m.add_instance(instance);
    added_nodes_hang_where_they_were_put(given, id, parent, name, transform, flags);
    let added = given.add_node(id, parent, name, transform, flags);
    assert(added.nodes.contains_key(id));
    let after = m.add_instance_node(id, parent, instance, name, transform, flags);
    assert forall|k: NodeId| #[trigger] after.nodes.contains_key(k) <==> m.nodes.contains_key(k)
        || k == id by {
        assert(added.nodes.contains_key(k) <==> given.nodes.contains_key(k) || k == id);
    }
    assert forall|k: NodeId| #[trigger] m.nodes.contains_key(k) implies unchanged(
        m.nodes[k],
        after.nodes[k],
    ) && after.nodes[k].parent == m.nodes[k].parent && (parent != Some(k)
        ==> after.nodes[k].children == m.nodes[k].children) by {
        assert(given.nodes.contains_key(k));
    }
}

/// A pre-built node that is taken in is what it was, below its recorded parent or off the
/// roots, as the last there; no other node changes.
pub proof fn inserted_nodes_hang_where_they_say(m: SceneModel, node: NodeModel)
    requires
        m.insertable(node),
        !m.nodes.contains_key(node.id),
        node.parent != Some(node.id),
    ensures
        ({
            let after = m.insert_node(node);
            &&& forall|k: NodeId| #[trigger]
                after.nodes.contains_key(k) <==> m.nodes.contains_key(k) || k == node.id
            &&& unchanged(node, after.nodes[node.id])
            &&& unmoved(node, after.nodes[node.id])
            &&& node.parent matches Some(p) ==> joins(
                m.nodes[p].children,
                after.nodes[p].children,
                node.id,
            ) && after.roots == m.roots
            &&& node.parent is None ==> joins(m.roots, after.roots, node.id)
            &&& forall|k: NodeId| #[trigger]
                m.nodes.contains_key(k) ==> unchanged(m.nodes[k], after.nodes[k])
                    && after.nodes[k].parent == m.nodes[k].parent && (node.parent != Some(k)
                    ==> after.nodes[k].children == m.nodes[k].children)
            &&& resources_unchanged(m, after)
        }),
{
    let after = m.insert_node(node);
    match node.parent {
        Some(p) => {
            assert(m.unsummed(node.parent).nodes.contains_key(p));
            assert(after.nodes[p].children.drop_last() =~= m.nodes[p].children);
        },
        None => {
            assert(after.roots.drop_last() =~= m.roots);
        },
    }
    assert forall|k: NodeId| #[trigger] m.nodes.contains_key(k) implies unchanged(
        m.nodes[k],
        after.nodes[k],
    ) && after.nodes[k].parent == m.nodes[k].parent && (node.parent != Some(k)
        ==> after.nodes[k].children == m.nodes[k].children) by {
        assert(m.unsummed(node.parent).nodes.contains_key(k));
    }
}

/// A default light is a node below the camera, as the last there, that carries the light,
/// turned as asked and otherwise where the camera is; no other node changes.
pub proof fn default_lights_shine_from_the_camera(
    m: SceneModel,
    id: NodeId,
    camera: NodeId,
    name: Seq<char>,
    rotation: Quaternion,
    light: Light,
)
    requires
        !m.nodes.contains_key(id),
        m.nodes.contains_key(camera),
    ensures
        ({
            let after = m.add_default_light(id, camera, name, rotation, light);
            let node = after.nodes[id];
            &&& forall|k: NodeId| #[trigger]
                after.nodes.contains_key(k) <==> m.nodes.contains_key(k) || k == id
            &&& node.payload == NodePayload::Light(light)
            &&& node.parent == Some(camera)
            &&& node.name == Some(name)
            &&& node.transform.rotation == rotation
            &&& node.transform.position == (Point3 { x: 0, y: 0, z: 0 })
            &&& node.transform.scale == (Vector3 {
                x: 0x3f80_0000,
                y: 0x3f80_0000,
                z: 0x3f80_0000,
            })
            &&& node.visibility == Visibility::Visible
            &&& joins(m.nodes[camera].children, after.nodes[camera].children, id)
            &&& after.roots == m.roots
            &&& forall|k: NodeId| #[trigger]
                m.nodes.contains_key(k) ==> unchanged(m.nodes[k], after.nodes[k])
                    && after.nodes[k].parent == m.nodes[k].parent && (k != camera
                    ==> after.nodes[k].children == m.nodes[k].children)
            &&& resources_unchanged(m, after)
        }),
{
    let at = Transform { rotation, ..identity_transform() };
    let flags = NodeFlags { bits: 0 };
    added_nodes_hang_where_they_were_put(m, id, Some(camera), Some(name), at, flags);
    let added = m.add_node(id, Some(camera), Some(name), at, flags);
    assert(added.nodes.contains_key(id));
    let after = m.add_default_light(id, camera, name, rotation, light);
    assert forall|k: NodeId| #[trigger] after.nodes.contains_key(k) <==> m.nodes.contains_key(k)
        || k == id by {
        assert(added.nodes.contains_key(k) <==> m.nodes.contains_key(k) || k == id);
    }
    assert forall|k: NodeId| #[trigger] m.nodes.contains_key(k) implies unchanged(
        m.nodes[k],
        after.nodes[k],
    ) && after.nodes[k].parent == m.nodes[k].parent && (k != camera ==> after.nodes[k].children
        == m.nodes[k].children) by {
        assert(added.nodes.contains_key(k));
    }
}

/// The camera of a node has the projection that the node carries and stands where the node
/// does; a node that carries no camera, or that is not there, has none.
pub proof fn cameras_stand_where_their_nodes_do(
    m: SceneModel,
    id: NodeId,
    aspect: Scalar,
    compose: Compose,
    position: Positioned,
)
    requires
        m.tree(),
    ensures
        m.positioned_camera(id, aspect, compose, position) is Some <==> m.nodes.contains_key(id)
            && m.nodes[id].payload is Camera,
        m.nodes.contains_key(id) ==> (m.nodes[id].payload matches NodePayload::Camera(projection)
            ==> m.positioned_camera(id, aspect, compose, position) == Some(
            position(projection, world(m.nodes, id, compose), aspect),
        )),
{
    if m.nodes.contains_key(id) {
        assert(climb_ends(m.nodes, id));
        let n = choose|n: nat| climbs(m.nodes, id, n);
        lemma_all_rooted(m, id, n);
    }
}

/// A node is attached if and only if it hangs off the roots.
pub proof fn attached_nodes_hang_off_the_roots(m: SceneModel, id: NodeId)
    requires
        m.tree(),
    ensures
        m.attached(id) <==> hangs(m, id),
{
    if hangs(m, id) {
        let i = choose|i: int|
            0 <= i < m.roots.len() && #[trigger] above(m.nodes, m.roots[i].id, id);
        lemma_above_present(m.nodes, m.roots[i].id, id);
        assert(lists_id(m.roots, m.roots[i].id));
    }
    if m.attached(id) {
        let r = choose|r: NodeId| #[trigger]
            above(m.nodes, r, id) && m.nodes[r].parent is None && lists_id(m.roots, r);
        let i = choose|i: int| 0 <= i < m.roots.len() && (#[trigger] m.roots[i]).id == r;
        assert(above(m.nodes, m.roots[i].id, id));
    }
}

/// Where resources of a kind are looked up.
pub open spec fn holds(m: SceneModel, kind: ResourceKind, id: GenericId) -> bool {
    match kind {
        ResourceKind::Mesh => m.meshes.contains_key(id),
        ResourceKind::Texture => m.textures.contains_key(id),
        ResourceKind::Instance => m.instances.contains_key(id),
        ResourceKind::FaceMaterial => m.face_materials.contains_key(id),
        ResourceKind::LineMaterial => m.line_materials.contains_key(id),
        ResourceKind::PointMaterial => m.point_materials.contains_key(id),
        ResourceKind::Node => m.nodes.contains_key(id),
    }
}

/// Removing a resource removes that one and no other, and logs it. A node that is removed
/// is no active camera any more, and its children have no parent any more.
pub proof fn removals_remove_one_resource(
    m: SceneModel,
    kind: ResourceKind,
    id: GenericId,
    other: ResourceKind,
    k: GenericId,
)
    requires
        holds(m, kind, id),
    ensures
        ({
            let after = m.remove_resource(kind, id);
            &&& !holds(after, kind, id)
            &&& other != kind || k != id ==> holds(after, other, k) == holds(m, other, k)
            &&& after.removals.len() == m.removals.len() + 1
            &&& after.removals.last() == (kind, id)
            &&& after.removals.drop_last() == m.removals
            &&& after.roots == m.roots
            &&& kind is Node && m.active_camera == Some(id) ==> after.active_camera is None
            &&& !(kind is Node && m.active_camera == Some(id)) ==> after.active_camera
                == m.active_camera
            &&& kind is Node && k != id && m.nodes.contains_key(k) ==> unchanged(
                m.nodes[k],
                after.nodes[k],
            ) && after.nodes[k].children == m.nodes[k].children
            &&& kind is Node && k != id && m.nodes.contains_key(k) ==> after.nodes[k].parent == (
            if lists_id(m.nodes[id].children, k) {
                None
            } else {
                m.nodes[k].parent
            })
            &&& !(kind is Node) ==> after.nodes == m.nodes
        }),
{
    let after = m.remove_resource(kind, id);
    assert(m.present(kind, id));
    assert(after.removals.drop_last() =~= m.removals);
}

/// A resource that is removed without being there changes nothing.
pub proof fn missing_resources_are_not_removed(m: SceneModel, kind: ResourceKind, id: GenericId)
    requires
        !holds(m, kind, id),
    ensures
        m.remove_resource(kind, id) == m,
        m.handle_of(kind, id) is None,
        m.take_handle(kind, id) == m,
{
    assert(!m.present(kind, id));
}

/// A resource that is added is there under its id, as it is, and the handle that is handed
/// out is for it; every other one stays.
pub proof fn added_resources_are_there(
    m: SceneModel,
    mesh: MeshModel,
    texture: TextureModel,
    instance: InstanceParts,
    face: FaceMaterialParts,
    line: LineMaterialParts,
    point: PointMaterialParts,
)
    ensures
        m.add_mesh(mesh).meshes == m.meshes.insert(mesh.id, mesh),
        m.added_mesh(mesh).id == mesh.id,
        m.add_texture(texture).textures == m.textures.insert(texture.id, texture),
        m.added_texture(texture).id == texture.id,
        m.add_instance(instance).instances == m.instances.insert(instance.id, instance),
        m.added_instance(instance).id == instance.id,
        m.add_face_material(face).face_materials == m.face_materials.insert(face.id, face),
        m.added_face_material(face).id == face.id,
        m.add_line_material(line).line_materials == m.line_materials.insert(line.id, line),
        m.added_line_material(line).id == line.id,
        m.add_point_material(point).point_materials == m.point_materials.insert(point.id, point),
        m.added_point_material(point).id == point.id,
        m.add_mesh(mesh).nodes == m.nodes && m.add_mesh(mesh).instances == m.instances,
        m.add_instance(instance).nodes == m.nodes && m.add_instance(instance).meshes == m.meshes,
{
}

/// The lights of a scene are on the nodes that hang off the roots and carry one.
pub proof fn lights_are_on_the_nodes_that_hang(m: SceneModel, k: NodeId)
    requires
        m.tree(),
    ensures
        m.lit_nodes().contains(k) <==> m.nodes.contains_key(k) && m.nodes[k].payload is Light
            && hangs(m, k),
        m.nodes[k].payload matches NodePayload::Light(light) ==> m.light_of(k) == Some(light),
{
    attached_nodes_hang_off_the_roots(m, k);
}

/// Changing the active camera makes of it, as it stands, what the change makes of it: its node
/// then carries the changed projection at the pose that stands for the changed camera. Where
/// no camera is active, or none can be read, nothing but caches changes.
pub proof fn changed_cameras_are_carried(
    m: SceneModel,
    aspect: Scalar,
    change: spec_fn(PositionedCamera) -> PositionedCamera,
    compose: Compose,
    position: Positioned,
    pose: spec_fn(PositionedCamera) -> Transform,
)
    requires
        m.tree(),
    ensures
        ({
            let after = m.camera_changed(aspect, change, compose, position, pose);
            let id = m.active_camera->0;
            let carried = m.active_camera is Some && m.nodes.contains_key(id)
                && m.nodes[id].payload is Camera;
            let made = change(
                position(m.nodes[id].payload->Camera_0, world(m.nodes, id, compose), aspect),
            );
            &&& after.active_camera == m.active_camera
            &&& carried ==> after.camera_of(id) == Some(made.projection)
            &&& carried ==> after.nodes[id].transform == pose(made)
            &&& forall|k: NodeId| #[trigger]
                m.nodes.contains_key(k) && (!carried || k != id) ==> after.nodes.contains_key(k)
                    && unchanged(m.nodes[k], after.nodes[k]) && unmoved(
                    m.nodes[k],
                    after.nodes[k],
                )
        }),
{
    if m.active_camera is Some {
        let id = m.active_camera->0;
        let asked = m.camera_asked(id, compose);
        cameras_stand_where_their_nodes_do(m, id, aspect, compose, position);
        assert forall|k: NodeId| #[trigger] m.nodes.contains_key(k) implies asked.nodes.contains_key(
            k,
        ) && unchanged(m.nodes[k], asked.nodes[k]) && unmoved(m.nodes[k], asked.nodes[k]) by {
        }
        if m.positioned_camera(id, aspect, compose, position) is Some {
            let made = change(m.positioned_camera(id, aspect, compose, position)->0);
            assert(asked.nodes.contains_key(id));
            written_cameras_are_carried(asked, made, pose);
            let after = asked.set_camera(made, pose);
            assert forall|k: NodeId| #[trigger] m.nodes.contains_key(k) && k != id implies {
                after.nodes.contains_key(k) && unchanged(m.nodes[k], after.nodes[k]) && unmoved(
                    m.nodes[k],
                    after.nodes[k],
                )
            } by {
                assert(asked.nodes.contains_key(k));
            }
        }
    }
}

/// A node can be moved if and only if it is there, the new parent is there, if there is to be
/// one, and the node is not that parent nor above it; else the first of these that does not
/// hold is the reason.
pub proof fn moves_are_refused_for_a_reason(
    m: SceneModel,
    id: NodeId,
    new_parent: Option<NodeId>,
)
    ensures
        m.reparent_error(id, new_parent) == Some(SceneError::NodeNotFound(id))
            <==> !m.nodes.contains_key(id),
        m.nodes.contains_key(id) && new_parent is None ==> m.reparent_error(id, new_parent) is None,
        m.nodes.contains_key(id) ==> (new_parent matches Some(p) ==> {
            &&& !m.nodes.contains_key(p) ==> m.reparent_error(id, new_parent) == Some(
                SceneError::ParentNotFound(p),
            )
            &&& m.nodes.contains_key(p) && above(m.nodes, id, p) ==> m.reparent_error(
                id,
                new_parent,
            ) == Some(SceneError::Cycle { node: id, parent: p })
            &&& m.nodes.contains_key(p) && !above(m.nodes, id, p) ==> m.reparent_error(
                id,
                new_parent,
            ) is None
        }),
{
}

/// Whether a slot holds a handle that counts on a core, as a number.
pub open spec fn in_slot(h: Option<Handle>, c: u64) -> nat {
    if h is Some && h->0.core == Some(c) {
        1
    } else {
        0
    }
}

/// A list of handles counts each of them once.
pub proof fn lists_count_each_handle(handles: Seq<Handle>, h: Handle, c: u64)
    ensures
        count_core(Seq::empty(), c) == 0,
        count_core(handles.push(h), c) == count_core(handles, c) + in_slot(Some(h), c),
{
    assert(handles.push(h).drop_last() =~= handles);
}

proof fn lemma_slot_counts(handles: Seq<Handle>, slot: Option<Handle>, c: u64)
    ensures
        count_core(handles + opt_seq(slot), c) == count_core(handles, c) + in_slot(slot, c),
{
    match slot {
        Some(h) => {
            assert(handles + opt_seq(slot) =~= handles.push(h));
            lists_count_each_handle(handles, h, c);
        },
        None => {
            assert(handles + opt_seq(slot) =~= handles);
        },
    }
}

/// Whatever owns handles owns each of them: a node those of its children and of its payload,
/// an instance those of its mesh and of each material, and a material those of each texture.
/// So each is counted while its owner is there, and given up with it.
pub proof fn owners_own_each_of_their_handles(
    node: NodeModel,
    instance: InstanceParts,
    face: FaceMaterialParts,
    line: LineMaterialParts,
    point: PointMaterialParts,
    c: u64,
)
    ensures
        count_core(node.handles(), c) == count_core(node.children, c) + (match node.payload {
            NodePayload::Instance(h) => in_slot(Some(h), c),
            _ => 0,
        }),
        count_core(instance.handles(), c) == in_slot(Some(instance.mesh), c) + in_slot(
            instance.face_material,
            c,
        ) + in_slot(instance.line_material, c) + in_slot(instance.point_material, c),
        count_core(face.handles(), c) == in_slot(face.base_color_texture, c) + in_slot(
            face.normal_texture,
            c,
        ) + in_slot(face.metallic_roughness_texture, c),
        count_core(line.handles(), c) == in_slot(line.base_color_texture, c),
        count_core(point.handles(), c) == in_slot(point.base_color_texture, c),
{
    let none: Seq<Handle> = Seq::empty();
    lemma_slot_counts(node.children, node.payload.handle(), c);
    let mesh = seq![instance.mesh];
    assert(mesh =~= none.push(instance.mesh));
    lists_count_each_handle(none, instance.mesh, c);
    let shaded = mesh + opt_seq(instance.face_material);
    let lined = shaded + opt_seq(instance.line_material);
    lemma_slot_counts(mesh, instance.face_material, c);
    lemma_slot_counts(shaded, instance.line_material, c);
    lemma_slot_counts(lined, instance.point_material, c);
    let base = opt_seq(face.base_color_texture);
    assert(none + base =~= base);
    lemma_slot_counts(none, face.base_color_texture, c);
    lemma_slot_counts(base, face.normal_texture, c);
    lemma_slot_counts(base + opt_seq(face.normal_texture), face.metallic_roughness_texture, c);
    assert(none + line.handles() =~= line.handles());
    lemma_slot_counts(none, line.base_color_texture, c);
    assert(none + point.handles() =~= point.handles());
    lemma_slot_counts(none, point.base_color_texture, c);
}

/// The default lights face each other from opposite corners: the fill light is turned the
/// other way round about both axes, and as far.
pub proof fn default_lights_come_from_opposite_corners()
    ensures
        fill_rotation().s == key_rotation().s,
        fill_rotation().v.x == negated(key_rotation().v.x),
        fill_rotation().v.y == negated(key_rotation().v.y),
        fill_rotation().v.z == key_rotation().v.z,
        key_rotation().v.x == key_rotation().v.y,
        scalar_lt_spec(key_rotation().v.x, 0),
        scalar_lt_spec(0, key_rotation().s),
{
}

} // verus!
