//! Tessellated shapes in a scene.

use super::{CadTessellationOptions, GeometryClass};
use crate::common::{identity_transform, Transform};
use crate::data::effects::{
    added_nodes_hang_where_they_were_put, joins, setting_a_payload_sets_it, unchanged,
};
use crate::data::laws::lemma_add_instance_clock;
use crate::data::model::{lemma_release_all, SceneModel};
use crate::data::nodes::{awaited_above, lemma_added_climbs};
use crate::data::ownership::lemma_mint_strong;
use crate::data::tree::{climb_ends, climbs};
use crate::data::SceneData;
use crate::error::SceneError;
use crate::resource::handle::{
    FaceMaterialHandle, FaceMaterialId, Handle, InstanceId, LedgerModel, LineMaterialHandle,
    LineMaterialId, NodeHandle, NodeId, PointMaterialHandle, ResourceKind,
};
use crate::resource::instance::{Instance, InstanceParts};
use crate::resource::material::{
    FaceMaterial, FaceMaterialParts, LineMaterial, LineMaterialParts,
};
use crate::resource::mesh::{Mesh, MeshModel};
use crate::resource::node::{opt_chars, NodeFlags, NodePayload, Visibility};
use vstd::prelude::*;

verus! {

/// The ids of what a part adds to a scene.
#[derive(Debug, Clone, Copy)]
pub struct PartIds {
    pub face_material: FaceMaterialId,
    pub line_material: LineMaterialId,
    pub instance: InstanceId,
    pub node: NodeId,
}

/// The ledger with one more handle like `handle`, if there is one.
pub open spec fn retained(ledger: LedgerModel, handle: Option<Handle>) -> LedgerModel {
    match handle {
        Some(h) => ledger.retain(h),
        None => ledger,
    }
}

/// The ledger with one more handle for each material of an instance.
pub open spec fn slots_retained(ledger: LedgerModel, item: InstanceParts) -> LedgerModel {
    retained(
        retained(retained(ledger, item.face_material), item.line_material),
        item.point_material,
    )
}

fn retain_opt(scene: &mut SceneData, handle: &Option<Handle>) -> (copy: Option<Handle>)
    requires
        old(scene)@.wf(),
        old(scene)@.ledger.clock < u64::MAX,
    ensures
        copy == *handle,
        final(scene)@ == old(scene)@.with_ledger(retained(old(scene)@.ledger, *handle)),
        final(scene)@.wf(),
        old(scene)@.ledger.clock <= final(scene)@.ledger.clock <= old(scene)@.ledger.clock + 1,
{
    match handle {
        Some(h) => Some(scene.retain(h)),
        None => {
            proof {
                assert(scene@ =~= scene@.with_ledger(scene@.ledger));
            }
            None
        },
    }
}

impl SceneModel {
    /// After adding a copy of a face material under another id: the copy shares the
    /// textures.
    pub open spec fn copy_face_material(self, template: FaceMaterialParts, id: FaceMaterialId) -> (
        SceneModel,
        FaceMaterialHandle,
    ) {
        let shared = self.with_ledger(
            retained(
                retained(
                    retained(self.ledger, template.base_color_texture),
                    template.normal_texture,
                ),
                template.metallic_roughness_texture,
            ),
        );
        let copy = FaceMaterialParts { id, ..template };
        (shared.add_face_material(copy), shared.added_face_material(copy))
    }

    /// After adding a copy of a line material under another id: the copy shares the
    /// texture.
    pub open spec fn copy_line_material(self, template: LineMaterialParts, id: LineMaterialId) -> (
        SceneModel,
        LineMaterialHandle,
    ) {
        let shared = self.with_ledger(retained(self.ledger, template.base_color_texture));
        let copy = LineMaterialParts { id, ..template };
        (shared.add_line_material(copy), shared.added_line_material(copy))
    }

    /// After adding a mesh and an instance of it.
    pub open spec fn add_part(
        self,
        mesh: MeshModel,
        instance: InstanceId,
        face_material: Option<FaceMaterialHandle>,
        line_material: Option<LineMaterialHandle>,
        point_material: Option<PointMaterialHandle>,
    ) -> (SceneModel, Handle) {
        let added = self.add_mesh(mesh);
        let item = InstanceParts {
            id: instance,
            mesh: self.added_mesh(mesh),
            face_material,
            line_material,
            point_material,
        };
        (added.add_instance(item), added.added_instance(item))
    }

    /// After adding a mesh, an instance of it and a node that carries the instance, or
    /// after failing for want of the parent: then the instance was added, but nobody
    /// holds it.
    pub open spec fn finish_part(
        self,
        mesh: MeshModel,
        instance: InstanceId,
        node: NodeId,
        face_material: FaceMaterialHandle,
        line_material: LineMaterialHandle,
        parent: Option<NodeId>,
        name: Option<Seq<char>>,
    ) -> (SceneModel, Result<NodeHandle, SceneError>) {
        let (m, handle) = self.add_part(
            mesh,
            instance,
            Some(face_material),
            Some(line_material),
            None,
        );
        match parent {
            Some(p) if !self.nodes.contains_key(p) => (
                m.with_ledger(m.ledger.release(handle)),
                Err(SceneError::ParentNotFound(p)),
            ),
            _ => (
                m.add_node(
                    node,
                    parent,
                    name,
                    identity_transform(),
                    NodeFlags { bits: 0 },
                ).set_node_payload(node, NodePayload::Instance(handle)),
                Ok(m.ledger.minted(node)),
            ),
        }
    }
}

impl SceneModel {
    /// After adding a mesh as a part with copies of the material templates for its class.
    pub open spec fn tessellate_into(
        self,
        class: GeometryClass,
        mesh: MeshModel,
        options: CadTessellationOptions,
        ids: PartIds,
        parent: Option<NodeId>,
        name: Option<Seq<char>>,
    ) -> (SceneModel, Result<NodeHandle, SceneError>) {
        let (a, face) = self.copy_face_material(options.face_template(class), ids.face_material);
        let (b, line) = a.copy_line_material(options.line_template(class), ids.line_material);
        b.finish_part(mesh, ids.instance, ids.node, face, line, parent, name)
    }

    /// After adding a mesh as a part that shares materials with others.
    pub open spec fn tessellate_sharing(
        self,
        mesh: MeshModel,
        instance: InstanceId,
        node: NodeId,
        face_material: FaceMaterialHandle,
        line_material: LineMaterialHandle,
        parent: Option<NodeId>,
        name: Option<Seq<char>>,
    ) -> (SceneModel, Result<NodeHandle, SceneError>) {
        self.with_ledger(
            self.ledger.retain(face_material).retain(line_material),
        ).finish_part(mesh, instance, node, face_material, line_material, parent, name)
    }
}

fn add_part(
    scene: &mut SceneData,
    mesh: Mesh,
    instance: InstanceId,
    face_material: Option<FaceMaterialHandle>,
    line_material: Option<LineMaterialHandle>,
    point_material: Option<PointMaterialHandle>,
) -> (handle: Handle)
    requires
        old(scene)@.wf(),
        old(scene)@.ledger.clock + 2 <= u64::MAX,
    ensures
        ({
            let (m, added) = old(scene)@.add_part(
                mesh@,
                instance,
                face_material,
                line_material,
                point_material,
            );
            final(scene)@ == m && handle == added
        }),
        final(scene)@.wf(),
        final(scene)@.ledger.clock == old(scene)@.ledger.clock + 2,
{
    let ghost m = scene@;
    proof {
        lemma_mint_strong(m.ledger, mesh@.id, ResourceKind::Mesh, 0);
    }
    let mesh_handle = scene.add_mesh(mesh);
    let item = InstanceParts {
        id: instance,
        mesh: mesh_handle,
        face_material,
        line_material,
        point_material,
    };
    proof {
        lemma_add_instance_clock(scene@, item);
    }
    scene.add_instance(Instance::from_parts(item))
}

/// Adds a mesh, an instance of it with the given materials, and a node that carries the
/// instance.
///
/// When the parent is missing, the mesh and the instance have been added all the same, but
/// nobody holds them, so that the next [`reap`](SceneData::reap) removes them.
pub fn tessellate_finish(
    scene: &mut SceneData,
    mesh: Mesh,
    instance: InstanceId,
    node: NodeId,
    face_material: FaceMaterialHandle,
    line_material: LineMaterialHandle,
    parent: Option<NodeId>,
    name: Option<String>,
) -> (added: Result<NodeHandle, SceneError>)
    requires
        old(scene)@.wf(),
        parent matches Some(p) ==> climb_ends(old(scene)@.nodes, p) && !awaited_above(
            old(scene)@.nodes,
            node,
            p,
        ),
        old(scene)@.ledger.clock + 4 <= u64::MAX,
        old(scene)@.node_generation + 2 <= u64::MAX,
        !old(scene)@.nodes.contains_key(node),
    ensures
        final(scene)@ == old(scene)@.finish_part(
            mesh@,
            instance,
            node,
            face_material,
            line_material,
            parent,
            opt_chars(name),
        ).0,
        added == old(scene)@.finish_part(
            mesh@,
            instance,
            node,
            face_material,
            line_material,
            parent,
            opt_chars(name),
        ).1,
        final(scene)@.wf(),
{
    let ghost m = scene@;
    let handle = add_part(scene, mesh, instance, Some(face_material), Some(line_material), None);
    let ghost with_part = scene@;
    match scene.add_node(node, parent, name, Transform::identity(), NodeFlags::none()) {
        Err(error) => {
            scene.release(handle);
            Err(error)
        },
        Ok(added) => {
            let ghost with_node = scene@;
            proof {
                let a = m.nodes;
                let b = with_node.nodes;
                assert(with_part.nodes == a);
                assert(b.dom() =~= a.dom().insert(node));
                if let Some(p) = parent {
                    assert(climb_ends(a, p));
                    let n = choose|n: nat| climbs(a, p, n);
                    lemma_added_climbs(a, b, node, p, n);
                    assert(b[node].parent == Some(p));
                    assert(climbs(b, node, n + 1));
                } else {
                    assert(climbs(b, node, 0));
                }
                assert(climb_ends(b, node));
            }
            scene.set_node_payload(node, NodePayload::Instance(handle));
            Ok(added)
        },
    }
}

/// Adds the mesh of a tessellated shape to a scene as a part of its own: copies of the
/// material templates for the class of the shape, an instance, and a node.
///
/// To share materials across parts, use [`tessellate_into_with_materials`].
pub fn tessellate_into(
    scene: &mut SceneData,
    class: GeometryClass,
    mesh: Mesh,
    options: &CadTessellationOptions,
    ids: PartIds,
    parent: Option<NodeId>,
    name: Option<String>,
) -> (added: Result<NodeHandle, SceneError>)
    requires
        old(scene)@.wf(),
        parent matches Some(p) ==> climb_ends(old(scene)@.nodes, p) && !awaited_above(
            old(scene)@.nodes,
            ids.node,
            p,
        ),
        old(scene)@.ledger.clock + 10 <= u64::MAX,
        old(scene)@.node_generation + 2 <= u64::MAX,
        !old(scene)@.nodes.contains_key(ids.node),
    ensures
        (final(scene)@, added) == old(scene)@.tessellate_into(
            class,
            mesh@,
            *options,
            ids,
            parent,
            opt_chars(name),
        ),
        final(scene)@.wf(),
{
    let ghost m = scene@;
    let (face_material, line_material) = options.materials_for(class);
    let (face_template, line_template) = (face_material.parts(), line_material.parts());
    let base_color_texture = retain_opt(scene, &face_template.base_color_texture);
    let normal_texture = retain_opt(scene, &face_template.normal_texture);
    let metallic_roughness_texture = retain_opt(scene, &face_template.metallic_roughness_texture);
    let face_copy = FaceMaterialParts {
        id: ids.face_material,
        generation: face_template.generation,
        base_color_factor: face_template.base_color_factor,
        metallic: face_template.metallic,
        roughness: face_template.roughness,
        normal_scale: face_template.normal_scale,
        alpha_cutoff: face_template.alpha_cutoff,
        alpha_mode: face_template.alpha_mode,
        flags: face_template.flags,
        base_color_texture,
        normal_texture,
        metallic_roughness_texture,
    };
    let ghost shared = scene@;
    proof {
        if shared.face_materials.contains_key(face_copy.id) {
            lemma_release_all(
                shared.ledger,
                shared.face_materials[face_copy.id].handles(),
            );
        }
        lemma_mint_strong(
            shared.without_face_material(face_copy.id),
            face_copy.id,
            ResourceKind::FaceMaterial,
            0,
        );
    }
    let face = scene.add_face_material(FaceMaterial::from_parts(face_copy));
    let line_texture = retain_opt(scene, &line_template.base_color_texture);
    let line_copy = LineMaterialParts {
        id: ids.line_material,
        generation: line_template.generation,
        color: line_template.color,
        alpha_mode: line_template.alpha_mode,
        base_color_texture: line_texture,
    };
    let ghost shared_line = scene@;
    proof {
        if shared_line.line_materials.contains_key(line_copy.id) {
            lemma_release_all(
                shared_line.ledger,
                shared_line.line_materials[line_copy.id].handles(),
            );
        }
        lemma_mint_strong(
            shared_line.without_line_material(line_copy.id),
            line_copy.id,
            ResourceKind::LineMaterial,
            0,
        );
    }
    let line = scene.add_line_material(LineMaterial::from_parts(line_copy));
    proof {
        assert(shared =~= m.with_ledger(shared.ledger));
        assert(scene@.nodes == m.nodes && scene@.roots == m.roots);
    }
    tessellate_finish(scene, mesh, ids.instance, ids.node, face, line, parent, name)
}

/// Like [`tessellate_into`], but the part shares the given materials instead of copies of
/// the templates.
pub fn tessellate_into_with_materials(
    scene: &mut SceneData,
    mesh: Mesh,
    instance: InstanceId,
    node: NodeId,
    face_material: &FaceMaterialHandle,
    line_material: &LineMaterialHandle,
    parent: Option<NodeId>,
    name: Option<String>,
) -> (added: Result<NodeHandle, SceneError>)
    requires
        old(scene)@.wf(),
        parent matches Some(p) ==> climb_ends(old(scene)@.nodes, p) && !awaited_above(
            old(scene)@.nodes,
            node,
            p,
        ),
        old(scene)@.ledger.clock + 6 <= u64::MAX,
        old(scene)@.node_generation + 2 <= u64::MAX,
        !old(scene)@.nodes.contains_key(node),
    ensures
        (final(scene)@, added) == old(scene)@.tessellate_sharing(
            mesh@,
            instance,
            node,
            *face_material,
            *line_material,
            parent,
            opt_chars(name),
        ),
        final(scene)@.wf(),
{
    let face = scene.retain(face_material);
    let line = scene.retain(line_material);
    tessellate_finish(scene, mesh, instance, node, face, line, parent, name)
}

impl SceneModel {
    /// The instance whose geometry re-tessellating a node replaces.
    pub open spec fn retessellated(self, node: NodeId) -> Result<InstanceId, SceneError> {
        if !self.nodes.contains_key(node) {
            Err(SceneError::NodeNotFound(node))
        } else {
            match self.nodes[node].payload {
                NodePayload::Instance(h) => if self.instances.contains_key(h.id) {
                    Ok(h.id)
                } else {
                    Err(SceneError::InstanceNotFound(h.id))
                },
                _ => Err(SceneError::NoInstance(node)),
            }
        }
    }

    /// After giving a node a new instance of a mesh, with the materials of the one that
    /// it carried.
    pub open spec fn retessellate_node(
        self,
        mesh: MeshModel,
        instance: InstanceId,
        node: NodeId,
    ) -> SceneModel {
        match self.retessellated(node) {
            Ok(old_instance) => {
                let item = self.instances[old_instance];
                let shared = self.with_ledger(slots_retained(self.ledger, item));
                let (m, handle) = shared.add_part(
                    mesh,
                    instance,
                    item.face_material,
                    item.line_material,
                    item.point_material,
                );
                m.set_node_payload(node, NodePayload::Instance(handle))
            },
            Err(_) => self,
        }
    }
}

fn copy_slot(slot: &Option<Handle>) -> (copy: Option<Handle>)
    ensures
        copy == *slot,
{
    match slot {
        Some(h) => Some(Handle { core: h.core, id: h.id }),
        None => None,
    }
}

/// The instance whose geometry re-tessellating a node replaces, or why there is none.
pub fn retessellation_target(scene: &SceneData, node: NodeId) -> (target: Result<
    InstanceId,
    SceneError,
>)
    ensures
        target == scene@.retessellated(node),
{
    let carried: InstanceId = match scene.get_node(node) {
        None => {
            return Err(SceneError::NodeNotFound(node));
        },
        Some(found) => match &found.payload {
            NodePayload::Instance(h) => h.id,
            _ => {
                return Err(SceneError::NoInstance(node));
            },
        },
    };
    match scene.get_instance(carried) {
        Some(_) => Ok(carried),
        None => Err(SceneError::InstanceNotFound(carried)),
    }
}

/// Gives an existing node a new mesh, preserving its id and reusing its material slots.
/// The node must already carry an instance; the previous mesh and instance are given up,
/// and removed unless shared.
///
/// Because the material slots are reused as they are, the node keeps whichever materials
/// it was first tessellated with, even if the class of the shape has changed since. To
/// re-classify, create a new node instead.
pub fn retessellate_node(scene: &mut SceneData, mesh: Mesh, instance: InstanceId, node: NodeId) -> (
    done: Result<(), SceneError>)
    requires
        old(scene)@.wf(),
        climb_ends(old(scene)@.nodes, node),
        old(scene)@.ledger.clock + 5 <= u64::MAX,
        old(scene)@.node_generation < u64::MAX,
    ensures
        final(scene)@ == old(scene)@.retessellate_node(mesh@, instance, node),
        match done {
            Ok(_) => old(scene)@.retessellated(node) is Ok,
            Err(error) => old(scene)@.retessellated(node) == Err::<InstanceId, SceneError>(error),
        },
        final(scene)@.wf(),
{
    let ghost m = scene@;
    let carried: InstanceId = match retessellation_target(scene, node) {
        Ok(carried) => carried,
        Err(error) => {
            return Err(error);
        },
    };
    let (face_slot, line_slot, point_slot) = match scene.get_instance(carried) {
        Some(item) => (
            copy_slot(&item.parts().face_material),
            copy_slot(&item.parts().line_material),
            copy_slot(&item.parts().point_material),
        ),
        None => (None, None, None),
    };
    let face = retain_opt(scene, &face_slot);
    let line = retain_opt(scene, &line_slot);
    let point = retain_opt(scene, &point_slot);
    let handle = add_part(scene, mesh, instance, face, line, point);
    scene.set_node_payload(node, NodePayload::Instance(handle));
    Ok(())
}

/// Re-tessellating a node keeps every node, with its links, its place and its flags, and
/// the materials that it is drawn with.
pub proof fn retessellating_keeps_the_node(
    m: SceneModel,
    mesh: MeshModel,
    instance: InstanceId,
    node: NodeId,
    k: NodeId,
)
    requires
        m.retessellated(node) is Ok,
        m.nodes.contains_key(k),
    ensures
        ({
            let after = m.retessellate_node(mesh, instance, node);
            &&& after.nodes.dom() == m.nodes.dom()
            &&& after.roots == m.roots
            &&& after.nodes[k].parent == m.nodes[k].parent
            &&& after.nodes[k].children == m.nodes[k].children
            &&& after.nodes[k].transform == m.nodes[k].transform
            &&& after.nodes[k].flags == m.nodes[k].flags
            &&& k != node ==> after.nodes[k].payload == m.nodes[k].payload
            &&& after.nodes[node].payload matches NodePayload::Instance(h) && h.id == instance
            &&& after.instances[instance].mesh.id == mesh.id
            &&& after.instances[instance].face_material
                == m.instances[m.retessellated(node)->Ok_0].face_material
            &&& after.instances[instance].line_material
                == m.instances[m.retessellated(node)->Ok_0].line_material
            &&& after.instances[instance].point_material
                == m.instances[m.retessellated(node)->Ok_0].point_material
            &&& after.meshes[mesh.id] == mesh
        }),
{
    let after = m.retessellate_node(mesh, instance, node);
    assert(after.nodes.dom() =~= m.nodes.dom());
}

/// A copy of a material is the template under another id, and its handle is for that id;
/// nothing else of the scene but the counts changes.
pub proof fn copied_materials_are_alike(
    m: SceneModel,
    face: FaceMaterialParts,
    line: LineMaterialParts,
    id: u64,
)
    ensures
        ({
            let (after, handle) = m.copy_face_material(face, id);
            let copy = after.face_materials[id];
            &&& handle.id == id
            &&& after.face_materials.contains_key(id)
            &&& copy.id == id
            &&& copy.base_color_factor == face.base_color_factor
            &&& copy.metallic == face.metallic
            &&& copy.roughness == face.roughness
            &&& copy.normal_scale == face.normal_scale
            &&& copy.alpha_cutoff == face.alpha_cutoff
            &&& copy.alpha_mode == face.alpha_mode
            &&& copy.flags == face.flags
            &&& copy.base_color_texture == face.base_color_texture
            &&& copy.normal_texture == face.normal_texture
            &&& copy.metallic_roughness_texture == face.metallic_roughness_texture
            &&& forall|k: u64| #[trigger]
                m.face_materials.contains_key(k) && k != id ==> after.face_materials.contains_key(k)
                    && after.face_materials[k] == m.face_materials[k]
            &&& after.nodes == m.nodes && after.meshes == m.meshes && after.instances
                == m.instances && after.line_materials == m.line_materials
        }),
        ({
            let (after, handle) = m.copy_line_material(line, id);
            let copy = after.line_materials[id];
            &&& handle.id == id
            &&& after.line_materials.contains_key(id)
            &&& copy.id == id
            &&& copy.color == line.color
            &&& copy.alpha_mode == line.alpha_mode
            &&& copy.base_color_texture == line.base_color_texture
            &&& forall|k: u64| #[trigger]
                m.line_materials.contains_key(k) && k != id ==> after.line_materials.contains_key(k)
                    && after.line_materials[k] == m.line_materials[k]
            &&& after.nodes == m.nodes && after.meshes == m.meshes && after.instances
                == m.instances && after.face_materials == m.face_materials
        }),
{
}

/// A part that was added is one node that carries one instance of the mesh with the given
/// materials, below the given parent as the last there, named as asked and where the parent
/// is. It cannot be added below a parent that is not there, and then no node is added. No
/// other node, mesh or instance changes.
pub proof fn finished_parts_are_in_place(
    m: SceneModel,
    mesh: MeshModel,
    instance: InstanceId,
    node: NodeId,
    face_material: FaceMaterialHandle,
    line_material: LineMaterialHandle,
    parent: Option<NodeId>,
    name: Option<Seq<char>>,
)
    requires
        !m.nodes.contains_key(node),
    ensures
        ({
            let (after, result) = m.finish_part(
                mesh,
                instance,
                node,
                face_material,
                line_material,
                parent,
                name,
            );
            let there = parent is None || m.nodes.contains_key(parent->0);
            &&& result is Ok <==> there
            &&& !there ==> result == Err::<NodeHandle, SceneError>(
                SceneError::ParentNotFound(parent->0),
            ) && after.nodes == m.nodes && after.roots == m.roots
            &&& there ==> {
                &&& result matches Ok(h) && h.id == node
                &&& forall|k: NodeId| #[trigger]
                    after.nodes.contains_key(k) <==> m.nodes.contains_key(k) || k == node
                &&& after.nodes[node].payload matches NodePayload::Instance(h) && h.id == instance
                &&& after.nodes[node].parent == parent
                &&& after.nodes[node].name == name
                &&& after.nodes[node].transform == identity_transform()
                &&& after.nodes[node].visibility == Visibility::Visible
                &&& parent matches Some(p) ==> joins(
                    m.nodes[p].children,
                    after.nodes[p].children,
                    node,
                )
                &&& parent is None ==> joins(m.roots, after.roots, node)
                &&& forall|k: NodeId| #[trigger]
                    m.nodes.contains_key(k) ==> unchanged(m.nodes[k], after.nodes[k])
                        && after.nodes[k].parent == m.nodes[k].parent
            }
            &&& after.instances.contains_key(instance)
            &&& after.instances[instance].mesh.id == mesh.id
            &&& after.instances[instance].face_material == Some(face_material)
            &&& after.instances[instance].line_material == Some(line_material)
            &&& after.instances[instance].point_material is None
            &&& after.meshes.contains_key(mesh.id)
            &&& after.meshes[mesh.id] == mesh
            &&& forall|k: u64| #[trigger]
                m.meshes.contains_key(k) && k != mesh.id ==> after.meshes.contains_key(k)
                    && after.meshes[k] == m.meshes[k]
            &&& forall|k: u64| #[trigger]
                m.instances.contains_key(k) && k != instance ==> after.instances.contains_key(k)
                    && after.instances[k] == m.instances[k]
        }),
{
    let (part, handle) = m.add_part(
        mesh,
        instance,
        Some(face_material),
        Some(line_material),
        None,
    );
    if parent is None || m.nodes.contains_key(parent->0) {
        let flags = NodeFlags { bits: 0 };
        added_nodes_hang_where_they_were_put(
            part,
            node,
            parent,
            name,
            identity_transform(),
            flags,
        );
        let added = part.add_node(node, parent, name, identity_transform(), flags);
        setting_a_payload_sets_it(added, node, NodePayload::Instance(handle));
        let after = added.set_node_payload(node, NodePayload::Instance(handle));
        assert(added.nodes.contains_key(node));
        if let Some(p) = parent {
            assert(added.nodes.contains_key(p));
        }
        assert forall|k: NodeId| #[trigger] m.nodes.contains_key(k) implies unchanged(
            m.nodes[k],
            after.nodes[k],
        ) && after.nodes[k].parent == m.nodes[k].parent by {
            assert(added.nodes.contains_key(k));
        }
        assert forall|k: NodeId| #[trigger] after.nodes.contains_key(k) <==> m.nodes.contains_key(k)
            || k == node by {
            assert(added.nodes.contains_key(k) <==> m.nodes.contains_key(k) || k == node);
        }
    }
}

/// A part looks as the templates for its class say: solid parts as the plain templates, free
/// ones as the templates for free geometry where these are set. The materials are copies of
/// its own under the given ids, and they are what its instance is drawn with; points are not
/// drawn. The node carries that instance and hangs where it was put.
pub proof fn parts_look_as_their_class_asks(
    m: SceneModel,
    class: GeometryClass,
    mesh: MeshModel,
    options: CadTessellationOptions,
    ids: PartIds,
    parent: Option<NodeId>,
    name: Option<Seq<char>>,
)
    requires
        !m.nodes.contains_key(ids.node),
        parent matches Some(p) ==> m.nodes.contains_key(p),
    ensures
        ({
            let (after, result) = m.tessellate_into(class, mesh, options, ids, parent, name);
            let face = if class is Free && options.free_face_material is Some {
                options.free_face_material->0@
            } else {
                options.face_material@
            };
            let line = if class is Free && options.free_line_material is Some {
                options.free_line_material->0@
            } else {
                options.line_material@
            };
            let item = after.instances[ids.instance];
            &&& result matches Ok(h) && h.id == ids.node
            &&& after.nodes[ids.node].payload matches NodePayload::Instance(h) && h.id
                == ids.instance
            &&& after.nodes[ids.node].parent == parent
            &&& after.nodes[ids.node].name == name
            &&& item.mesh.id == mesh.id
            &&& item.face_material matches Some(h) && h.id == ids.face_material
            &&& item.line_material matches Some(h) && h.id == ids.line_material
            &&& item.point_material is None
            &&& after.meshes[mesh.id] == mesh
            &&& after.face_materials[ids.face_material].base_color_factor == face.base_color_factor
            &&& after.face_materials[ids.face_material].flags == face.flags
            &&& after.face_materials[ids.face_material].alpha_mode == face.alpha_mode
            &&& after.face_materials[ids.face_material].metallic == face.metallic
            &&& after.face_materials[ids.face_material].roughness == face.roughness
            &&& after.line_materials[ids.line_material].color == line.color
            &&& after.line_materials[ids.line_material].alpha_mode == line.alpha_mode
        }),
{
    let face = options.face_template(class);
    let line = options.line_template(class);
    let (a, face_handle) = m.copy_face_material(face, ids.face_material);
    let (b, line_handle) = a.copy_line_material(line, ids.line_material);
    copied_materials_are_alike(m, face, line, ids.face_material);
    copied_materials_are_alike(a, face, line, ids.line_material);
    finished_parts_are_in_place(
        b,
        mesh,
        ids.instance,
        ids.node,
        face_handle,
        line_handle,
        parent,
        name,
    );
    let (part, _) = b.add_part(mesh, ids.instance, Some(face_handle), Some(line_handle), None);
    assert(part.face_materials == b.face_materials);
    assert(part.line_materials == b.line_materials);
}

/// A part that shares materials is drawn with the given ones, and changes no material.
pub proof fn shared_materials_stay(
    m: SceneModel,
    mesh: MeshModel,
    instance: InstanceId,
    node: NodeId,
    face_material: FaceMaterialHandle,
    line_material: LineMaterialHandle,
    parent: Option<NodeId>,
    name: Option<Seq<char>>,
)
    requires
        !m.nodes.contains_key(node),
        parent matches Some(p) ==> m.nodes.contains_key(p),
    ensures
        ({
            let (after, result) = m.tessellate_sharing(
                mesh,
                instance,
                node,
                face_material,
                line_material,
                parent,
                name,
            );
            &&& result matches Ok(h) && h.id == node
            &&& after.nodes[node].payload matches NodePayload::Instance(h) && h.id == instance
            &&& after.nodes[node].parent == parent
            &&& after.nodes[node].name == name
            &&& after.instances[instance].mesh.id == mesh.id
            &&& after.instances[instance].face_material == Some(face_material)
            &&& after.instances[instance].line_material == Some(line_material)
            &&& after.instances[instance].point_material is None
            &&& after.meshes[mesh.id] == mesh
            &&& after.face_materials == m.face_materials
            &&& after.line_materials == m.line_materials
        }),
{
    let shared = m.with_ledger(m.ledger.retain(face_material).retain(line_material));
    finished_parts_are_in_place(
        shared,
        mesh,
        instance,
        node,
        face_material,
        line_material,
        parent,
        name,
    );
}

/// A node can be re-tessellated if and only if it is there, carries an instance, and that
/// instance is there too; else the first of these that does not hold is the reason.
pub proof fn retessellating_takes_an_instance(m: SceneModel, node: NodeId)
    ensures
        !m.nodes.contains_key(node) <==> m.retessellated(node) == Err::<InstanceId, SceneError>(
            SceneError::NodeNotFound(node),
        ),
        m.nodes.contains_key(node) && !(m.nodes[node].payload is Instance) <==> m.retessellated(
            node,
        ) == Err::<InstanceId, SceneError>(SceneError::NoInstance(node)),
        m.nodes.contains_key(node) ==> (m.nodes[node].payload matches NodePayload::Instance(h)
            ==> m.retessellated(node) == (if m.instances.contains_key(h.id) {
            Ok::<InstanceId, SceneError>(h.id)
        } else {
            Err(SceneError::InstanceNotFound(h.id))
        })),
{
}

} // verus!
