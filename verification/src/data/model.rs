//! What a scene holds, as mathematics.
//!
//! [`SceneModel`] is the view of a [`SceneData`](super::SceneData). Each operation
//! on scenes is described here by a function from models to models, and the
//! executable operations are proved to compute these functions.

use super::nodes::dirty_transforms;
use super::tree::below;
use crate::resource::handle::{
    EnvironmentMapId, GenericId, Handle, LedgerModel, NodeId, ResourceKind,
};
use crate::resource::instance::InstanceParts;
use crate::resource::material::{FaceMaterialParts, LineMaterialParts, PointMaterialParts};
use crate::resource::mesh::MeshModel;
use crate::resource::node::{NodeModel, NodePayload};
use crate::resource::texture::{EnvironmentMapModel, TextureModel};
use vstd::prelude::*;

verus! {

/// What a scene holds.
#[verifier::ext_equal]
pub struct SceneModel {
    pub meshes: Map<u64, MeshModel>,
    pub instances: Map<u64, InstanceParts>,
    pub nodes: Map<u64, NodeModel>,
    /// The root nodes, kept alive by this list.
    pub roots: Seq<Handle>,
    pub face_materials: Map<u64, FaceMaterialParts>,
    pub line_materials: Map<u64, LineMaterialParts>,
    pub point_materials: Map<u64, PointMaterialParts>,
    pub textures: Map<u64, TextureModel>,
    pub environment_maps: Map<u64, EnvironmentMapModel>,
    pub active_environment_map: Option<EnvironmentMapId>,
    /// The node that drives rendering when no explicit camera is passed.
    pub active_camera: Option<NodeId>,
    /// Grows with every change to the nodes.
    pub node_generation: u64,
    /// The counts behind every handle.
    pub ledger: LedgerModel,
    /// What was removed since the removals were last taken, oldest first.
    pub removals: Seq<(ResourceKind, GenericId)>,
}

impl SceneModel {
    /// A scene that holds nothing.
    pub open spec fn empty() -> SceneModel {
        SceneModel {
            meshes: Map::empty(),
            instances: Map::empty(),
            nodes: Map::empty(),
            roots: Seq::empty(),
            face_materials: Map::empty(),
            line_materials: Map::empty(),
            point_materials: Map::empty(),
            textures: Map::empty(),
            environment_maps: Map::empty(),
            active_environment_map: None,
            active_camera: None,
            node_generation: 1,
            ledger: LedgerModel::empty(),
            removals: Seq::empty(),
        }
    }

    /// The ledger is in order, the collections are finite, and every node is stored
    /// under its own id.
    pub open spec fn wf(self) -> bool {
        &&& self.ledger.wf()
        &&& self.meshes.dom().finite()
        &&& self.instances.dom().finite()
        &&& self.nodes.dom().finite()
        &&& self.face_materials.dom().finite()
        &&& self.line_materials.dom().finite()
        &&& self.point_materials.dom().finite()
        &&& self.textures.dom().finite()
        &&& self.environment_maps.dom().finite()
        &&& self.node_generation >= 1
        &&& forall|k: u64| #[trigger] self.nodes.contains_key(k) ==> self.nodes[k].id == k
    }

    /// Whether the collection of the given kind holds `id`.
    pub open spec fn present(self, kind: ResourceKind, id: GenericId) -> bool {
        match kind {
            ResourceKind::Mesh => self.meshes.contains_key(id),
            ResourceKind::Instance => self.instances.contains_key(id),
            ResourceKind::Node => self.nodes.contains_key(id),
            ResourceKind::FaceMaterial => self.face_materials.contains_key(id),
            ResourceKind::LineMaterial => self.line_materials.contains_key(id),
            ResourceKind::PointMaterial => self.point_materials.contains_key(id),
            ResourceKind::Texture => self.textures.contains_key(id),
        }
    }

    /// The model with another ledger.
    pub open spec fn with_ledger(self, ledger: LedgerModel) -> SceneModel {
        SceneModel { ledger, ..self }
    }

    /// After a removal of the given resource is written down: its canonical core is
    /// forgotten and the removal logged.
    pub open spec fn log_removal(self, kind: ResourceKind, id: GenericId) -> SceneModel {
        SceneModel {
            ledger: self.ledger.forget(id),
            removals: self.removals.push((kind, id)),
            ..self
        }
    }

    /// After taking the given resource out of its collection and releasing what it
    /// owned. Nothing changes when it is not there.
    pub open spec fn remove_resource(self, kind: ResourceKind, id: GenericId) -> SceneModel {
        if !self.present(kind, id) {
            self
        } else {
            match kind {
                ResourceKind::Mesh => SceneModel {
                    meshes: self.meshes.remove(id),
                    ..self
                }.log_removal(kind, id),
                ResourceKind::Texture => SceneModel {
                    textures: self.textures.remove(id),
                    ..self
                }.log_removal(kind, id),
                ResourceKind::Instance => SceneModel {
                    instances: self.instances.remove(id),
                    ledger: self.ledger.release_all(self.instances[id].handles()),
                    ..self
                }.log_removal(kind, id),
                ResourceKind::FaceMaterial => SceneModel {
                    face_materials: self.face_materials.remove(id),
                    ledger: self.ledger.release_all(self.face_materials[id].handles()),
                    ..self
                }.log_removal(kind, id),
                ResourceKind::LineMaterial => SceneModel {
                    line_materials: self.line_materials.remove(id),
                    ledger: self.ledger.release_all(self.line_materials[id].handles()),
                    ..self
                }.log_removal(kind, id),
                ResourceKind::PointMaterial => SceneModel {
                    point_materials: self.point_materials.remove(id),
                    ledger: self.ledger.release_all(self.point_materials[id].handles()),
                    ..self
                }.log_removal(kind, id),
                ResourceKind::Node => SceneModel {
                    nodes: orphaned(self.nodes.remove(id), self.nodes[id].children),
                    active_camera: if self.active_camera == Some(id) {
                        None
                    } else {
                        self.active_camera
                    },
                    node_generation: (self.node_generation + 1) as u64,
                    ledger: self.ledger.release_all(self.nodes[id].handles()),
                    ..self
                }.log_removal(kind, id),
            }
        }
    }

    /// The handle that asking for one gives: `Some` exactly when the resource is
    /// there.
    pub open spec fn handle_of(self, kind: ResourceKind, id: GenericId) -> Option<Handle> {
        if self.present(kind, id) {
            Some(self.ledger.minted(id))
        } else {
            None
        }
    }

    /// After asking for a handle.
    pub open spec fn take_handle(self, kind: ResourceKind, id: GenericId) -> SceneModel {
        if self.present(kind, id) {
            self.with_ledger(self.ledger.mint(id, kind))
        } else {
            self
        }
    }

    /// After adding a mesh, with the handle that is handed out counted.
    pub open spec fn add_mesh(self, mesh: MeshModel) -> SceneModel {
        SceneModel {
            meshes: self.meshes.insert(mesh.id, mesh),
            ledger: self.ledger.mint(mesh.id, ResourceKind::Mesh),
            ..self
        }
    }

    /// The handle that adding a mesh hands out.
    pub open spec fn added_mesh(self, mesh: MeshModel) -> Handle {
        self.ledger.minted(mesh.id)
    }

    /// The ledger once a face material stored under `id` has let go of what it owns.
    pub open spec fn without_face_material(self, id: u64) -> LedgerModel {
        if self.face_materials.contains_key(id) {
            self.ledger.release_all(self.face_materials[id].handles())
        } else {
            self.ledger
        }
    }

    /// After adding a face material, with the handle that is handed out counted.
    pub open spec fn add_face_material(self, material: FaceMaterialParts) -> SceneModel {
        SceneModel {
            face_materials: self.face_materials.insert(material.id, material),
            ledger: self.without_face_material(material.id).mint(material.id, ResourceKind::FaceMaterial),
            ..self
        }
    }

    /// The handle that adding a face material hands out.
    pub open spec fn added_face_material(self, material: FaceMaterialParts) -> Handle {
        self.without_face_material(material.id).minted(material.id)
    }

    /// The ledger once a line material stored under `id` has let go of what it owns.
    pub open spec fn without_line_material(self, id: u64) -> LedgerModel {
        if self.line_materials.contains_key(id) {
            self.ledger.release_all(self.line_materials[id].handles())
        } else {
            self.ledger
        }
    }

    /// After adding a line material, with the handle that is handed out counted.
    pub open spec fn add_line_material(self, material: LineMaterialParts) -> SceneModel {
        SceneModel {
            line_materials: self.line_materials.insert(material.id, material),
            ledger: self.without_line_material(material.id).mint(material.id, ResourceKind::LineMaterial),
            ..self
        }
    }

    /// The handle that adding a line material hands out.
    pub open spec fn added_line_material(self, material: LineMaterialParts) -> Handle {
        self.without_line_material(material.id).minted(material.id)
    }

    /// The ledger once a point material stored under `id` has let go of what it owns.
    pub open spec fn without_point_material(self, id: u64) -> LedgerModel {
        if self.point_materials.contains_key(id) {
            self.ledger.release_all(self.point_materials[id].handles())
        } else {
            self.ledger
        }
    }

    /// After adding a point material, with the handle that is handed out counted.
    pub open spec fn add_point_material(self, material: PointMaterialParts) -> SceneModel {
        SceneModel {
            point_materials: self.point_materials.insert(material.id, material),
            ledger: self.without_point_material(material.id).mint(material.id, ResourceKind::PointMaterial),
            ..self
        }
    }

    /// The handle that adding a point material hands out.
    pub open spec fn added_point_material(self, material: PointMaterialParts) -> Handle {
        self.without_point_material(material.id).minted(material.id)
    }

    /// After adding a texture, with the handle that is handed out counted.
    pub open spec fn add_texture(self, texture: TextureModel) -> SceneModel {
        SceneModel {
            textures: self.textures.insert(texture.id, texture),
            ledger: self.ledger.mint(texture.id, ResourceKind::Texture),
            ..self
        }
    }

    /// The handle that adding a texture hands out.
    pub open spec fn added_texture(self, texture: TextureModel) -> Handle {
        self.ledger.minted(texture.id)
    }

    /// The ledger once an instance stored under `id` has let go of what it owns.
    pub open spec fn without_instance(self, id: u64) -> LedgerModel {
        if self.instances.contains_key(id) {
            self.ledger.release_all(self.instances[id].handles())
        } else {
            self.ledger
        }
    }

    /// After adding an instance, with the handle that is handed out counted.
    pub open spec fn add_instance(self, instance: InstanceParts) -> SceneModel {
        SceneModel {
            instances: self.instances.insert(instance.id, instance),
            ledger: self.without_instance(instance.id).mint(instance.id, ResourceKind::Instance),
            ..self
        }
    }

    /// The handle that adding an instance hands out.
    pub open spec fn added_instance(self, instance: InstanceParts) -> Handle {
        self.without_instance(instance.id).minted(instance.id)
    }

    /// The projection that the active camera node carries.
    pub open spec fn active_camera_data(self) -> Option<crate::camera::CameraProjection> {
        match self.active_camera {
            Some(id) => if self.nodes.contains_key(id) {
                match self.nodes[id].payload {
                    NodePayload::Camera(projection) => Some(projection),
                    _ => None,
                }
            } else {
                None
            },
            None => None,
        }
    }

    /// After handling the oldest entry of the queue of dropped resources: unless a
    /// handle was minted for it since, the resource goes.
    pub open spec fn reap_one(self) -> SceneModel {
        let entry = self.ledger.dropped[0];
        let rest = self.with_ledger(self.ledger.without_oldest());
        if rest.ledger.slot_live(entry.1) {
            rest
        } else {
            rest.remove_resource(entry.0, entry.1)
        }
    }

    /// After handling the queue of dropped resources until it is empty. Removing a
    /// resource releases what it owned, which may enqueue more.
    pub open spec fn reaped(self) -> SceneModel
        decreases self.ledger.drain_bound(),
        when self.ledger.wf()
    {
        if self.ledger.dropped.len() == 0 {
            self
        } else {
            proof {
                lemma_reap_one_bound(self);
            }
            self.reap_one().reaped()
        }
    }
}

/// The nodes, with the parent link of every node that `handles` lists cleared.
pub open spec fn orphan(nodes: Map<u64, NodeModel>, handles: Seq<Handle>) -> Map<u64, NodeModel> {
    nodes.map_entries(
        |k: u64, n: NodeModel|
            if lists_id(handles, k) {
                NodeModel { parent: None, ..n }
            } else {
                n
            },
    )
}

/// Whether a node is reached from those that `handles` lists.
pub open spec fn reached(nodes: Map<u64, NodeModel>, handles: Seq<Handle>, k: u64) -> bool {
    exists|i: int| 0 <= i < handles.len() && below(nodes, k, (#[trigger] handles[i]).id)
}

/// The nodes, with those that `handles` lists left without a parent: the transforms and
/// bounds of their subtrees are given up, as they are placed elsewhere now.
pub open spec fn orphaned(
    nodes: Map<u64, NodeModel>,
    handles: Seq<Handle>,
) -> Map<u64, NodeModel> {
    dirty_transforms(
        orphan(nodes, handles),
        nodes.dom().filter(|k: u64| reached(nodes, handles, k)),
    )
}

/// Whether some handle of `handles` is for `id`.
pub open spec fn lists_id(handles: Seq<Handle>, id: u64) -> bool {
    exists|i: int| 0 <= i < handles.len() && (#[trigger] handles[i]).id == id
}

/// The handles that are not for `id`, in order.
pub open spec fn without_all(handles: Seq<Handle>, id: u64) -> Seq<Handle>
    decreases handles.len(),
{
    if handles.len() == 0 {
        Seq::empty()
    } else {
        let front = without_all(handles.drop_last(), id);
        if handles.last().id == id {
            front
        } else {
            front.push(handles.last())
        }
    }
}

/// The handles that are for `id`, in order.
pub open spec fn all_for(handles: Seq<Handle>, id: u64) -> Seq<Handle>
    decreases handles.len(),
{
    if handles.len() == 0 {
        Seq::empty()
    } else {
        let front = all_for(handles.drop_last(), id);
        if handles.last().id == id {
            front.push(handles.last())
        } else {
            front
        }
    }
}

/// Releasing a handle keeps the ledger in order, leaves clock and slots alone, and
/// never makes draining the queue take longer.
pub proof fn lemma_release(ledger: LedgerModel, handle: Handle)
    requires
        ledger.wf(),
    ensures
        ledger.release(handle).wf(),
        ledger.release(handle).clock == ledger.clock,
        ledger.release(handle).slots == ledger.slots,
        ledger.release(handle).drain_bound() <= ledger.drain_bound(),
{
    if ledger.is_live(handle) {
        let c = handle.core->0;
        if ledger.cores[c].strong > 1 {
            assert(ledger.release(handle).cores.dom() =~= ledger.cores.dom());
        } else {
            assert(ledger.release(handle).cores.dom() =~= ledger.cores.dom().remove(c));
        }
    }
}

/// The same of releasing any number of handles.
pub proof fn lemma_release_all(ledger: LedgerModel, handles: Seq<Handle>)
    requires
        ledger.wf(),
    ensures
        ledger.release_all(handles).wf(),
        ledger.release_all(handles).clock == ledger.clock,
        ledger.release_all(handles).slots == ledger.slots,
        ledger.release_all(handles).drain_bound() <= ledger.drain_bound(),
    decreases handles.len(),
{
    if handles.len() > 0 {
        lemma_release_all(ledger, handles.drop_last());
        lemma_release(ledger.release_all(handles.drop_last()), handles.last());
    }
}

/// Removing a resource keeps the ledger in order and never makes draining the queue
/// take longer.
pub proof fn lemma_remove_resource_bound(m: SceneModel, kind: ResourceKind, id: GenericId)
    requires
        m.ledger.wf(),
    ensures
        m.remove_resource(kind, id).ledger.wf(),
        m.remove_resource(kind, id).ledger.clock == m.ledger.clock,
        m.remove_resource(kind, id).ledger.drain_bound() <= m.ledger.drain_bound(),
{
    if m.present(kind, id) {
        match kind {
            ResourceKind::Instance => lemma_release_all(m.ledger, m.instances[id].handles()),
            ResourceKind::Node => lemma_release_all(m.ledger, m.nodes[id].handles()),
            ResourceKind::FaceMaterial => {
                lemma_release_all(m.ledger, m.face_materials[id].handles())
            },
            ResourceKind::LineMaterial => {
                lemma_release_all(m.ledger, m.line_materials[id].handles())
            },
            ResourceKind::PointMaterial => {
                lemma_release_all(m.ledger, m.point_materials[id].handles())
            },
            _ => {},
        }
    }
}

/// Handling one entry of the queue brings draining it closer to its end.
pub proof fn lemma_reap_one_bound(m: SceneModel)
    requires
        m.ledger.wf(),
        m.ledger.dropped.len() > 0,
    ensures
        m.reap_one().ledger.wf(),
        m.reap_one().ledger.clock == m.ledger.clock,
        m.reap_one().ledger.drain_bound() < m.ledger.drain_bound(),
{
    let entry = m.ledger.dropped[0];
    let rest = m.with_ledger(m.ledger.without_oldest());
    lemma_remove_resource_bound(rest, entry.0, entry.1);
}

} // verus!
