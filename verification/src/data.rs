//! The owning scene container.
//!
//! [`SceneData`] holds every mesh, material, texture, instance, node and light in a
//! scene, under the ids they are addressed by, together with the counts behind the
//! handles that own them.

pub mod bounds;
pub mod bounds_coherence;
pub mod bounds_laws;
pub mod cameras;
pub mod change_laws;
pub mod clear;
pub mod coherence;
pub mod effects;
pub mod forest;
pub mod laws;
pub mod links;
pub mod model;
pub mod node_laws;
pub mod nodes;
pub mod ownership;
pub mod reap_coherence;
pub mod rebind;
pub mod rebind_laws;
pub mod rebound;
pub mod rebuild;
pub mod relinking;
pub mod removal_laws;
pub mod replacing_laws;
pub mod soundness;
pub mod trace_laws;
pub mod tree;
pub mod visibility;
pub mod visibility_coherence;
pub mod walk;
pub mod walk_order;
pub mod world;
use crate::camera::CameraProjection;
use crate::common::Aabb;
use crate::id_map::IdMap;
use crate::initial_generation;
use crate::resource::handle::{
    EnvironmentMapId, FaceMaterialHandle, FaceMaterialId, GenericId, Handle, InstanceHandle,
    InstanceId, Ledger, LedgerModel, LineMaterialHandle, LineMaterialId, MeshHandle, MeshId,
    NodeHandle, NodeId, PointMaterialHandle, PointMaterialId, ResourceKind, TextureHandle,
    TextureId,
};
use crate::resource::instance::{Instance, InstanceParts};
use crate::resource::material::{
    opt_seq, FaceMaterial, FaceMaterialParts, LineMaterial, PointMaterial,
};
use crate::resource::mesh::Mesh;
use crate::resource::node::{Node, NodePayload};
use crate::resource::texture::{EnvironmentMap, EnvironmentMapModel, Texture};
use model::{lists_id, orphan, orphaned, reached, SceneModel};
use vstd::prelude::*;

verus! {

/// Scene-level properties that affect shader generation.
#[derive(Debug, Clone, Copy, PartialEq, Eq, Hash, Structural)]
pub struct SceneProperties {
    /// Whether image-based lighting is active (environment map present).
    pub has_ibl: bool,
}

impl Default for SceneProperties {
    fn default() -> (props: Self)
        ensures
            props == (SceneProperties { has_ibl: false }),
    {
        SceneProperties { has_ibl: false }
    }
}

/// The result of a bounding box computation on a possibly incomplete scene tree.
///
/// `incomplete` being true means at least one node, instance or mesh referenced in
/// the subtree was not present, as happens while a scene is still being built up.
/// In that case the result is not cached, so the next call will retry and may
/// return a more complete value.
#[derive(Debug, Clone, Copy, PartialEq, Eq, Structural)]
pub struct BoundingResult {
    /// The computed bounds, or `None` if no geometry was reachable.
    pub bounds: Option<Aabb>,
    /// True when the subtree was not fully populated at the time of computation.
    pub incomplete: bool,
}

/// The scene container holding all meshes, materials, textures, instances, nodes
/// and lights.
pub struct SceneData {
    meshes: IdMap<Mesh>,
    instances: IdMap<Instance>,
    nodes: IdMap<Node>,
    root_nodes: Vec<NodeHandle>,
    face_materials: IdMap<FaceMaterial>,
    line_materials: IdMap<LineMaterial>,
    point_materials: IdMap<PointMaterial>,
    textures: IdMap<Texture>,
    environment_maps: IdMap<EnvironmentMap>,
    active_environment_map: Option<EnvironmentMapId>,
    active_camera: Option<NodeId>,
    node_generation: u64,
    ledger: Ledger,
    removals: Vec<(ResourceKind, GenericId)>,
}

impl View for SceneData {
    type V = SceneModel;

    closed spec fn view(&self) -> SceneModel {
        SceneModel {
            meshes: self.meshes@,
            instances: self.instances@,
            nodes: self.nodes@,
            roots: self.root_nodes@,
            face_materials: self.face_materials@,
            line_materials: self.line_materials@,
            point_materials: self.point_materials@,
            textures: self.textures@,
            environment_maps: self.environment_maps@,
            active_environment_map: self.active_environment_map,
            active_camera: self.active_camera,
            node_generation: self.node_generation,
            ledger: self.ledger@,
            removals: self.removals@,
        }
    }
}

/// Releasing one list of handles after another is releasing both as one list.
pub proof fn lemma_release_append(ledger: LedgerModel, a: Seq<Handle>, b: Seq<Handle>)
    ensures
        ledger.release_all(a + b) == ledger.release_all(a).release_all(b),
    decreases b.len(),
{
    if b.len() == 0 {
        assert(a + b =~= a);
    } else {
        assert((a + b).drop_last() =~= a + b.drop_last());
        lemma_release_append(ledger, a, b.drop_last());
    }
}

/// Releasing an optional handle is releasing the list it makes.
pub proof fn lemma_release_opt(ledger: LedgerModel, handle: Option<Handle>)
    ensures
        ledger.release_all(opt_seq(handle)) == ledger.release_opt(handle),
{
    if handle is Some {
        let one = opt_seq(handle);
        assert(one.drop_last() =~= Seq::empty());
        assert(ledger.release_all(one.drop_last()) == ledger);
    }
}

/// Releases everything an instance owns.
fn release_instance(ledger: &mut Ledger, instance: InstanceParts)
    requires
        old(ledger)@.wf(),
    ensures
        final(ledger)@ == old(ledger)@.release_all(instance.handles()),
        final(ledger)@.wf(),
        final(ledger)@.clock == old(ledger)@.clock,
{
    proof {
        let l = ledger@;
        let a = seq![instance.mesh];
        let b = opt_seq(instance.face_material);
        let c = opt_seq(instance.line_material);
        let d = opt_seq(instance.point_material);
        assert(a =~= opt_seq(Some(instance.mesh)));
        lemma_release_opt(l, Some(instance.mesh));
        lemma_release_append(l, a, b);
        lemma_release_opt(l.release_all(a), instance.face_material);
        lemma_release_append(l, a + b, c);
        lemma_release_opt(l.release_all(a + b), instance.line_material);
        lemma_release_append(l, a + b + c, d);
        lemma_release_opt(l.release_all(a + b + c), instance.point_material);
    }
    ledger.release(instance.mesh);
    ledger.release_opt(instance.face_material);
    ledger.release_opt(instance.line_material);
    ledger.release_opt(instance.point_material);
}

/// Releases everything a face material owns.
fn release_face_material(ledger: &mut Ledger, material: FaceMaterialParts)
    requires
        old(ledger)@.wf(),
    ensures
        final(ledger)@ == old(ledger)@.release_all(material.handles()),
        final(ledger)@.wf(),
        final(ledger)@.clock == old(ledger)@.clock,
{
    proof {
        let l = ledger@;
        let a = opt_seq(material.base_color_texture);
        let b = opt_seq(material.normal_texture);
        let c = opt_seq(material.metallic_roughness_texture);
        lemma_release_opt(l, material.base_color_texture);
        lemma_release_append(l, a, b);
        lemma_release_opt(l.release_all(a), material.normal_texture);
        lemma_release_append(l, a + b, c);
        lemma_release_opt(l.release_all(a + b), material.metallic_roughness_texture);
    }
    ledger.release_opt(material.base_color_texture);
    ledger.release_opt(material.normal_texture);
    ledger.release_opt(material.metallic_roughness_texture);
}

/// Releases everything a node owns.
fn release_node(ledger: &mut Ledger, node: Node)
    requires
        old(ledger)@.wf(),
    ensures
        final(ledger)@ == old(ledger)@.release_all(node@.handles()),
        final(ledger)@.wf(),
        final(ledger)@.clock == old(ledger)@.clock,
{
    proof {
        let l = ledger@;
        lemma_release_append(l, node.children@, opt_seq(node.payload.handle()));
        lemma_release_opt(l.release_all(node.children@), node.payload.handle());
    }
    let payload = node.payload.into_handle();
    ledger.release_all(node.children);
    ledger.release_opt(payload);
}

impl SceneData {
    /// Creates a new empty scene.
    pub fn new() -> (scene: Self)
        ensures
            scene@ == SceneModel::empty(),
            scene@.wf(),
            scene@.sound(),
    {
        proof {
            soundness::empty_is_sound();
        }
        SceneData {
            meshes: IdMap::new(),
            instances: IdMap::new(),
            nodes: IdMap::new(),
            root_nodes: Vec::new(),
            face_materials: IdMap::new(),
            line_materials: IdMap::new(),
            point_materials: IdMap::new(),
            textures: IdMap::new(),
            environment_maps: IdMap::new(),
            active_environment_map: None,
            active_camera: None,
            node_generation: initial_generation(),
            ledger: Ledger::new(),
            removals: Vec::new(),
        }
    }

    /// How many more handles this scene can count, and how many more node changes.
    pub fn room(&self) -> (room: (u64, u64))
        ensures
            room.0 == u64::MAX - self@.ledger.clock,
            room.1 == u64::MAX - self@.node_generation,
    {
        (self.ledger.room(), u64::MAX - self.node_generation)
    }

    // ========== Handles ==========

    /// Makes another handle like `handle`, counting it.
    pub fn retain(&mut self, handle: &Handle) -> (copy: Handle)
        requires
            old(self)@.wf(),
            old(self)@.ledger.clock < u64::MAX,
        ensures
            copy == *handle,
            final(self)@ == old(self)@.with_ledger(old(self)@.ledger.retain(*handle)),
            final(self)@.wf(),
    {
        self.ledger.retain(handle)
    }

    /// Gives `handle` up. When it was the last one for its resource, the resource
    /// is removed by the next [`reap`](Self::reap).
    pub fn release(&mut self, handle: Handle)
        requires
            old(self)@.wf(),
        ensures
            final(self)@ == old(self)@.with_ledger(old(self)@.ledger.release(handle)),
            final(self)@.wf(),
    {
        self.ledger.release(handle)
    }

    /// The number of handles that share `handle`'s count.
    pub fn strong_count(&self, handle: &Handle) -> (n: u64)
        ensures
            n == (match handle.core {
                Some(c) => self@.ledger.strong(c),
                None => 0,
            }),
    {
        self.ledger.strong_count(handle)
    }

    /// Clears the parent link of every node that `handles` lists.
    fn orphan_children(&mut self, handles: &Vec<NodeHandle>)
        ensures
            final(self)@ == (SceneModel {
                nodes: orphan(old(self)@.nodes, handles@),
                ..old(self)@
            }),
    {
        let mut i: usize = 0;
        proof {
            assert(orphan(old(self)@.nodes, handles@.take(0)) =~= old(self)@.nodes);
        }
        while i < handles.len()
            invariant
                i <= handles.len(),
                self@ == (SceneModel {
                    nodes: orphan(old(self)@.nodes, handles@.take(i as int)),
                    ..old(self)@
                }),
            decreases handles.len() - i,
        {
            let id: u64 = handles[i].id;
            let ghost before = self@.nodes;
            if let Some(child) = self.nodes.get_mut(id) {
                child.set_parent_unchecked(None);
            }
            proof {
                let now = handles@.take(i + 1);
                let was = handles@.take(i as int);
                assert(now =~= was.push(handles@[i as int]));
                assert forall|k: u64| lists_id(now, k) <==> lists_id(was, k) || k == id by {
                    if lists_id(was, k) {
                        let j = choose|j: int| 0 <= j < was.len() && (#[trigger] was[j]).id == k;
                        assert(now[j].id == k);
                    }
                    if k == id {
                        assert(now[i as int].id == k);
                    }
                    if lists_id(now, k) {
                        let j = choose|j: int| 0 <= j < now.len() && (#[trigger] now[j]).id == k;
                        if j < i {
                            assert(was[j].id == k);
                        }
                    }
                }
                assert(self@.nodes =~= orphan(old(self)@.nodes, now));
            }
            i = i + 1;
        }
        proof {
            assert(handles@.take(i as int) =~= handles@);
        }
    }

    /// Takes a resource out of its collection, releasing what it owns.
    fn remove_resource(&mut self, kind: ResourceKind, id: GenericId)
        requires
            old(self)@.wf(),
            old(self)@.present(kind, id) && kind == ResourceKind::Node
                ==> old(self)@.node_generation < u64::MAX,
        ensures
            final(self)@ == old(self)@.remove_resource(kind, id),
            final(self)@.wf(),
    {
        let removed = match kind {
            ResourceKind::Mesh => self.meshes.remove(id).is_some(),
            ResourceKind::Texture => self.textures.remove(id).is_some(),
            ResourceKind::Instance => match self.instances.remove(id) {
                Some(instance) => {
                    release_instance(&mut self.ledger, instance.into_parts());
                    true
                },
                None => false,
            },
            ResourceKind::FaceMaterial => match self.face_materials.remove(id) {
                Some(material) => {
                    release_face_material(&mut self.ledger, material.into_parts());
                    true
                },
                None => false,
            },
            ResourceKind::LineMaterial => match self.line_materials.remove(id) {
                Some(material) => {
                    let parts = material.into_parts();
                    proof {
                        lemma_release_opt(self.ledger@, parts.base_color_texture);
                    }
                    self.ledger.release_opt(parts.base_color_texture);
                    true
                },
                None => false,
            },
            ResourceKind::PointMaterial => match self.point_materials.remove(id) {
                Some(material) => {
                    let parts = material.into_parts();
                    proof {
                        lemma_release_opt(self.ledger@, parts.base_color_texture);
                    }
                    self.ledger.release_opt(parts.base_color_texture);
                    true
                },
                None => false,
            },
            ResourceKind::Node => match self.nodes.remove(id) {
                Some(node) => {
                    proof {
                        assert(self@.nodes.dom() =~= old(self)@.nodes.dom().remove(id));
                    }
                    let (set, below) = self.mark_below(&node.children);
                    let ghost rest = self@.nodes;
                    self.orphan_children(&node.children);
                    self.mark_transforms_dirty(&below);
                    proof {
                        assert(below@.to_set() =~= rest.dom().filter(
                            |k: u64| reached(rest, node@.children, k),
                        )) by {
                            assert forall|k: u64| reached(rest, node@.children, k) implies
                                rest.contains_key(k) by {
                                nodes::lemma_reached_present(rest, node@.children, k);
                            }
                        }
                        assert(self@.nodes == orphaned(rest, node@.children));
                        assert(self@.nodes.dom() =~= old(self)@.nodes.dom().remove(id));
                    }
                    if self.active_camera == Some(id) {
                        self.active_camera = None;
                    }
                    self.node_generation = self.node_generation + 1;
                    release_node(&mut self.ledger, node);
                    true
                },
                None => false,
            },
        };
        if removed {
            self.ledger.forget(id);
            self.removals.push((kind, id));
        } else {
            proof {
                assert(self@.meshes =~= old(self)@.meshes);
                assert(self@.textures =~= old(self)@.textures);
                assert(self@.instances =~= old(self)@.instances);
                assert(self@.face_materials =~= old(self)@.face_materials);
                assert(self@.line_materials =~= old(self)@.line_materials);
                assert(self@.point_materials =~= old(self)@.point_materials);
                assert(self@.nodes =~= old(self)@.nodes);
            }
        }
    }

    /// Removes resources whose last handle was released, cascading through the
    /// references they owned.
    pub fn reap(&mut self)
        requires
            old(self)@.wf(),
            old(self)@.node_generation + old(self)@.nodes.dom().len() <= u64::MAX,
        ensures
            final(self)@ == old(self)@.reaped(),
            final(self)@.ledger.dropped.len() == 0,
            final(self)@.wf(),
    {
        loop
            invariant
                self@.wf(),
                self@.reaped() == old(self)@.reaped(),
                self@.node_generation + self@.nodes.dom().len() <= u64::MAX,
            ensures
                self@.wf(),
                self@.reaped() == old(self)@.reaped(),
                self@.ledger.dropped.len() == 0,
            decreases self@.ledger.drain_bound(),
        {
            let ghost before = self@;
            match self.ledger.pop_dropped() {
                None => {
                    break;
                },
                Some(entry) => {
                    proof {
                        model::lemma_reap_one_bound(before);
                    }
                    // Revived: a new handle was minted after the entry was queued.
                    if !self.ledger.slot_live(entry.1) {
                        self.remove_resource(entry.0, entry.1);
                        proof {
                            if before.nodes.contains_key(entry.1) && entry.0
                                == ResourceKind::Node {
                                assert(self@.nodes.dom() =~= before.nodes.dom().remove(entry.1));
                            }
                        }
                    }
                },
            }
        }
    }

    /// Drains the log of resources removed since the last call.
    ///
    /// Renderers use this to evict mirrored resources. The log has a single
    /// consumer: draining it hands the removals to the caller.
    pub fn take_removals(&mut self) -> (removals: Vec<(ResourceKind, GenericId)>)
        ensures
            removals@ == old(self)@.removals,
            final(self)@ == (SceneModel { removals: Seq::empty(), ..old(self)@ }),
    {
        let mut taken: Vec<(ResourceKind, GenericId)> = Vec::new();
        std::mem::swap(&mut taken, &mut self.removals);
        taken
    }

    // ========== Mesh API ==========

    /// Adds a mesh to the scene, returning its owning handle. A mesh already
    /// stored under the same id is replaced.
    pub fn add_mesh(&mut self, mesh: Mesh) -> (handle: MeshHandle)
        requires
            old(self)@.wf(),
            old(self)@.ledger.clock < u64::MAX,
        ensures
            final(self)@ == old(self)@.add_mesh(mesh@),
            handle == old(self)@.added_mesh(mesh@),
            final(self)@.wf(),
    {
        let id: u64 = mesh.id();
        self.meshes.insert(id, mesh);
        self.ledger.mint(id, ResourceKind::Mesh)
    }

    /// An owning handle for an existing mesh.
    pub fn mesh_handle(&mut self, id: MeshId) -> (handle: Option<MeshHandle>)
        requires
            old(self)@.wf(),
            old(self)@.ledger.clock < u64::MAX,
        ensures
            handle == old(self)@.handle_of(ResourceKind::Mesh, id),
            final(self)@ == old(self)@.take_handle(ResourceKind::Mesh, id),
            final(self)@.wf(),
    {
        if self.meshes.contains(id) {
            Some(self.ledger.mint(id, ResourceKind::Mesh))
        } else {
            None
        }
    }

    /// Gets a reference to a mesh by id.
    pub fn get_mesh(&self, id: MeshId) -> (found: Option<&Mesh>)
        ensures
            match found {
                Some(v) => self@.meshes.contains_key(id) && v@ == self@.meshes[id],
                None => !self@.meshes.contains_key(id),
            },
    {
        self.meshes.get(id)
    }

    /// Gets a mutable reference to a mesh by id.
    pub fn get_mesh_mut(&mut self, id: MeshId) -> (found: Option<&mut Mesh>)
        ensures
            match found {
                Some(v) => old(self)@.meshes.contains_key(id) && (*v)@ == old(self)@.meshes[id]
                    && final(self)@ == (SceneModel {
                    meshes: old(self)@.meshes.insert(id, (*final(v))@),
                    ..old(self)@
                }),
                None => !old(self)@.meshes.contains_key(id) && final(self)@ == old(self)@,
            },
    {
        self.meshes.get_mut(id)
    }

    /// The ids of all meshes, in no particular order.
    pub fn meshes(&self) -> (ids: Vec<MeshId>)
        ensures
            ids@.no_duplicates(),
            ids@.to_set() == self@.meshes.dom(),
    {
        self.meshes.keys()
    }

    /// Returns the number of meshes in the scene.
    pub fn mesh_count(&self) -> (n: usize)
        ensures
            n == self@.meshes.dom().len(),
    {
        self.meshes.len()
    }

    /// Force-removes a mesh from the scene by id, even while handles for it
    /// exist (they become inert).
    pub fn remove_mesh(&mut self, id: MeshId)
        requires
            old(self)@.wf(),
        ensures
            final(self)@ == old(self)@.remove_resource(ResourceKind::Mesh, id),
            final(self)@.wf(),
    {
        self.remove_resource(ResourceKind::Mesh, id);
    }

    // ========== Face material API ==========

    /// Adds a face material to the scene, returning its owning handle. A face material already
    /// stored under the same id is replaced.
    pub fn add_face_material(&mut self, material: FaceMaterial) -> (handle: FaceMaterialHandle)
        requires
            old(self)@.wf(),
            old(self)@.ledger.clock < u64::MAX,
        ensures
            final(self)@ == old(self)@.add_face_material(material@),
            handle == old(self)@.added_face_material(material@),
            final(self)@.wf(),
    {
        let id: u64 = material.id();
        let replaced = self.face_materials.insert(id, material);
        if let Some(old_one) = replaced {
            release_face_material(&mut self.ledger, old_one.into_parts());
        }
        self.ledger.mint(id, ResourceKind::FaceMaterial)
    }

    /// An owning handle for an existing face material.
    pub fn face_material_handle(&mut self, id: FaceMaterialId) -> (handle: Option<FaceMaterialHandle>)
        requires
            old(self)@.wf(),
            old(self)@.ledger.clock < u64::MAX,
        ensures
            handle == old(self)@.handle_of(ResourceKind::FaceMaterial, id),
            final(self)@ == old(self)@.take_handle(ResourceKind::FaceMaterial, id),
            final(self)@.wf(),
    {
        if self.face_materials.contains(id) {
            Some(self.ledger.mint(id, ResourceKind::FaceMaterial))
        } else {
            None
        }
    }

    /// Gets a reference to a face material by id.
    pub fn get_face_material(&self, id: FaceMaterialId) -> (found: Option<&FaceMaterial>)
        ensures
            match found {
                Some(v) => self@.face_materials.contains_key(id) && v@ == self@.face_materials[id],
                None => !self@.face_materials.contains_key(id),
            },
    {
        self.face_materials.get(id)
    }

    /// Gets a mutable reference to a face material by id.
    pub fn get_face_material_mut(&mut self, id: FaceMaterialId) -> (found: Option<&mut FaceMaterial>)
        ensures
            match found {
                Some(v) => old(self)@.face_materials.contains_key(id) && (*v)@ == old(self)@.face_materials[id]
                    && final(self)@ == (SceneModel {
                    face_materials: old(self)@.face_materials.insert(id, (*final(v))@),
                    ..old(self)@
                }),
                None => !old(self)@.face_materials.contains_key(id) && final(self)@ == old(self)@,
            },
    {
        self.face_materials.get_mut(id)
    }

    /// The ids of all face materials, in no particular order.
    pub fn face_materials(&self) -> (ids: Vec<FaceMaterialId>)
        ensures
            ids@.no_duplicates(),
            ids@.to_set() == self@.face_materials.dom(),
    {
        self.face_materials.keys()
    }

    /// Returns the number of face materials in the scene.
    pub fn face_material_count(&self) -> (n: usize)
        ensures
            n == self@.face_materials.dom().len(),
    {
        self.face_materials.len()
    }

    /// Force-removes a face material from the scene by id, even while handles for it
    /// exist (they become inert).
    pub fn remove_face_material(&mut self, id: FaceMaterialId)
        requires
            old(self)@.wf(),
        ensures
            final(self)@ == old(self)@.remove_resource(ResourceKind::FaceMaterial, id),
            final(self)@.wf(),
    {
        self.remove_resource(ResourceKind::FaceMaterial, id);
    }

    // ========== Line material API ==========

    /// Adds a line material to the scene, returning its owning handle. A line material already
    /// stored under the same id is replaced.
    pub fn add_line_material(&mut self, material: LineMaterial) -> (handle: LineMaterialHandle)
        requires
            old(self)@.wf(),
            old(self)@.ledger.clock < u64::MAX,
        ensures
            final(self)@ == old(self)@.add_line_material(material@),
            handle == old(self)@.added_line_material(material@),
            final(self)@.wf(),
    {
        let id: u64 = material.id();
        let replaced = self.line_materials.insert(id, material);
        if let Some(old_one) = replaced {
            let parts = old_one.into_parts();
            proof {
                lemma_release_opt(self.ledger@, parts.base_color_texture);
            }
            self.ledger.release_opt(parts.base_color_texture);
        }
        self.ledger.mint(id, ResourceKind::LineMaterial)
    }

    /// An owning handle for an existing line material.
    pub fn line_material_handle(&mut self, id: LineMaterialId) -> (handle: Option<LineMaterialHandle>)
        requires
            old(self)@.wf(),
            old(self)@.ledger.clock < u64::MAX,
        ensures
            handle == old(self)@.handle_of(ResourceKind::LineMaterial, id),
            final(self)@ == old(self)@.take_handle(ResourceKind::LineMaterial, id),
            final(self)@.wf(),
    {
        if self.line_materials.contains(id) {
            Some(self.ledger.mint(id, ResourceKind::LineMaterial))
        } else {
            None
        }
    }

    /// Gets a reference to a line material by id.
    pub fn get_line_material(&self, id: LineMaterialId) -> (found: Option<&LineMaterial>)
        ensures
            match found {
                Some(v) => self@.line_materials.contains_key(id) && v@ == self@.line_materials[id],
                None => !self@.line_materials.contains_key(id),
            },
    {
        self.line_materials.get(id)
    }

    /// Gets a mutable reference to a line material by id.
    pub fn get_line_material_mut(&mut self, id: LineMaterialId) -> (found: Option<&mut LineMaterial>)
        ensures
            match found {
                Some(v) => old(self)@.line_materials.contains_key(id) && (*v)@ == old(self)@.line_materials[id]
                    && final(self)@ == (SceneModel {
                    line_materials: old(self)@.line_materials.insert(id, (*final(v))@),
                    ..old(self)@
                }),
                None => !old(self)@.line_materials.contains_key(id) && final(self)@ == old(self)@,
            },
    {
        self.line_materials.get_mut(id)
    }

    /// The ids of all line materials, in no particular order.
    pub fn line_materials(&self) -> (ids: Vec<LineMaterialId>)
        ensures
            ids@.no_duplicates(),
            ids@.to_set() == self@.line_materials.dom(),
    {
        self.line_materials.keys()
    }

    /// Returns the number of line materials in the scene.
    pub fn line_material_count(&self) -> (n: usize)
        ensures
            n == self@.line_materials.dom().len(),
    {
        self.line_materials.len()
    }

    /// Force-removes a line material from the scene by id, even while handles for it
    /// exist (they become inert).
    pub fn remove_line_material(&mut self, id: LineMaterialId)
        requires
            old(self)@.wf(),
        ensures
            final(self)@ == old(self)@.remove_resource(ResourceKind::LineMaterial, id),
            final(self)@.wf(),
    {
        self.remove_resource(ResourceKind::LineMaterial, id);
    }

    // ========== Point material API ==========

    /// Adds a point material to the scene, returning its owning handle. A point material already
    /// stored under the same id is replaced.
    pub fn add_point_material(&mut self, material: PointMaterial) -> (handle: PointMaterialHandle)
        requires
            old(self)@.wf(),
            old(self)@.ledger.clock < u64::MAX,
        ensures
            final(self)@ == old(self)@.add_point_material(material@),
            handle == old(self)@.added_point_material(material@),
            final(self)@.wf(),
    {
        let id: u64 = material.id();
        let replaced = self.point_materials.insert(id, material);
        if let Some(old_one) = replaced {
            let parts = old_one.into_parts();
            proof {
                lemma_release_opt(self.ledger@, parts.base_color_texture);
            }
            self.ledger.release_opt(parts.base_color_texture);
        }
        self.ledger.mint(id, ResourceKind::PointMaterial)
    }

    /// An owning handle for an existing point material.
    pub fn point_material_handle(&mut self, id: PointMaterialId) -> (handle: Option<PointMaterialHandle>)
        requires
            old(self)@.wf(),
            old(self)@.ledger.clock < u64::MAX,
        ensures
            handle == old(self)@.handle_of(ResourceKind::PointMaterial, id),
            final(self)@ == old(self)@.take_handle(ResourceKind::PointMaterial, id),
            final(self)@.wf(),
    {
        if self.point_materials.contains(id) {
            Some(self.ledger.mint(id, ResourceKind::PointMaterial))
        } else {
            None
        }
    }

    /// Gets a reference to a point material by id.
    pub fn get_point_material(&self, id: PointMaterialId) -> (found: Option<&PointMaterial>)
        ensures
            match found {
                Some(v) => self@.point_materials.contains_key(id) && v@ == self@.point_materials[id],
                None => !self@.point_materials.contains_key(id),
            },
    {
        self.point_materials.get(id)
    }

    /// Gets a mutable reference to a point material by id.
    pub fn get_point_material_mut(&mut self, id: PointMaterialId) -> (found: Option<&mut PointMaterial>)
        ensures
            match found {
                Some(v) => old(self)@.point_materials.contains_key(id) && (*v)@ == old(self)@.point_materials[id]
                    && final(self)@ == (SceneModel {
                    point_materials: old(self)@.point_materials.insert(id, (*final(v))@),
                    ..old(self)@
                }),
                None => !old(self)@.point_materials.contains_key(id) && final(self)@ == old(self)@,
            },
    {
        self.point_materials.get_mut(id)
    }

    /// The ids of all point materials, in no particular order.
    pub fn point_materials(&self) -> (ids: Vec<PointMaterialId>)
        ensures
            ids@.no_duplicates(),
            ids@.to_set() == self@.point_materials.dom(),
    {
        self.point_materials.keys()
    }

    /// Returns the number of point materials in the scene.
    pub fn point_material_count(&self) -> (n: usize)
        ensures
            n == self@.point_materials.dom().len(),
    {
        self.point_materials.len()
    }

    /// Force-removes a point material from the scene by id, even while handles for it
    /// exist (they become inert).
    pub fn remove_point_material(&mut self, id: PointMaterialId)
        requires
            old(self)@.wf(),
        ensures
            final(self)@ == old(self)@.remove_resource(ResourceKind::PointMaterial, id),
            final(self)@.wf(),
    {
        self.remove_resource(ResourceKind::PointMaterial, id);
    }

    // ========== Texture API ==========

    /// Adds a texture to the scene, returning its owning handle. A texture already
    /// stored under the same id is replaced.
    pub fn add_texture(&mut self, texture: Texture) -> (handle: TextureHandle)
        requires
            old(self)@.wf(),
            old(self)@.ledger.clock < u64::MAX,
        ensures
            final(self)@ == old(self)@.add_texture(texture@),
            handle == old(self)@.added_texture(texture@),
            final(self)@.wf(),
    {
        let id: u64 = texture.id();
        self.textures.insert(id, texture);
        self.ledger.mint(id, ResourceKind::Texture)
    }

    /// An owning handle for an existing texture.
    pub fn texture_handle(&mut self, id: TextureId) -> (handle: Option<TextureHandle>)
        requires
            old(self)@.wf(),
            old(self)@.ledger.clock < u64::MAX,
        ensures
            handle == old(self)@.handle_of(ResourceKind::Texture, id),
            final(self)@ == old(self)@.take_handle(ResourceKind::Texture, id),
            final(self)@.wf(),
    {
        if self.textures.contains(id) {
            Some(self.ledger.mint(id, ResourceKind::Texture))
        } else {
            None
        }
    }

    /// Gets a reference to a texture by id.
    pub fn get_texture(&self, id: TextureId) -> (found: Option<&Texture>)
        ensures
            match found {
                Some(v) => self@.textures.contains_key(id) && v@ == self@.textures[id],
                None => !self@.textures.contains_key(id),
            },
    {
        self.textures.get(id)
    }

    /// Gets a mutable reference to a texture by id.
    pub fn get_texture_mut(&mut self, id: TextureId) -> (found: Option<&mut Texture>)
        ensures
            match found {
                Some(v) => old(self)@.textures.contains_key(id) && (*v)@ == old(self)@.textures[id]
                    && final(self)@ == (SceneModel {
                    textures: old(self)@.textures.insert(id, (*final(v))@),
                    ..old(self)@
                }),
                None => !old(self)@.textures.contains_key(id) && final(self)@ == old(self)@,
            },
    {
        self.textures.get_mut(id)
    }

    /// The ids of all textures, in no particular order.
    pub fn textures(&self) -> (ids: Vec<TextureId>)
        ensures
            ids@.no_duplicates(),
            ids@.to_set() == self@.textures.dom(),
    {
        self.textures.keys()
    }

    /// Returns the number of textures in the scene.
    pub fn texture_count(&self) -> (n: usize)
        ensures
            n == self@.textures.dom().len(),
    {
        self.textures.len()
    }

    // ========== Instance API ==========

    /// Adds an instance to the scene, returning its owning handle. An instance already
    /// stored under the same id is replaced.
    pub fn add_instance(&mut self, instance: Instance) -> (handle: InstanceHandle)
        requires
            old(self)@.wf(),
            old(self)@.ledger.clock < u64::MAX,
        ensures
            final(self)@ == old(self)@.add_instance(instance@),
            handle == old(self)@.added_instance(instance@),
            final(self)@.wf(),
    {
        let id: u64 = instance.id();
        let replaced = self.instances.insert(id, instance);
        if let Some(old_one) = replaced {
            release_instance(&mut self.ledger, old_one.into_parts());
        }
        self.ledger.mint(id, ResourceKind::Instance)
    }

    /// An owning handle for an existing instance.
    pub fn instance_handle(&mut self, id: InstanceId) -> (handle: Option<InstanceHandle>)
        requires
            old(self)@.wf(),
            old(self)@.ledger.clock < u64::MAX,
        ensures
            handle == old(self)@.handle_of(ResourceKind::Instance, id),
            final(self)@ == old(self)@.take_handle(ResourceKind::Instance, id),
            final(self)@.wf(),
    {
        if self.instances.contains(id) {
            Some(self.ledger.mint(id, ResourceKind::Instance))
        } else {
            None
        }
    }

    /// Gets a reference to an instance by id.
    pub fn get_instance(&self, id: InstanceId) -> (found: Option<&Instance>)
        ensures
            match found {
                Some(v) => self@.instances.contains_key(id) && v@ == self@.instances[id],
                None => !self@.instances.contains_key(id),
            },
    {
        self.instances.get(id)
    }

    /// Gets a mutable reference to an instance by id.
    pub fn get_instance_mut(&mut self, id: InstanceId) -> (found: Option<&mut Instance>)
        ensures
            match found {
                Some(v) => old(self)@.instances.contains_key(id) && (*v)@ == old(self)@.instances[id]
                    && final(self)@ == (SceneModel {
                    instances: old(self)@.instances.insert(id, (*final(v))@),
                    ..old(self)@
                }),
                None => !old(self)@.instances.contains_key(id) && final(self)@ == old(self)@,
            },
    {
        self.instances.get_mut(id)
    }

    /// The ids of all instances, in no particular order.
    pub fn instances(&self) -> (ids: Vec<InstanceId>)
        ensures
            ids@.no_duplicates(),
            ids@.to_set() == self@.instances.dom(),
    {
        self.instances.keys()
    }

    /// Returns the number of instances in the scene.
    pub fn instance_count(&self) -> (n: usize)
        ensures
            n == self@.instances.dom().len(),
    {
        self.instances.len()
    }

    /// Force-removes an instance from the scene by id, even while handles for it
    /// exist (they become inert).
    pub fn remove_instance(&mut self, id: InstanceId)
        requires
            old(self)@.wf(),
        ensures
            final(self)@ == old(self)@.remove_resource(ResourceKind::Instance, id),
            final(self)@.wf(),
    {
        self.remove_resource(ResourceKind::Instance, id);
    }

    // ========== Environment map API ==========

    /// Adds an environment map to the scene under its own id.
    pub fn add_environment_map(&mut self, env_map: EnvironmentMap) -> (id: EnvironmentMapId)
        requires
            old(self)@.wf(),
        ensures
            id == env_map@.id,
            final(self)@ == (SceneModel {
                environment_maps: old(self)@.environment_maps.insert(id, env_map@),
                ..old(self)@
            }),
            final(self)@.wf(),
    {
        let id: u64 = env_map.id();
        self.environment_maps.insert(id, env_map);
        id
    }

    /// Creates and adds an environment map from an equirectangular
    /// high-dynamic-range file, loaded when first rendered.
    pub fn add_environment_map_from_hdr_path(&mut self, id: EnvironmentMapId, path: String) -> (
        added: EnvironmentMapId)
        requires
            old(self)@.wf(),
        ensures
            added == id,
            final(self)@ == (SceneModel {
                environment_maps: old(self)@.environment_maps.insert(
                    id,
                    EnvironmentMapModel {
                        id,
                        generation: 1,
                        source: crate::resource::texture::EnvironmentSourceModel::HdrPath(path@),
                        intensity: crate::common::ONE,
                    },
                ),
                ..old(self)@
            }),
            final(self)@.wf(),
    {
        self.add_environment_map(EnvironmentMap::from_hdr_path(id, path))
    }

    /// Creates and adds an environment map from in-memory high-dynamic-range data.
    pub fn add_environment_map_from_hdr_data(&mut self, id: EnvironmentMapId, data: Vec<u8>) -> (
        added: EnvironmentMapId)
        requires
            old(self)@.wf(),
        ensures
            added == id,
            final(self)@ == (SceneModel {
                environment_maps: old(self)@.environment_maps.insert(
                    id,
                    EnvironmentMapModel {
                        id,
                        generation: 1,
                        source: crate::resource::texture::EnvironmentSourceModel::HdrData(data@),
                        intensity: crate::common::ONE,
                    },
                ),
                ..old(self)@
            }),
            final(self)@.wf(),
    {
        self.add_environment_map(EnvironmentMap::from_hdr_data(id, data))
    }

    /// Gets a reference to an environment map by id.
    pub fn get_environment_map(&self, id: EnvironmentMapId) -> (found: Option<&EnvironmentMap>)
        ensures
            match found {
                Some(v) => self@.environment_maps.contains_key(id) && v@
                    == self@.environment_maps[id],
                None => !self@.environment_maps.contains_key(id),
            },
    {
        self.environment_maps.get(id)
    }

    /// Gets a mutable reference to an environment map by id.
    pub fn get_environment_map_mut(&mut self, id: EnvironmentMapId) -> (found: Option<
        &mut EnvironmentMap,
    >)
        ensures
            match found {
                Some(v) => old(self)@.environment_maps.contains_key(id) && (*v)@
                    == old(self)@.environment_maps[id] && final(self)@ == (SceneModel {
                    environment_maps: old(self)@.environment_maps.insert(id, (*final(v))@),
                    ..old(self)@
                }),
                None => !old(self)@.environment_maps.contains_key(id) && final(self)@
                    == old(self)@,
            },
    {
        self.environment_maps.get_mut(id)
    }

    /// Sets an environment map's intensity. Does nothing if the id is unknown.
    pub fn set_environment_map_intensity(
        &mut self,
        id: EnvironmentMapId,
        intensity: crate::common::Scalar,
    )
        requires
            old(self)@.wf(),
            old(self)@.environment_maps.contains_key(id)
                ==> old(self)@.environment_maps[id].generation < u64::MAX,
        ensures
            final(self)@ == (if old(self)@.environment_maps.contains_key(id) {
                SceneModel {
                    environment_maps: old(self)@.environment_maps.insert(
                        id,
                        EnvironmentMapModel {
                            intensity,
                            generation: (old(self)@.environment_maps[id].generation + 1) as u64,
                            ..old(self)@.environment_maps[id]
                        },
                    ),
                    ..old(self)@
                }
            } else {
                old(self)@
            }),
            final(self)@.wf(),
    {
        if let Some(env) = self.environment_maps.get_mut(id) {
            env.set_intensity(intensity);
        }
    }

    /// The ids of all environment maps, in no particular order.
    pub fn environment_maps(&self) -> (ids: Vec<EnvironmentMapId>)
        ensures
            ids@.no_duplicates(),
            ids@.to_set() == self@.environment_maps.dom(),
    {
        self.environment_maps.keys()
    }

    /// Returns the number of environment maps in the scene.
    pub fn environment_map_count(&self) -> (n: usize)
        ensures
            n == self@.environment_maps.dom().len(),
    {
        self.environment_maps.len()
    }

    /// Returns true if the scene has any environment maps.
    pub fn has_environment_maps(&self) -> (yes: bool)
        ensures
            yes == (self@.environment_maps.dom() != Set::<u64>::empty()),
    {
        !self.environment_maps.is_empty()
    }

    /// Sets the active environment map. Pass `None` to disable image-based lighting.
    pub fn set_active_environment_map(&mut self, id: Option<EnvironmentMapId>)
        ensures
            final(self)@ == (SceneModel { active_environment_map: id, ..old(self)@ }),
    {
        self.active_environment_map = id;
    }

    /// Gets the currently active environment map id, if any.
    pub fn active_environment_map(&self) -> (id: Option<EnvironmentMapId>)
        ensures
            id == self@.active_environment_map,
    {
        self.active_environment_map
    }

    // ========== Active camera ==========

    /// Returns the node id of the active camera, if any.
    pub fn active_camera(&self) -> (id: Option<NodeId>)
        ensures
            id == self@.active_camera,
    {
        self.active_camera
    }

    /// Sets the active camera node. Pass `None` to clear.
    pub fn set_active_camera(&mut self, node_id: Option<NodeId>)
        ensures
            final(self)@ == (SceneModel { active_camera: node_id, ..old(self)@ }),
    {
        self.active_camera = node_id;
    }

    /// Returns the projection of the active camera node, or `None` if there is no
    /// active camera or the node does not carry a camera.
    pub fn active_camera_data(&self) -> (found: Option<CameraProjection>)
        ensures
            found == self@.active_camera_data(),
    {
        match self.active_camera {
            None => None,
            Some(id) => match self.nodes.get(id) {
                None => None,
                Some(node) => match &node.payload {
                    NodePayload::Camera(projection) => Some(*projection),
                    _ => None,
                },
            },
        }
    }

    /// Returns the current node generation counter, which grows with every node
    /// add, remove or mutation.
    pub fn node_generation(&self) -> (generation: u64)
        ensures
            generation == self@.node_generation,
    {
        self.node_generation
    }
}

} // verus!
