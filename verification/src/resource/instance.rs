//! Instances: a mesh drawn with materials.

use super::handle::{
    FaceMaterialHandle, FaceMaterialId, Handle, InstanceId, LineMaterialHandle, LineMaterialId,
    MeshHandle, MeshId, PointMaterialHandle, PointMaterialId, ResourceKind, SceneResource, Sealed,
};
use super::material::opt_seq;
use vstd::prelude::*;

verus! {

/// An instance referencing a mesh and up to one material per primitive kind.
///
/// A mesh may contain triangle, line and/or point primitives; each kind is shaded
/// by its own optional material slot. A slot left `None` means that primitive kind
/// is not drawn for this instance.
///
/// The references are owning handles: the mesh and materials stay in the scene
/// while this instance exists.
#[derive(Debug)]
pub struct Instance {
    held: InstanceParts,
}

/// What an [`Instance`] is made of.
#[derive(Debug)]
pub struct InstanceParts {
    pub id: InstanceId,
    pub mesh: MeshHandle,
    pub face_material: Option<FaceMaterialHandle>,
    pub line_material: Option<LineMaterialHandle>,
    pub point_material: Option<PointMaterialHandle>,
}

impl Sealed for Instance {

}

impl SceneResource for Instance {
    open spec fn kind_spec() -> ResourceKind {
        ResourceKind::Instance
    }

    fn kind() -> (kind: ResourceKind) {
        ResourceKind::Instance
    }
}

impl View for Instance {
    type V = InstanceParts;

    closed spec fn view(&self) -> InstanceParts {
        self.held
    }
}

/// The id behind an optional handle.
pub open spec fn opt_id(handle: Option<Handle>) -> Option<u64> {
    match handle {
        Some(h) => Some(h.id),
        None => None,
    }
}

/// The id behind an optional handle.
pub fn handle_id(handle: &Option<Handle>) -> (id: Option<u64>)
    ensures
        id == opt_id(*handle),
{
    match handle {
        Some(h) => Some(h.id),
        None => None,
    }
}

impl InstanceParts {
    /// The handles this instance owns.
    pub open spec fn handles(self) -> Seq<Handle> {
        seq![self.mesh] + opt_seq(self.face_material) + opt_seq(self.line_material) + opt_seq(
            self.point_material,
        )
    }

    /// An instance of a mesh with no materials assigned.
    pub open spec fn bare(id: InstanceId, mesh: MeshHandle) -> InstanceParts {
        InstanceParts {
            id,
            mesh,
            face_material: None,
            line_material: None,
            point_material: None,
        }
    }
}

impl Instance {
    /// Creates a new instance referencing the given mesh, with no materials
    /// assigned.
    pub fn new(id: InstanceId, mesh: MeshHandle) -> (instance: Self)
        ensures
            instance@ == InstanceParts::bare(id, mesh),
    {
        Instance {
            held: InstanceParts {
                id,
                mesh,
                face_material: None,
                line_material: None,
                point_material: None,
            },
        }
    }

    /// What this instance is made of.
    pub fn parts(&self) -> (parts: &InstanceParts)
        ensures
            *parts == self@,
    {
        &self.held
    }

    /// Takes this instance apart.
    pub(crate) fn into_parts(self) -> (parts: InstanceParts)
        ensures
            parts == self@,
    {
        self.held
    }

    /// Puts an instance together.
    pub(crate) fn from_parts(parts: InstanceParts) -> (instance: Self)
        ensures
            instance@ == parts,
    {
        Instance { held: parts }
    }

    /// The id of this instance.
    pub fn id(&self) -> (id: InstanceId)
        ensures
            id == self@.id,
    {
        self.held.id
    }

    /// Sets the face material of an instance that has none yet (chainable). One that has,
    /// with a handle that counts, takes another by
    /// [`set_face_material`](Instance::set_face_material), which hands the replaced handle
    /// back to be released.
    pub fn with_face_material(self, material: FaceMaterialHandle) -> (instance: Self)
        requires
            self@.face_material matches Some(h) ==> h.core is None,
        ensures
            instance@ == (InstanceParts { face_material: Some(material), ..self@ }),
    {
        Instance { held: InstanceParts { face_material: Some(material), ..self.held } }
    }

    /// Sets the line material of an instance that has none yet (chainable). One that has,
    /// with a handle that counts, takes another by
    /// [`set_line_material`](Instance::set_line_material), which hands the replaced handle
    /// back to be released.
    pub fn with_line_material(self, material: LineMaterialHandle) -> (instance: Self)
        requires
            self@.line_material matches Some(h) ==> h.core is None,
        ensures
            instance@ == (InstanceParts { line_material: Some(material), ..self@ }),
    {
        Instance { held: InstanceParts { line_material: Some(material), ..self.held } }
    }

    /// Sets the point material of an instance that has none yet (chainable). One that has,
    /// with a handle that counts, takes another by
    /// [`set_point_material`](Instance::set_point_material), which hands the replaced handle
    /// back to be released.
    pub fn with_point_material(self, material: PointMaterialHandle) -> (instance: Self)
        requires
            self@.point_material matches Some(h) ==> h.core is None,
        ensures
            instance@ == (InstanceParts { point_material: Some(material), ..self@ }),
    {
        Instance { held: InstanceParts { point_material: Some(material), ..self.held } }
    }

    /// The mesh referenced by this instance.
    pub fn mesh(&self) -> (id: MeshId)
        ensures
            id == self@.mesh.id,
    {
        self.held.mesh.id
    }

    /// The owning handle of the referenced mesh.
    pub fn mesh_handle(&self) -> (handle: &MeshHandle)
        ensures
            *handle == self@.mesh,
    {
        &self.held.mesh
    }

    /// The face material, if assigned.
    pub fn face_material(&self) -> (id: Option<FaceMaterialId>)
        ensures
            id == opt_id(self@.face_material),
    {
        handle_id(&self.held.face_material)
    }

    /// The owning handle of the face material, if assigned.
    pub fn face_material_handle(&self) -> (handle: Option<&FaceMaterialHandle>)
        ensures
            match handle {
                Some(h) => self@.face_material == Some(*h),
                None => self@.face_material is None,
            },
    {
        self.held.face_material.as_ref()
    }

    /// The line material, if assigned.
    pub fn line_material(&self) -> (id: Option<LineMaterialId>)
        ensures
            id == opt_id(self@.line_material),
    {
        handle_id(&self.held.line_material)
    }

    /// The owning handle of the line material, if assigned.
    pub fn line_material_handle(&self) -> (handle: Option<&LineMaterialHandle>)
        ensures
            match handle {
                Some(h) => self@.line_material == Some(*h),
                None => self@.line_material is None,
            },
    {
        self.held.line_material.as_ref()
    }

    /// The point material, if assigned.
    pub fn point_material(&self) -> (id: Option<PointMaterialId>)
        ensures
            id == opt_id(self@.point_material),
    {
        handle_id(&self.held.point_material)
    }

    /// The owning handle of the point material, if assigned.
    pub fn point_material_handle(&self) -> (handle: Option<&PointMaterialHandle>)
        ensures
            match handle {
                Some(h) => self@.point_material == Some(*h),
                None => self@.point_material is None,
            },
    {
        self.held.point_material.as_ref()
    }

    /// Replaces the referenced mesh, handing back the replaced handle.
    pub fn set_mesh(&mut self, mesh: MeshHandle) -> (replaced: MeshHandle)
        ensures
            replaced == old(self)@.mesh,
            final(self)@ == (InstanceParts { mesh, ..old(self)@ }),
    {
        let mut other = mesh;
        std::mem::swap(&mut self.held.mesh, &mut other);
        other
    }

    /// Sets or clears the face material, handing back the replaced handle.
    pub fn set_face_material(&mut self, material: Option<FaceMaterialHandle>) -> (replaced: Option<
        FaceMaterialHandle,
    >)
        ensures
            replaced == old(self)@.face_material,
            final(self)@ == (InstanceParts { face_material: material, ..old(self)@ }),
    {
        let mut other = material;
        std::mem::swap(&mut self.held.face_material, &mut other);
        other
    }

    /// Sets or clears the line material, handing back the replaced handle.
    pub fn set_line_material(&mut self, material: Option<LineMaterialHandle>) -> (replaced: Option<
        LineMaterialHandle,
    >)
        ensures
            replaced == old(self)@.line_material,
            final(self)@ == (InstanceParts { line_material: material, ..old(self)@ }),
    {
        let mut other = material;
        std::mem::swap(&mut self.held.line_material, &mut other);
        other
    }

    /// Sets or clears the point material, handing back the replaced handle.
    pub fn set_point_material(&mut self, material: Option<PointMaterialHandle>) -> (replaced:
        Option<PointMaterialHandle>)
        ensures
            replaced == old(self)@.point_material,
            final(self)@ == (InstanceParts { point_material: material, ..old(self)@ }),
    {
        let mut other = material;
        std::mem::swap(&mut self.held.point_material, &mut other);
        other
    }
}

} // verus!
