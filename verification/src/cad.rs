//! Turning tessellated CAD shapes into scene geometry.
//!
//! A boundary-representation shape becomes a mesh with triangle faces and, optionally,
//! wireframe edges and vertices, carrying the sub-geometry topology used for picking
//! faces, edges and points. The modeling kernel produces the points; what is done with
//! them is decided here.
//!
//! Shapes are classified as solid bodies or free geometry (sketches, construction
//! curves), and [`CadTessellationOptions`] can style the two classes differently.

pub mod laws;
pub mod nodes;
pub mod tessellation;
use crate::common::{RgbaColor, Scalar, ONE};
use crate::resource::handle::{FaceMaterialId, LineMaterialId};
use crate::resource::material::{
    FaceMaterial, FaceMaterialParts, LineMaterial, LineMaterialParts,
};
use vstd::prelude::*;

verus! {

/// Whether a shape bounds a volume, or is free geometry that does not.
///
/// Free geometry (loose vertices, edges, wires, and faces) is what CAD applications draw
/// as sketches or construction curves, and is conventionally given a distinct appearance
/// from bodies.
#[derive(Debug, Clone, Copy, PartialEq, Eq, Structural)]
pub enum GeometryClass {
    /// The shape bounds a volume, or is a surface body (shell).
    Solid,
    /// The shape bounds no volume: vertices, edges, wires, and lone faces.
    Free,
}

/// The kinds of shapes that the modeling kernel tells apart.
#[derive(Debug, Clone, Copy, PartialEq, Eq, Structural)]
pub enum ShapeType {
    Vertex,
    Edge,
    Wire,
    Face,
    Shell,
    Solid,
    CompoundSolid,
    Compound,
    Shape,
}

impl ShapeType {
    /// Whether shapes of this kind are made of other shapes, whatever those are.
    pub open spec fn is_container(self) -> bool {
        self == ShapeType::Compound || self == ShapeType::Shape
    }

    /// Whether shapes of this kind bound a volume or are surface bodies.
    pub open spec fn is_body(self) -> bool {
        self == ShapeType::Solid || self == ShapeType::CompoundSolid || self == ShapeType::Shell
    }
}

/// The class of a shape of a kind that contains solids or shells as said.
pub open spec fn class_of(
    kind: ShapeType,
    contains_solid: bool,
    contains_shell: bool,
) -> GeometryClass {
    if kind.is_body() || kind.is_container() && (contains_solid || contains_shell) {
        GeometryClass::Solid
    } else {
        GeometryClass::Free
    }
}

/// Classifies a shape by whether it bounds a volume. A container (compound) is free
/// geometry only if nothing inside it bounds a volume.
pub fn classify_shape(kind: ShapeType, contains_solid: bool, contains_shell: bool) -> (class:
    GeometryClass)
    ensures
        class == class_of(kind, contains_solid, contains_shell),
{
    match kind {
        ShapeType::Solid | ShapeType::CompoundSolid | ShapeType::Shell => GeometryClass::Solid,
        ShapeType::Vertex | ShapeType::Edge | ShapeType::Wire | ShapeType::Face => {
            GeometryClass::Free
        },
        ShapeType::Compound | ShapeType::Shape => {
            if contains_solid || contains_shell {
                GeometryClass::Solid
            } else {
                GeometryClass::Free
            }
        },
    }
}

/// The bit pattern of the double-precision number `0.01`.
pub const DEFAULT_TOLERANCE: u64 = 0x3f84_7ae1_47ae_147b;

/// The bit pattern of `0.8`.
pub const DEFAULT_FACE_GRAY: u32 = 0x3f4c_cccd;

/// The bit pattern of `0.15`.
pub const DEFAULT_LINE_GRAY: u32 = 0x3e19_999a;

/// Options controlling tessellation and presentation when producing scene geometry from
/// CAD data.
#[derive(Debug)]
pub struct CadTessellationOptions {
    /// Tolerance of the tessellation, as the bit pattern of a double-precision number.
    /// Lower values produce finer meshes.
    pub tessellation_tolerance: u64,
    /// Uniform scale applied to all vertex positions.
    pub scale_factor: Scalar,
    /// Material applied to triangle faces. Acts as a template: each tessellated part
    /// receives a copy with a fresh id.
    pub face_material: FaceMaterial,
    /// Material applied to wireframe edges. Acts as a template: each tessellated part
    /// receives a copy with a fresh id.
    pub line_material: LineMaterial,
    /// Face material for free geometry. Falls back to `face_material` when unset.
    pub free_face_material: Option<FaceMaterial>,
    /// Line material for free geometry. Falls back to `line_material` when unset.
    pub free_line_material: Option<LineMaterial>,
    /// Whether to add wireframe edges as lines.
    pub include_edges: bool,
    /// Whether to add vertices as points. Points are not drawn unless the instance
    /// carries a point material, but they are required for picking points.
    pub include_points: bool,
}

impl CadTessellationOptions {
    /// The options in use when nothing is said, with templates under the given ids.
    pub fn new(face_id: FaceMaterialId, line_id: LineMaterialId) -> (options: Self)
        ensures
            options.tessellation_tolerance == DEFAULT_TOLERANCE,
            options.scale_factor == ONE,
            options.face_material@ == (FaceMaterialParts {
                base_color_factor: gray(DEFAULT_FACE_GRAY),
                ..FaceMaterialParts::blank(face_id)
            }),
            options.line_material@ == LineMaterialParts::colored(
                line_id,
                gray(DEFAULT_LINE_GRAY),
            ),
            options.free_face_material is None,
            options.free_line_material is None,
            options.include_edges,
            options.include_points,
    {
        let face = FaceMaterial::new(face_id);
        CadTessellationOptions {
            tessellation_tolerance: DEFAULT_TOLERANCE,
            scale_factor: ONE,
            face_material: face.with_base_color_factor(
                RgbaColor {
                    r: DEFAULT_FACE_GRAY,
                    g: DEFAULT_FACE_GRAY,
                    b: DEFAULT_FACE_GRAY,
                    a: ONE,
                },
            ),
            line_material: LineMaterial::new(
                line_id,
                RgbaColor {
                    r: DEFAULT_LINE_GRAY,
                    g: DEFAULT_LINE_GRAY,
                    b: DEFAULT_LINE_GRAY,
                    a: ONE,
                },
            ),
            free_face_material: None,
            free_line_material: None,
            include_edges: true,
            include_points: true,
        }
    }

    /// The face template for a class of shapes.
    pub open spec fn face_template(self, class: GeometryClass) -> FaceMaterialParts {
        match (class, self.free_face_material) {
            (GeometryClass::Free, Some(material)) => material@,
            _ => self.face_material@,
        }
    }

    /// The line template for a class of shapes.
    pub open spec fn line_template(self, class: GeometryClass) -> LineMaterialParts {
        match (class, self.free_line_material) {
            (GeometryClass::Free, Some(material)) => material@,
            _ => self.line_material@,
        }
    }

    /// The face and line templates that apply to a class of shapes.
    pub fn materials_for(&self, class: GeometryClass) -> (templates: (&FaceMaterial, &LineMaterial))
        ensures
            templates.0@ == self.face_template(class),
            templates.1@ == self.line_template(class),
    {
        match class {
            GeometryClass::Solid => (&self.face_material, &self.line_material),
            GeometryClass::Free => (
                match &self.free_face_material {
                    Some(material) => material,
                    None => &self.face_material,
                },
                match &self.free_line_material {
                    Some(material) => material,
                    None => &self.line_material,
                },
            ),
        }
    }
}

/// An opaque gray.
pub open spec fn gray(level: Scalar) -> RgbaColor {
    RgbaColor { r: level, g: level, b: level, a: ONE }
}

/// Shapes of both classes look the same while no template for free geometry is set.
pub proof fn unset_free_materials_fall_back(options: CadTessellationOptions, class: GeometryClass)
    ensures
        options.free_face_material is None ==> options.face_template(class)
            == options.face_material@,
        options.free_line_material is None ==> options.line_template(class)
            == options.line_material@,
        options.face_template(GeometryClass::Solid) == options.face_material@,
        options.line_template(GeometryClass::Solid) == options.line_material@,
{
}

/// A shape is solid if it is a body, or a container of any; a face, a wire, an edge or a
/// vertex is free, whatever it is said to contain.
pub proof fn solids_are_what_bounds_a_volume(kind: ShapeType, solids: bool, shells: bool)
    ensures
        kind is Solid || kind is CompoundSolid || kind is Shell ==> class_of(kind, solids, shells)
            == GeometryClass::Solid,
        kind is Vertex || kind is Edge || kind is Wire || kind is Face ==> class_of(
            kind,
            solids,
            shells,
        ) == GeometryClass::Free,
        kind is Compound || kind is Shape ==> (class_of(kind, solids, shells)
            == GeometryClass::Free <==> !solids && !shells),
{
}

/// Free shapes look as the templates for free geometry say, where these are set.
pub proof fn free_materials_are_for_free_geometry(options: CadTessellationOptions)
    ensures
        options.free_face_material matches Some(material) ==> options.face_template(
            GeometryClass::Free,
        ) == material@,
        options.free_line_material matches Some(material) ==> options.line_template(
            GeometryClass::Free,
        ) == material@,
{
}

} // verus!
