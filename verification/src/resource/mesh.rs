//! Meshes: vertices, index lists per primitive kind, and sub-geometry topology.
//!
//! A mesh keeps the spatial index over its primitives that was last built, together with
//! the generation it was built at. A change to the mesh starts a new generation, and an index
//! of an older one is never handed out.

use super::handle::{MeshId, ResourceKind, SceneResource, Sealed};
use crate::common::{Aabb, Point3, Vector3};
use crate::geom_query::bvh::BoxMath;
use crate::geom_query::spatial_index::MeshSpatialIndex;
use crate::initial_generation;
use crate::numeric::{definite1, value1};
use vstd::prelude::*;

verus! {

/// What the indices of a primitive list describe.
#[derive(Debug, Clone, Copy, PartialEq, Eq, Hash, Structural)]
pub enum PrimitiveType {
    TriangleList,
    LineList,
    PointList,
}

impl PrimitiveType {
    /// How many indices make up one primitive.
    pub open spec fn stride(self) -> u32 {
        match self {
            PrimitiveType::TriangleList => 3,
            PrimitiveType::LineList => 2,
            PrimitiveType::PointList => 1,
        }
    }

    /// How many indices make up one primitive.
    pub fn indices_per_primitive(self) -> (n: u32)
        ensures
            n == self.stride(),
            1 <= n <= 3,
    {
        match self {
            PrimitiveType::TriangleList => 3,
            PrimitiveType::LineList => 2,
            PrimitiveType::PointList => 1,
        }
    }

    /// The position of this kind in drawing order: triangles, lines, points.
    pub open spec fn rank(self) -> int {
        match self {
            PrimitiveType::TriangleList => 0,
            PrimitiveType::LineList => 1,
            PrimitiveType::PointList => 2,
        }
    }
}

/// One vertex.
#[derive(Debug, Clone, Copy, PartialEq, Eq, Structural)]
pub struct Vertex {
    pub position: Point3,
    pub tex_coords: Vector3,
    pub normal: Vector3,
}

/// A list of indices of one primitive kind.
#[derive(Debug)]
pub struct MeshPrimitive {
    pub primitive_type: PrimitiveType,
    pub indices: Vec<u32>,
}

/// What a [`MeshPrimitive`] holds.
#[verifier::ext_equal]
pub struct MeshPrimitiveModel {
    pub primitive_type: PrimitiveType,
    pub indices: Seq<u32>,
}

impl View for MeshPrimitive {
    type V = MeshPrimitiveModel;

    open spec fn view(&self) -> MeshPrimitiveModel {
        MeshPrimitiveModel { primitive_type: self.primitive_type, indices: self.indices@ }
    }
}

impl MeshPrimitive {
    /// A copy of this list.
    pub fn copy(&self) -> (copy: Self)
        ensures
            copy@ == self@,
    {
        MeshPrimitive { primitive_type: self.primitive_type, indices: copy_indices(&self.indices) }
    }
}

/// A copy of a list of integers.
pub fn copy_indices(source: &Vec<u32>) -> (copy: Vec<u32>)
    ensures
        copy@ == source@,
{
    let mut copy: Vec<u32> = Vec::new();
    let mut i: usize = 0;
    while i < source.len()
        invariant
            i <= source.len(),
            copy@ == source@.take(i as int),
        decreases source.len() - i,
    {
        copy.push(source[i]);
        i = i + 1;
        assert(source@.take(i as int) =~= source@.take(i - 1).push(source@[i - 1]));
    }
    assert(source@.take(i as int) =~= source@);
    copy
}

/// A run of primitives: `count` of them, from the `start`-th on.
#[derive(Debug, Clone, Copy, PartialEq, Eq, Structural)]
pub struct SubMeshRange {
    pub start: u32,
    pub count: u32,
}

/// The kinds of sub-geometry that can be addressed within a mesh.
#[derive(Debug, Clone, Copy, PartialEq, Eq, Hash, Structural)]
pub enum SubGeometryKind {
    Face,
    Edge,
    Point,
}

impl SubGeometryKind {
    /// The primitive kind whose ranges this sub-geometry is made of.
    pub open spec fn primitive(self) -> PrimitiveType {
        match self {
            SubGeometryKind::Face => PrimitiveType::TriangleList,
            SubGeometryKind::Edge => PrimitiveType::LineList,
            SubGeometryKind::Point => PrimitiveType::PointList,
        }
    }

    /// The primitive kind whose ranges this sub-geometry is made of.
    pub fn primitive_type(self) -> (primitive: PrimitiveType)
        ensures
            primitive == self.primitive(),
    {
        match self {
            SubGeometryKind::Face => PrimitiveType::TriangleList,
            SubGeometryKind::Edge => PrimitiveType::LineList,
            SubGeometryKind::Point => PrimitiveType::PointList,
        }
    }
}

/// One element of a mesh's sub-geometry.
#[derive(Debug, Clone, Copy, PartialEq, Eq, Hash, Structural)]
pub struct SubGeometryElement {
    pub kind: SubGeometryKind,
    pub index: u32,
}

/// Which primitives make up each face, edge and point set of a mesh.
#[derive(Debug)]
pub struct Topology {
    pub face_ranges: Vec<SubMeshRange>,
    pub edge_ranges: Vec<SubMeshRange>,
    pub pointset_ranges: Vec<SubMeshRange>,
}

/// What a [`Topology`] holds.
#[verifier::ext_equal]
pub struct TopologyModel {
    pub face_ranges: Seq<SubMeshRange>,
    pub edge_ranges: Seq<SubMeshRange>,
    pub pointset_ranges: Seq<SubMeshRange>,
}

impl View for Topology {
    type V = TopologyModel;

    open spec fn view(&self) -> TopologyModel {
        TopologyModel {
            face_ranges: self.face_ranges@,
            edge_ranges: self.edge_ranges@,
            pointset_ranges: self.pointset_ranges@,
        }
    }
}

impl TopologyModel {
    /// The ranges of one kind of sub-geometry.
    pub open spec fn ranges(self, kind: SubGeometryKind) -> Seq<SubMeshRange> {
        match kind {
            SubGeometryKind::Face => self.face_ranges,
            SubGeometryKind::Edge => self.edge_ranges,
            SubGeometryKind::Point => self.pointset_ranges,
        }
    }
}

/// A copy of a list of ranges.
fn copy_ranges(source: &Vec<SubMeshRange>) -> (copy: Vec<SubMeshRange>)
    ensures
        copy@ == source@,
{
    let mut copy: Vec<SubMeshRange> = Vec::new();
    let mut i: usize = 0;
    while i < source.len()
        invariant
            i <= source.len(),
            copy@ == source@.take(i as int),
        decreases source.len() - i,
    {
        copy.push(source[i]);
        i = i + 1;
        assert(source@.take(i as int) =~= source@.take(i - 1).push(source@[i - 1]));
    }
    assert(source@.take(i as int) =~= source@);
    copy
}

impl Topology {
    /// The ranges of one kind of sub-geometry.
    pub fn ranges(&self, kind: SubGeometryKind) -> (ranges: &Vec<SubMeshRange>)
        ensures
            ranges@ == self@.ranges(kind),
    {
        match kind {
            SubGeometryKind::Face => &self.face_ranges,
            SubGeometryKind::Edge => &self.edge_ranges,
            SubGeometryKind::Point => &self.pointset_ranges,
        }
    }

    /// A copy of this topology.
    pub fn copy(&self) -> (copy: Self)
        ensures
            copy@ == self@,
    {
        Topology {
            face_ranges: copy_ranges(&self.face_ranges),
            edge_ranges: copy_ranges(&self.edge_ranges),
            pointset_ranges: copy_ranges(&self.pointset_ranges),
        }
    }
}

/// Shared geometry.
#[derive(Debug)]
pub struct Mesh {
    id: MeshId,
    /// Grows with every change, so that mirrored copies know when to follow.
    generation: u64,
    vertices: Vec<Vertex>,
    primitives: Vec<MeshPrimitive>,
    topology: Option<Topology>,
    /// The box around all vertices; `None` for a mesh without vertices.
    bounds: Option<Aabb>,
    /// The index that was built last, and the generation it was built at.
    index: Option<(u64, MeshSpatialIndex)>,
}

/// What a [`Mesh`] holds.
#[verifier::ext_equal]
pub struct MeshModel {
    pub id: MeshId,
    pub generation: u64,
    pub vertices: Seq<Vertex>,
    pub primitives: Seq<MeshPrimitiveModel>,
    pub topology: Option<TopologyModel>,
    pub bounds: Option<Aabb>,
}

impl Sealed for Mesh {

}

impl SceneResource for Mesh {
    open spec fn kind_spec() -> ResourceKind {
        ResourceKind::Mesh
    }

    fn kind() -> (kind: ResourceKind) {
        ResourceKind::Mesh
    }
}

/// The views of a list of primitives.
pub open spec fn primitive_views(primitives: Seq<MeshPrimitive>) -> Seq<MeshPrimitiveModel> {
    primitives.map_values(|p: MeshPrimitive| p@)
}

impl View for Mesh {
    type V = MeshModel;

    closed spec fn view(&self) -> MeshModel {
        MeshModel {
            id: self.id,
            generation: self.generation,
            vertices: self.vertices@,
            primitives: primitive_views(self.primitives@),
            topology: match self.topology {
                Some(t) => Some(t@),
                None => None,
            },
            bounds: self.bounds,
        }
    }
}

impl MeshModel {
    /// Whether some primitive list is of the given kind.
    pub open spec fn has_primitive(self, kind: PrimitiveType) -> bool {
        exists|i: int|
            0 <= i < self.primitives.len() && (#[trigger] self.primitives[i]).primitive_type
                == kind
    }

    /// The number of indices in all primitive lists of the given kind.
    pub open spec fn index_total(self, kind: PrimitiveType) -> nat {
        index_total_upto(self.primitives, kind, self.primitives.len() as int)
    }
}

/// The number of indices in the first `n` lists, of those of the given kind.
pub open spec fn index_total_upto(
    primitives: Seq<MeshPrimitiveModel>,
    kind: PrimitiveType,
    n: int,
) -> nat
    decreases n,
{
    if n <= 0 {
        0
    } else {
        index_total_upto(primitives, kind, n - 1) + if primitives[n - 1].primitive_type == kind {
            primitives[n - 1].indices.len()
        } else {
            0
        }
    }
}

proof fn lemma_index_total_monotonic(
    primitives: Seq<MeshPrimitiveModel>,
    kind: PrimitiveType,
    m: int,
    n: int,
)
    requires
        m <= n,
    ensures
        index_total_upto(primitives, kind, m) <= index_total_upto(primitives, kind, n),
    decreases n - m,
{
    if m < n {
        lemma_index_total_monotonic(primitives, kind, m, n - 1);
    }
}

impl Mesh {
    /// A mesh of the given vertices and primitive lists, with the box around the
    /// vertices.
    pub fn from_raw(
        id: MeshId,
        vertices: Vec<Vertex>,
        primitives: Vec<MeshPrimitive>,
        bounds: Option<Aabb>,
    ) -> (mesh: Self)
        ensures
            mesh@ == (MeshModel {
                id,
                generation: 1,
                vertices: vertices@,
                primitives: primitive_views(primitives@),
                topology: None,
                bounds,
            }),
            mesh.kept_index() is None,
    {
        Mesh {
            id,
            generation: initial_generation(),
            vertices,
            primitives,
            topology: None,
            bounds,
            index: None,
        }
    }

    /// An index that is kept is not from a later generation, and one of this generation
    /// is over the primitives as they are.
    #[verifier::type_invariant]
    spec fn index_is_right(self) -> bool {
        self.index matches Some(kept) ==> kept.0 <= self.generation && (kept.0 == self.generation
            ==> kept.1.fits(self@))
    }

    /// The spatial index that is kept, unless the mesh was changed since.
    pub closed spec fn kept_index(self) -> Option<MeshSpatialIndex> {
        match self.index {
            Some(kept) => if kept.0 == self.generation {
                Some(kept.1)
            } else {
                None
            },
            None => None,
        }
    }

    /// Sets the sub-geometry topology.
    pub fn set_topology(&mut self, topology: Topology)
        requires
            old(self)@.generation < u64::MAX,
        ensures
            final(self)@ == (MeshModel {
                topology: Some(topology@),
                generation: (old(self)@.generation + 1) as u64,
                ..old(self)@
            }),
            final(self).kept_index() is None,
    {
        proof {
            use_type_invariant(&*self);
        }
        self.generation = self.generation + 1;
        self.topology = Some(topology);
    }

    /// Replaces the vertices, with the box around them.
    pub fn set_vertices(&mut self, vertices: Vec<Vertex>, bounds: Option<Aabb>)
        requires
            old(self)@.generation < u64::MAX,
        ensures
            final(self)@ == (MeshModel {
                vertices: vertices@,
                bounds,
                generation: (old(self)@.generation + 1) as u64,
                ..old(self)@
            }),
            final(self).kept_index() is None,
    {
        proof {
            use_type_invariant(&*self);
        }
        self.generation = self.generation + 1;
        self.vertices = vertices;
        self.bounds = bounds;
    }

    /// Sees to it that a spatial index over the primitives is kept. One that is kept
    /// already stays; otherwise it is built, and what was built for an older generation
    /// goes.
    pub fn index_primitives<
        T: Fn(Triangle) -> Aabb,
        G: Fn(Segment) -> Aabb,
        M: Fn(Aabb, Aabb) -> Aabb,
        C: Fn(Aabb) -> Point3,
        X: Fn(Aabb, Point3) -> Aabb,
        S: Fn(Aabb) -> Vector3,
    >(&mut self, wrap_triangle: &T, wrap_segment: &G, math: &BoxMath<M, C, X, S>)
        requires
            old(self)@.indices_valid(),
            old(self)@.triangle_count() <= u32::MAX,
            old(self)@.segment_count() <= u32::MAX,
            definite1(*wrap_triangle),
            definite1(*wrap_segment),
            math.definite(),
        ensures
            final(self)@ == old(self)@,
            match old(self).kept_index() {
                Some(kept) => final(self).kept_index() == Some(kept),
                None => final(self).kept_index() matches Some(built) && built.indexes(
                    final(self)@,
                    value1(*wrap_triangle),
                    value1(*wrap_segment),
                    math.model(),
                ),
            },
            final(self).kept_index() matches Some(index) && index.fits(final(self)@),
    {
        proof {
            use_type_invariant(&*self);
        }
        let current = match &self.index {
            Some(kept) => kept.0 == self.generation,
            None => false,
        };
        if !current {
            let built = MeshSpatialIndex::build(&*self, wrap_triangle, wrap_segment, math);
            self.index = Some((self.generation, built));
        }
    }

    /// The spatial index over the primitives, if one was built since the mesh last
    /// changed.
    pub fn spatial_index(&self) -> (index: Option<&MeshSpatialIndex>)
        ensures
            match index {
                Some(found) => self.kept_index() == Some(*found) && found.fits(self@),
                None => self.kept_index() is None,
            },
    {
        proof {
            use_type_invariant(self);
        }
        match &self.index {
            Some(kept) => if kept.0 == self.generation {
                Some(&kept.1)
            } else {
                None
            },
            None => None,
        }
    }

    /// The id of this mesh.
    pub fn id(&self) -> (id: MeshId)
        ensures
            id == self@.id,
    {
        self.id
    }

    /// The vertices.
    pub fn vertices(&self) -> (vertices: &Vec<Vertex>)
        ensures
            vertices@ == self@.vertices,
    {
        &self.vertices
    }

    /// The primitive lists.
    pub fn primitives(&self) -> (primitives: &Vec<MeshPrimitive>)
        ensures
            primitive_views(primitives@) == self@.primitives,
    {
        &self.primitives
    }

    /// Counts changes to this mesh.
    pub fn generation(&self) -> (generation: u64)
        ensures
            generation == self@.generation,
    {
        self.generation
    }

    /// The box around all vertices.
    pub fn bounding(&self) -> (bounds: Option<Aabb>)
        ensures
            bounds == self@.bounds,
    {
        self.bounds
    }

    /// The sub-geometry topology, where there is one.
    pub fn topology(&self) -> (topology: Option<&Topology>)
        ensures
            match topology {
                Some(t) => self@.topology == Some(t@),
                None => self@.topology is None,
            },
    {
        self.topology.as_ref()
    }

    /// Whether some primitive list is of the given kind.
    pub fn has_primitive_type(&self, kind: PrimitiveType) -> (yes: bool)
        ensures
            yes == self@.has_primitive(kind),
    {
        let mut i: usize = 0;
        while i < self.primitives.len()
            invariant
                i <= self.primitives.len(),
                forall|j: int| 0 <= j < i ==> (#[trigger] self@.primitives[j]).primitive_type
                    != kind,
            decreases self.primitives.len() - i,
        {
            if self.primitives[i].primitive_type == kind {
                assert(self@.primitives[i as int].primitive_type == kind);
                return true;
            }
            i = i + 1;
        }
        false
    }

    /// The number of indices in all primitive lists of the given kind.
    pub fn index_count(&self, kind: PrimitiveType) -> (n: u32)
        requires
            self@.index_total(kind) <= u32::MAX,
        ensures
            n == self@.index_total(kind),
    {
        let mut n: u32 = 0;
        let mut i: usize = 0;
        while i < self.primitives.len()
            invariant
                i <= self.primitives.len(),
                n == index_total_upto(self@.primitives, kind, i as int),
                self@.index_total(kind) <= u32::MAX,
            decreases self.primitives.len() - i,
        {
            proof {
                lemma_index_total_monotonic(
                    self@.primitives,
                    kind,
                    i + 1,
                    self@.primitives.len() as int,
                );
            }
            if self.primitives[i].primitive_type == kind {
                n = n + self.primitives[i].indices.len() as u32;
            }
            i = i + 1;
        }
        n
    }

    /// A copy of this mesh, under the same id, with no spatial index kept.
    pub fn copy(&self) -> (copy: Self)
        ensures
            copy@ == self@,
            copy.kept_index() is None,
    {
        let mut vertices: Vec<Vertex> = Vec::new();
        let mut i: usize = 0;
        while i < self.vertices.len()
            invariant
                i <= self.vertices.len(),
                vertices@ == self.vertices@.take(i as int),
            decreases self.vertices.len() - i,
        {
            vertices.push(self.vertices[i]);
            i = i + 1;
            assert(self.vertices@.take(i as int) =~= self.vertices@.take(i - 1).push(
                self.vertices@[i - 1],
            ));
        }
        assert(self.vertices@.take(i as int) =~= self.vertices@);
        let mut primitives: Vec<MeshPrimitive> = Vec::new();
        let mut j: usize = 0;
        while j < self.primitives.len()
            invariant
                j <= self.primitives.len(),
                primitives.len() == j,
                forall|k: int| 0 <= k < j ==> (#[trigger] primitives@[k])@ == self.primitives@[k]@,
            decreases self.primitives.len() - j,
        {
            primitives.push(self.primitives[j].copy());
            j = j + 1;
        }
        assert(primitive_views(primitives@) =~= primitive_views(self.primitives@));
        let topology = match &self.topology {
            Some(t) => Some(t.copy()),
            None => None,
        };
        Mesh {
            id: self.id,
            generation: self.generation,
            vertices,
            primitives,
            topology,
            bounds: self.bounds,
            index: None,
        }
    }
}

/// The corners of a triangle.
#[derive(Debug, Clone, Copy, PartialEq, Eq, Structural)]
pub struct Triangle {
    pub a: Point3,
    pub b: Point3,
    pub c: Point3,
}

/// The ends of a line segment.
#[derive(Debug, Clone, Copy, PartialEq, Eq, Structural)]
pub struct Segment {
    pub a: Point3,
    pub b: Point3,
}

/// How many triangles the first `n` lists describe.
pub open spec fn triangle_total(primitives: Seq<MeshPrimitiveModel>, n: int) -> nat
    decreases n,
{
    if n <= 0 {
        0
    } else {
        triangle_total(primitives, n - 1) + list_triangles(primitives[n - 1])
    }
}

/// How many triangles a list describes.
pub open spec fn list_triangles(list: MeshPrimitiveModel) -> nat {
    if list.primitive_type == PrimitiveType::TriangleList {
        list.indices.len() / 3
    } else {
        0
    }
}

/// How many segments the first `n` lists describe.
pub open spec fn segment_total(primitives: Seq<MeshPrimitiveModel>, n: int) -> nat
    decreases n,
{
    if n <= 0 {
        0
    } else {
        segment_total(primitives, n - 1) + list_segments(primitives[n - 1])
    }
}

/// How many segments a list describes.
pub open spec fn list_segments(list: MeshPrimitiveModel) -> nat {
    if list.primitive_type == PrimitiveType::LineList {
        list.indices.len() / 2
    } else {
        0
    }
}

impl MeshModel {
    /// Whether every index names a vertex.
    pub open spec fn indices_valid(self) -> bool {
        forall|i: int, j: int|
            0 <= i < self.primitives.len() && 0 <= j < self.primitives[i].indices.len()
                ==> (#[trigger] self.primitives[i].indices[j]) < self.vertices.len()
    }

    /// The corner that an entry of a list names.
    pub open spec fn corner(self, list: int, entry: int) -> Point3 {
        self.vertices[self.primitives[list].indices[entry] as int].position
    }

    /// The `k`-th triangle, counting through the triangle lists in order, from list
    /// `from` on.
    pub open spec fn triangle_from(self, from: int, k: int) -> Option<Triangle>
        decreases self.primitives.len() - from,
    {
        if from < 0 || from >= self.primitives.len() {
            None
        } else if k < list_triangles(self.primitives[from]) {
            Some(
                Triangle {
                    a: self.corner(from, 3 * k),
                    b: self.corner(from, 3 * k + 1),
                    c: self.corner(from, 3 * k + 2),
                },
            )
        } else {
            self.triangle_from(from + 1, k - list_triangles(self.primitives[from]))
        }
    }

    /// The `k`-th segment, counting through the line lists in order, from list `from`
    /// on.
    pub open spec fn segment_from(self, from: int, k: int) -> Option<Segment>
        decreases self.primitives.len() - from,
    {
        if from < 0 || from >= self.primitives.len() {
            None
        } else if k < list_segments(self.primitives[from]) {
            Some(Segment { a: self.corner(from, 2 * k), b: self.corner(from, 2 * k + 1) })
        } else {
            self.segment_from(from + 1, k - list_segments(self.primitives[from]))
        }
    }

    /// The `k`-th triangle.
    pub open spec fn triangle(self, k: nat) -> Option<Triangle> {
        self.triangle_from(0, k as int)
    }

    /// The `k`-th segment.
    pub open spec fn segment(self, k: nat) -> Option<Segment> {
        self.segment_from(0, k as int)
    }

    /// How many triangles there are.
    pub open spec fn triangle_count(self) -> nat {
        triangle_total(self.primitives, self.primitives.len() as int)
    }

    /// How many segments there are.
    pub open spec fn segment_count(self) -> nat {
        segment_total(self.primitives, self.primitives.len() as int)
    }
}

proof fn lemma_triangle_total_from(m: MeshModel, from: int, k: int)
    requires
        0 <= from <= m.primitives.len(),
        0 <= k,
    ensures
        m.triangle_from(from, k) is Some <==> k < m.triangle_count() - triangle_total(
            m.primitives,
            from,
        ),
    decreases m.primitives.len() - from,
{
    if from < m.primitives.len() {
        let here = list_triangles(m.primitives[from]);
        assert(triangle_total(m.primitives, from + 1) == triangle_total(m.primitives, from) + here);
        lemma_triangle_total_monotonic(m.primitives, from + 1, m.primitives.len() as int);
        if k >= here {
            lemma_triangle_total_from(m, from + 1, k - here);
        }
    }
}

proof fn lemma_triangle_total_monotonic(primitives: Seq<MeshPrimitiveModel>, a: int, b: int)
    requires
        a <= b,
    ensures
        triangle_total(primitives, a) <= triangle_total(primitives, b),
    decreases b - a,
{
    if a < b {
        lemma_triangle_total_monotonic(primitives, a, b - 1);
    }
}

proof fn lemma_segment_total_from(m: MeshModel, from: int, k: int)
    requires
        0 <= from <= m.primitives.len(),
        0 <= k,
    ensures
        m.segment_from(from, k) is Some <==> k < m.segment_count() - segment_total(
            m.primitives,
            from,
        ),
    decreases m.primitives.len() - from,
{
    if from < m.primitives.len() {
        let here = list_segments(m.primitives[from]);
        assert(segment_total(m.primitives, from + 1) == segment_total(m.primitives, from) + here);
        lemma_segment_total_monotonic(m.primitives, from + 1, m.primitives.len() as int);
        if k >= here {
            lemma_segment_total_from(m, from + 1, k - here);
        }
    }
}

proof fn lemma_segment_total_monotonic(primitives: Seq<MeshPrimitiveModel>, a: int, b: int)
    requires
        a <= b,
    ensures
        segment_total(primitives, a) <= segment_total(primitives, b),
    decreases b - a,
{
    if a < b {
        lemma_segment_total_monotonic(primitives, a, b - 1);
    }
}

/// The indices of a kind are those of all lists of that kind: a mesh without lists has none,
/// and with one more list there are as many more as that list has, if it is of the kind.
pub proof fn index_totals_count_every_list(
    m: MeshModel,
    list: MeshPrimitiveModel,
    kind: PrimitiveType,
)
    ensures
        m.primitives.len() == 0 ==> m.index_total(kind) == 0 && !m.has_primitive(kind),
        (MeshModel { primitives: m.primitives.push(list), ..m }).index_total(kind)
            == m.index_total(kind) + (if list.primitive_type == kind {
            list.indices.len()
        } else {
            0
        }),
        (MeshModel { primitives: m.primitives.push(list), ..m }).has_primitive(kind) <==> (
        m.has_primitive(kind) || list.primitive_type == kind),
{
    let more = m.primitives.push(list);
    lemma_index_total_prefix(m.primitives, list, kind, m.primitives.len() as int);
    if m.has_primitive(kind) {
        let i = choose|i: int|
            0 <= i < m.primitives.len() && (#[trigger] m.primitives[i]).primitive_type == kind;
        assert(more[i].primitive_type == kind);
    }
    if list.primitive_type == kind {
        assert(more[m.primitives.len() as int].primitive_type == kind);
    }
    if (MeshModel { primitives: more, ..m }).has_primitive(kind) {
        let i = choose|i: int|
            0 <= i < more.len() && (#[trigger] more[i]).primitive_type == kind;
        if i < m.primitives.len() {
            assert(m.primitives[i].primitive_type == kind);
        }
    }
}

proof fn lemma_index_total_prefix(
    primitives: Seq<MeshPrimitiveModel>,
    list: MeshPrimitiveModel,
    kind: PrimitiveType,
    n: int,
)
    requires
        0 <= n <= primitives.len(),
    ensures
        index_total_upto(primitives.push(list), kind, n) == index_total_upto(primitives, kind, n),
    decreases n,
{
    if n > 0 {
        lemma_index_total_prefix(primitives, list, kind, n - 1);
    }
}

/// A triangle takes three indices, a line two, a point one; and triangles are drawn before
/// lines, lines before points.
pub proof fn primitives_take_their_indices(kind: PrimitiveType)
    ensures
        kind is TriangleList ==> kind.stride() == 3,
        kind is LineList ==> kind.stride() == 2,
        kind is PointList ==> kind.stride() == 1,
        PrimitiveType::TriangleList.rank() < PrimitiveType::LineList.rank(),
        PrimitiveType::LineList.rank() < PrimitiveType::PointList.rank(),
{
}

/// Faces are made of triangles, edges of lines and point sets of points, each by its own
/// list of ranges.
pub proof fn elements_have_their_primitives(topology: TopologyModel)
    ensures
        SubGeometryKind::Face.primitive() == PrimitiveType::TriangleList,
        SubGeometryKind::Edge.primitive() == PrimitiveType::LineList,
        SubGeometryKind::Point.primitive() == PrimitiveType::PointList,
        topology.ranges(SubGeometryKind::Face) == topology.face_ranges,
        topology.ranges(SubGeometryKind::Edge) == topology.edge_ranges,
        topology.ranges(SubGeometryKind::Point) == topology.pointset_ranges,
{
}

/// There is a `k`-th triangle exactly for the `k` below the number of triangles.
pub proof fn triangles_are_counted(m: MeshModel, k: nat)
    ensures
        m.triangle(k) is Some <==> k < m.triangle_count(),
{
    lemma_triangle_total_from(m, 0, k as int);
}

/// There is a `k`-th segment exactly for the `k` below the number of segments.
pub proof fn segments_are_counted(m: MeshModel, k: nat)
    ensures
        m.segment(k) is Some <==> k < m.segment_count(),
{
    lemma_segment_total_from(m, 0, k as int);
}

proof fn lemma_triangle_in_list(m: MeshModel, from: int, list: int, k: int)
    requires
        0 <= from <= list < m.primitives.len(),
        0 <= k < list_triangles(m.primitives[list]),
    ensures
        m.triangle_from(
            from,
            triangle_total(m.primitives, list) - triangle_total(m.primitives, from) + k,
        ) == m.triangle_from(list, k),
    decreases list - from,
{
    if from < list {
        let here = list_triangles(m.primitives[from]);
        assert(triangle_total(m.primitives, from + 1) == triangle_total(m.primitives, from) + here);
        lemma_triangle_total_monotonic(m.primitives, from + 1, list);
        lemma_triangle_in_list(m, from + 1, list, k);
    }
}

proof fn lemma_segment_in_list(m: MeshModel, from: int, list: int, k: int)
    requires
        0 <= from <= list < m.primitives.len(),
        0 <= k < list_segments(m.primitives[list]),
    ensures
        m.segment_from(
            from,
            segment_total(m.primitives, list) - segment_total(m.primitives, from) + k,
        ) == m.segment_from(list, k),
    decreases list - from,
{
    if from < list {
        let here = list_segments(m.primitives[from]);
        assert(segment_total(m.primitives, from + 1) == segment_total(m.primitives, from) + here);
        lemma_segment_total_monotonic(m.primitives, from + 1, list);
        lemma_segment_in_list(m, from + 1, list, k);
    }
}

/// Three indices of a triangle list after another make a triangle: it has the positions
/// of the vertices that they name, in their order, and its number is the number of
/// triangles in the lists before plus its place in its own list.
pub proof fn triangles_are_read_in_threes(m: MeshModel, list: int, k: int)
    requires
        0 <= list < m.primitives.len(),
        m.primitives[list].primitive_type == PrimitiveType::TriangleList,
        0 <= k,
        3 * k + 2 < m.primitives[list].indices.len(),
    ensures
        m.triangle((triangle_total(m.primitives, list) + k) as nat) == Some(
            Triangle {
                a: m.vertices[m.primitives[list].indices[3 * k] as int].position,
                b: m.vertices[m.primitives[list].indices[3 * k + 1] as int].position,
                c: m.vertices[m.primitives[list].indices[3 * k + 2] as int].position,
            },
        ),
        triangle_total(m.primitives, list + 1) == triangle_total(m.primitives, list)
            + m.primitives[list].indices.len() / 3,
{
    lemma_triangle_in_list(m, 0, list, k);
}

/// Two indices of a line list after another make a segment, from the position of the
/// vertex that the first names to that of the second.
pub proof fn segments_are_read_in_twos(m: MeshModel, list: int, k: int)
    requires
        0 <= list < m.primitives.len(),
        m.primitives[list].primitive_type == PrimitiveType::LineList,
        0 <= k,
        2 * k + 1 < m.primitives[list].indices.len(),
    ensures
        m.segment((segment_total(m.primitives, list) + k) as nat) == Some(
            Segment {
                a: m.vertices[m.primitives[list].indices[2 * k] as int].position,
                b: m.vertices[m.primitives[list].indices[2 * k + 1] as int].position,
            },
        ),
        segment_total(m.primitives, list + 1) == segment_total(m.primitives, list)
            + m.primitives[list].indices.len() / 2,
{
    lemma_segment_in_list(m, 0, list, k);
}

/// Lists of other kinds hold no triangles and no segments.
pub proof fn other_lists_are_passed_over(m: MeshModel, list: int)
    requires
        0 <= list < m.primitives.len(),
    ensures
        m.primitives[list].primitive_type != PrimitiveType::TriangleList ==> triangle_total(
            m.primitives,
            list + 1,
        ) == triangle_total(m.primitives, list),
        m.primitives[list].primitive_type != PrimitiveType::LineList ==> segment_total(
            m.primitives,
            list + 1,
        ) == segment_total(m.primitives, list),
{
}

impl Mesh {
    /// The `k`-th triangle, counting through the triangle lists in order.
    pub fn triangle(&self, k: usize) -> (found: Option<Triangle>)
        requires
            self@.indices_valid(),
        ensures
            found == self@.triangle(k as nat),
    {
        let ghost m = self@;
        let mut left: usize = k;
        let mut i: usize = 0;
        while i < self.primitives.len()
            invariant
                i <= self.primitives.len(),
                m == self@,
                m.indices_valid(),
                m.triangle(k as nat) == m.triangle_from(i as int, left as int),
            decreases self.primitives.len() - i,
        {
            proof {
                assert(m.primitives[i as int] == self.primitives@[i as int]@);
            }
            if self.primitives[i].primitive_type == PrimitiveType::TriangleList {
                let n: usize = self.primitives[i].indices.len() / 3;
                if left < n {
                    let at: usize = 3 * left;
                    proof {
                        assert(m.primitives[i as int].indices[at as int] < m.vertices.len());
                        assert(m.primitives[i as int].indices[at + 1] < m.vertices.len());
                        assert(m.primitives[i as int].indices[at + 2] < m.vertices.len());
                    }
                    let a = self.vertices[self.primitives[i].indices[at] as usize].position;
                    let b = self.vertices[self.primitives[i].indices[at + 1] as usize].position;
                    let c = self.vertices[self.primitives[i].indices[at + 2] as usize].position;
                    return Some(Triangle { a, b, c });
                }
                left = left - n;
            }
            i = i + 1;
        }
        None
    }

    /// The `k`-th segment, counting through the line lists in order.
    pub fn segment(&self, k: usize) -> (found: Option<Segment>)
        requires
            self@.indices_valid(),
        ensures
            found == self@.segment(k as nat),
    {
        let ghost m = self@;
        let mut left: usize = k;
        let mut i: usize = 0;
        while i < self.primitives.len()
            invariant
                i <= self.primitives.len(),
                m == self@,
                m.indices_valid(),
                m.segment(k as nat) == m.segment_from(i as int, left as int),
            decreases self.primitives.len() - i,
        {
            proof {
                assert(m.primitives[i as int] == self.primitives@[i as int]@);
            }
            if self.primitives[i].primitive_type == PrimitiveType::LineList {
                let n: usize = self.primitives[i].indices.len() / 2;
                if left < n {
                    let at: usize = 2 * left;
                    proof {
                        assert(m.primitives[i as int].indices[at as int] < m.vertices.len());
                        assert(m.primitives[i as int].indices[at + 1] < m.vertices.len());
                    }
                    let a = self.vertices[self.primitives[i].indices[at] as usize].position;
                    let b = self.vertices[self.primitives[i].indices[at + 1] as usize].position;
                    return Some(Segment { a, b });
                }
                left = left - n;
            }
            i = i + 1;
        }
        None
    }

    /// Whether every index names a vertex.
    pub fn has_valid_indices(&self) -> (yes: bool)
        ensures
            yes == self@.indices_valid(),
    {
        let ghost m = self@;
        let mut i: usize = 0;
        while i < self.primitives.len()
            invariant
                i <= self.primitives.len(),
                m == self@,
                forall|a: int, b: int|
                    0 <= a < i && 0 <= b < m.primitives[a].indices.len()
                        ==> (#[trigger] m.primitives[a].indices[b]) < m.vertices.len(),
            decreases self.primitives.len() - i,
        {
            let mut j: usize = 0;
            proof {
                assert(m.primitives[i as int] == self.primitives@[i as int]@);
            }
            while j < self.primitives[i].indices.len()
                invariant
                    i < self.primitives.len(),
                    j <= self.primitives@[i as int].indices.len(),
                    m == self@,
                    m.primitives[i as int] == self.primitives@[i as int]@,
                    forall|a: int, b: int|
                        0 <= a < i && 0 <= b < m.primitives[a].indices.len()
                            ==> (#[trigger] m.primitives[a].indices[b]) < m.vertices.len(),
                    forall|b: int|
                        0 <= b < j ==> (#[trigger] m.primitives[i as int].indices[b])
                            < m.vertices.len(),
                decreases self.primitives@[i as int].indices.len() - j,
            {
                if self.primitives[i].indices[j] as usize >= self.vertices.len() {
                    assert(m.primitives[i as int].indices[j as int] >= m.vertices.len());
                    return false;
                }
                j = j + 1;
            }
            i = i + 1;
        }
        true
    }
}

} // verus!
