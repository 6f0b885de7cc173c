//! Assembling a mesh from the points of a tessellated shape.

use crate::common::{Aabb, Point3, Scalar, Vector3, ZERO};
use crate::resource::handle::MeshId;
use crate::resource::mesh::{
    primitive_views, segment_total as mesh_segments, segments_are_read_in_twos,
    triangle_total, triangles_are_read_in_threes, Mesh, MeshModel, MeshPrimitive,
    MeshPrimitiveModel, PrimitiveType, Segment, SubMeshRange, Topology, TopologyModel, Triangle,
    Vertex,
};
use vstd::prelude::*;

verus! {

/// How the points of an edge are obtained.
#[derive(Debug, Clone, Copy, PartialEq, Eq, Structural)]
pub enum EdgeSampling {
    /// Not at all: the edge is not drawn.
    Suppressed,
    /// Its two ends.
    Ends,
    /// The points of an approximation.
    Approximation,
}

/// How the points of an edge are obtained.
pub open spec fn sampling_of(degenerated: bool, seam: bool, straight: bool) -> EdgeSampling {
    if degenerated || seam {
        EdgeSampling::Suppressed
    } else if straight {
        EdgeSampling::Ends
    } else {
        EdgeSampling::Approximation
    }
}

/// An edge is drawn if and only if it has a curve and is no seam, whatever its curve; and of
/// those that are drawn, the straight ones are drawn from end to end and no others.
pub proof fn seams_and_poles_are_not_drawn(degenerated: bool, seam: bool, straight: bool)
    ensures
        sampling_of(degenerated, seam, straight) is Suppressed <==> degenerated || seam,
        sampling_of(degenerated, seam, straight) is Ends <==> !degenerated && !seam && straight,
        sampling_of(degenerated, seam, straight) is Approximation <==> !degenerated && !seam
            && !straight,
{
}

/// How the points of an edge are obtained. Seam edges (where a closed surface meets
/// itself, such as a sphere's meridian) and degenerate edges (without a curve, such as a
/// sphere's poles) are not drawn. A straight edge is drawn from end to end.
pub fn edge_sampling(degenerated: bool, seam: bool, straight: bool) -> (sampling: EdgeSampling)
    ensures
        sampling == sampling_of(degenerated, seam, straight),
{
    if degenerated || seam {
        EdgeSampling::Suppressed
    } else if straight {
        EdgeSampling::Ends
    } else {
        EdgeSampling::Approximation
    }
}

/// The triangles of a shape, as the modeling kernel gives them.
pub struct FaceMesh {
    pub positions: Vec<Point3>,
    /// One per position; missing ones are zero.
    pub normals: Vec<Vector3>,
    /// One per position; missing ones are zero.
    pub uvs: Vec<(Scalar, Scalar)>,
    /// Positions of the corners, three per triangle.
    pub indices: Vec<u64>,
    /// The triangles of each face.
    pub ranges: Vec<SubMeshRange>,
}

/// A tessellated shape.
pub struct Tessellation {
    pub faces: FaceMesh,
    /// The points of every edge, in the order of the edges of the shape; none for an
    /// edge that is not drawn.
    pub edges: Vec<Vec<Point3>>,
    /// The vertices of the shape, in order.
    pub points: Vec<Point3>,
}

/// What a mesh is made of.
pub struct MeshParts {
    pub vertices: Vec<Vertex>,
    pub primitives: Vec<MeshPrimitive>,
    pub topology: Topology,
}

/// A vertex that has only a position.
pub open spec fn bare(position: Point3) -> Vertex {
    Vertex {
        position,
        tex_coords: Vector3 { x: ZERO, y: ZERO, z: ZERO },
        normal: Vector3 { x: ZERO, y: ZERO, z: ZERO },
    }
}

impl FaceMesh {
    /// The vertex at a position of the faces.
    pub open spec fn vertex(self, i: int) -> Vertex {
        Vertex {
            position: self.positions@[i],
            tex_coords: if i < self.uvs@.len() {
                Vector3 { x: self.uvs@[i].0, y: self.uvs@[i].1, z: ZERO }
            } else {
                Vector3 { x: ZERO, y: ZERO, z: ZERO }
            },
            normal: if i < self.normals@.len() {
                self.normals@[i]
            } else {
                Vector3 { x: ZERO, y: ZERO, z: ZERO }
            },
        }
    }

    /// The vertices of the faces.
    pub open spec fn vertices(self) -> Seq<Vertex> {
        Seq::new(self.positions@.len(), |i: int| self.vertex(i))
    }

    /// The corners of the triangles, as the mesh stores them.
    pub open spec fn corners(self) -> Seq<u32> {
        self.indices@.map_values(|i: u64| i as u32)
    }
}

/// How many segments a run of points has.
pub open spec fn segments(points: Seq<Point3>) -> nat {
    if points.len() < 2 {
        0
    } else {
        (points.len() - 1) as nat
    }
}

/// The ends of the segments of a run of points, two per segment.
pub open spec fn segment_ends(points: Seq<Point3>) -> Seq<Vertex> {
    Seq::new(2 * segments(points), |j: int| bare(points[j / 2 + j % 2]))
}

/// What edges hold.
pub open spec fn edge_views(edges: Seq<Vec<Point3>>) -> Seq<Seq<Point3>> {
    edges.map_values(|e: Vec<Point3>| e@)
}

/// How many segments all edges have.
pub open spec fn segment_total(edges: Seq<Seq<Point3>>) -> nat
    decreases edges.len(),
{
    if edges.len() == 0 {
        0
    } else {
        segment_total(edges.drop_last()) + segments(edges.last())
    }
}

/// The ends of the segments of all edges, edge by edge.
pub open spec fn edge_ends(edges: Seq<Seq<Point3>>) -> Seq<Vertex>
    decreases edges.len(),
{
    if edges.len() == 0 {
        Seq::empty()
    } else {
        edge_ends(edges.drop_last()) + segment_ends(edges.last())
    }
}

/// The segments of each edge: they follow those of the edges before it.
pub open spec fn edge_ranges(edges: Seq<Seq<Point3>>) -> Seq<SubMeshRange> {
    Seq::new(
        edges.len(),
        |k: int|
            SubMeshRange {
                start: segment_total(edges.take(k)) as u32,
                count: segments(edges[k]) as u32,
            },
    )
}

/// Consecutive numbers.
pub open spec fn counted(from: int, n: nat) -> Seq<u32> {
    Seq::new(n, |j: int| (from + j) as u32)
}

/// The primitive lists that are not empty.
pub open spec fn lists(faces: Seq<u32>, edges: Seq<u32>, points: Seq<u32>) -> Seq<
    MeshPrimitiveModel,
> {
    let list = |kind: PrimitiveType, indices: Seq<u32>|
        if indices.len() == 0 {
            Seq::<MeshPrimitiveModel>::empty()
        } else {
            seq![MeshPrimitiveModel { primitive_type: kind, indices }]
        };
    list(PrimitiveType::TriangleList, faces) + list(PrimitiveType::LineList, edges) + list(
        PrimitiveType::PointList,
        points,
    )
}

impl Tessellation {
    /// The edges that go into the mesh.
    pub open spec fn drawn_edges(self, include_edges: bool) -> Seq<Seq<Point3>> {
        if include_edges {
            edge_views(self.edges@)
        } else {
            Seq::empty()
        }
    }

    /// The vertices of the shape that go into the mesh.
    pub open spec fn drawn_points(self, include_points: bool) -> Seq<Point3> {
        if include_points {
            self.points@
        } else {
            Seq::empty()
        }
    }

    /// How many vertices the mesh has.
    pub open spec fn vertex_total(self, include_edges: bool, include_points: bool) -> nat {
        self.faces.positions@.len() + 2 * segment_total(self.drawn_edges(include_edges))
            + self.drawn_points(include_points).len()
    }
}

impl MeshParts {
    /// Whether these are the parts of the mesh of a tessellated shape: the vertices of
    /// the faces, then two for each segment of each edge, then one for each vertex of the
    /// shape. Segments and points name their vertices in that order, and every face,
    /// edge and vertex of the shape has its range, also an edge without segments.
    pub open spec fn assembled(
        self,
        shape: Tessellation,
        include_edges: bool,
        include_points: bool,
    ) -> bool {
        let edges = shape.drawn_edges(include_edges);
        let points = shape.drawn_points(include_points);
        let first_edge = shape.faces.positions@.len() as int;
        let first_point = first_edge + 2 * segment_total(edges);
        &&& self.vertices@ == shape.faces.vertices() + edge_ends(edges) + points.map_values(
            |p: Point3| bare(p),
        )
        &&& primitive_views(self.primitives@) == lists(
            shape.faces.corners(),
            counted(first_edge, 2 * segment_total(edges)),
            counted(first_point, points.len()),
        )
        &&& self.topology@ == (TopologyModel {
            face_ranges: shape.faces.ranges@,
            edge_ranges: edge_ranges(edges),
            pointset_ranges: Seq::new(
                points.len(),
                |k: int| SubMeshRange { start: k as u32, count: 1 },
            ),
        })
    }
}

impl MeshParts {
    /// The mesh that these parts make, whatever its id.
    pub open spec fn mesh(self) -> MeshModel {
        MeshModel {
            id: 0,
            generation: 0,
            vertices: self.vertices@,
            primitives: primitive_views(self.primitives@),
            topology: Some(self.topology@),
            bounds: None,
        }
    }

    /// Whether segment `k` of edge `e` runs from one point to another.
    pub open spec fn runs_between(self, e: int, k: int, a: Point3, b: Point3) -> bool {
        &&& 0 <= k < self.topology@.edge_ranges[e].count
        &&& self.mesh().segment((self.topology@.edge_ranges[e].start + k) as nat) == Some(
            Segment { a, b },
        )
    }
}

proof fn lemma_segments_before(edges: Seq<Seq<Point3>>, k: int)
    requires
        0 <= k <= edges.len(),
    ensures
        segment_total(edges.take(k)) <= segment_total(edges),
        k < edges.len() ==> segment_total(edges.take(k + 1)) == segment_total(edges.take(k))
            + segments(edges[k]),
        k < edges.len() ==> edge_ends(edges.take(k + 1)) == edge_ends(edges.take(k))
            + segment_ends(edges[k]),
    decreases edges.len() - k,
{
    if k < edges.len() {
        let next = edges.take(k + 1);
        assert(next.drop_last() =~= edges.take(k));
        assert(next.last() == edges[k]);
        lemma_segments_before(edges, k + 1);
    } else {
        assert(edges.take(k) =~= edges);
    }
}

proof fn lemma_ends_len(edges: Seq<Seq<Point3>>)
    ensures
        edge_ends(edges).len() == 2 * segment_total(edges),
    decreases edges.len(),
{
    if edges.len() > 0 {
        lemma_ends_len(edges.drop_last());
    }
}

/// Every edge of the shape has its range, in order; the ranges follow one another without
/// gaps; and that of an edge that is not drawn is empty.
pub proof fn edge_ranges_are_aligned(edges: Seq<Seq<Point3>>, k: int)
    requires
        0 <= k < edges.len(),
        segment_total(edges) <= u32::MAX,
    ensures
        edge_ranges(edges).len() == edges.len(),
        k == 0 ==> edge_ranges(edges)[k].start == 0,
        k + 1 < edges.len() ==> edge_ranges(edges)[k + 1].start == edge_ranges(edges)[k].start
            + edge_ranges(edges)[k].count,
        edge_ranges(edges)[k].start + edge_ranges(edges)[k].count <= segment_total(edges),
        edges[k].len() < 2 ==> edge_ranges(edges)[k].count == 0,
{
    lemma_segments_before(edges, k);
    lemma_segments_before(edges, k + 1);
    assert(edges.take(0) =~= Seq::empty());
}

/// A mesh whose faces name only vertices of the faces names only vertices that it has.
pub proof fn assembled_indices_are_valid(
    mesh: MeshModel,
    parts: MeshParts,
    shape: Tessellation,
    include_edges: bool,
    include_points: bool,
)
    requires
        parts.assembled(shape, include_edges, include_points),
        mesh.vertices == parts.vertices@,
        mesh.primitives == primitive_views(parts.primitives@),
        shape.vertex_total(include_edges, include_points) <= u32::MAX,
        forall|i: int|
            0 <= i < shape.faces.indices@.len() ==> (#[trigger] shape.faces.indices@[i])
                < shape.faces.positions@.len(),
    ensures
        mesh.indices_valid(),
{
    let edges = shape.drawn_edges(include_edges);
    let points = shape.drawn_points(include_points);
    lemma_ends_len(edges);
    let first_edge = shape.faces.positions@.len() as int;
    let first_point = first_edge + 2 * segment_total(edges);
    let a = shape.faces.corners();
    let b = counted(first_edge, 2 * segment_total(edges));
    let c = counted(first_point, points.len());
    assert(mesh.vertices.len() == first_point + points.len());
    assert forall|i: int, j: int|
        0 <= i < mesh.primitives.len() && 0 <= j < mesh.primitives[i].indices.len() implies (
    #[trigger] mesh.primitives[i].indices[j]) < mesh.vertices.len() by {
        let list = mesh.primitives[i].indices;
        assert(list == a || list == b || list == c);
        if list == a {
            assert(shape.faces.indices@[j] < first_edge);
            assert(list[j] == shape.faces.indices@[j] as u32);
        }
    }
}

/// The ends of the segments of one edge stand together among those of all edges.
proof fn lemma_ends_of_edge(edges: Seq<Seq<Point3>>, e: int, j: int)
    requires
        0 <= e < edges.len(),
        0 <= j < 2 * segments(edges[e]),
    ensures
        2 * segment_total(edges.take(e)) + j < edge_ends(edges).len(),
        edge_ends(edges)[2 * segment_total(edges.take(e)) + j] == segment_ends(edges[e])[j],
    decreases edges.len(),
{
    let front = edges.drop_last();
    lemma_ends_len(front);
    if e == edges.len() - 1 {
        assert(edges.take(e) =~= front);
    } else {
        assert(front.take(e) =~= edges.take(e));
        assert(front[e] == edges[e]);
        lemma_ends_of_edge(front, e, j);
    }
}

/// The lists of primitives of an assembled mesh, by kind: where each stands, if it is
/// there at all, and how many triangles and segments that makes.
proof fn lemma_lists(mesh: MeshModel, faces: Seq<u32>, edges: Seq<u32>, points: Seq<u32>)
    requires
        mesh.primitives == lists(faces, edges, points),
    ensures
        faces.len() > 0 ==> mesh.primitives[0] == (MeshPrimitiveModel {
            primitive_type: PrimitiveType::TriangleList,
            indices: faces,
        }) && mesh.primitives.len() > 0,
        edges.len() > 0 ==> {
            let at: int = if faces.len() > 0 { 1 } else { 0 };
            &&& mesh.primitives.len() > at
            &&& mesh.primitives[at] == (MeshPrimitiveModel {
                primitive_type: PrimitiveType::LineList,
                indices: edges,
            })
            &&& mesh_segments(mesh.primitives, at) == 0
        },
        points.len() > 0 ==> {
            &&& mesh.primitives.len() > 0
            &&& mesh.primitives.last() == (MeshPrimitiveModel {
                primitive_type: PrimitiveType::PointList,
                indices: points,
            })
        },
        mesh.triangle_count() == faces.len() / 3,
        mesh.segment_count() == edges.len() / 2,
        mesh.has_primitive(PrimitiveType::TriangleList) == (faces.len() > 0),
        mesh.has_primitive(PrimitiveType::LineList) == (edges.len() > 0),
        mesh.has_primitive(PrimitiveType::PointList) == (points.len() > 0),
{
    reveal_with_fuel(mesh_segments, 4);
    reveal_with_fuel(triangle_total, 4);
    let f: int = if faces.len() > 0 { 1 } else { 0 };
    let e: int = if edges.len() > 0 { 1 } else { 0 };
    let p: int = if points.len() > 0 { 1 } else { 0 };
    assert(mesh.primitives.len() == f + e + p);
    if faces.len() > 0 {
        assert(mesh.primitives[0].primitive_type == PrimitiveType::TriangleList);
    }
    if edges.len() > 0 {
        assert(mesh.primitives[f].primitive_type == PrimitiveType::LineList);
    }
    if points.len() > 0 {
        assert(mesh.primitives[f + e].primitive_type == PrimitiveType::PointList);
    }
}

/// Segment `k` of edge `e` of an assembled mesh runs from point `k` of that edge to
/// point `k + 1`, so that consecutive segments share an end; an edge of so many points
/// has one segment fewer, and its range in the topology counts exactly those.
pub proof fn edges_run_from_point_to_point(
    mesh: MeshModel,
    parts: MeshParts,
    shape: Tessellation,
    include_points: bool,
    e: int,
    k: int,
)
    requires
        parts.assembled(shape, true, include_points),
        mesh.vertices == parts.vertices@,
        mesh.primitives == primitive_views(parts.primitives@),
        shape.vertex_total(true, include_points) <= u32::MAX,
        0 <= e < shape.edges@.len(),
        0 <= k,
        k + 1 < shape.edges@[e]@.len(),
    ensures
        parts.topology@.edge_ranges.len() == shape.edges@.len(),
        parts.topology@.edge_ranges[e].count == shape.edges@[e]@.len() - 1,
        mesh.segment((parts.topology@.edge_ranges[e].start + k) as nat) == Some(
            Segment { a: shape.edges@[e]@[k], b: shape.edges@[e]@[k + 1] },
        ),
{
    let edges = shape.drawn_edges(true);
    let points = shape.drawn_points(include_points);
    let first_edge = shape.faces.positions@.len() as int;
    let first_point = first_edge + 2 * segment_total(edges);
    let before = segment_total(edges.take(e)) as int;
    let named = counted(first_edge, 2 * segment_total(edges));
    assert(edges[e] == shape.edges@[e]@);
    lemma_ends_len(edges);
    lemma_segments_before(edges, e);
    lemma_segments_before(edges, e + 1);
    lemma_ends_of_edge(edges, e, 2 * k);
    lemma_ends_of_edge(edges, e, 2 * k + 1);
    lemma_lists(mesh, shape.faces.corners(), named, counted(first_point, points.len()));
    let at: int = if shape.faces.corners().len() > 0 {
        1
    } else {
        0
    };
    segments_are_read_in_twos(mesh, at, before + k);
    assert(named[2 * (before + k)] == first_edge + 2 * (before + k));
    assert(named[2 * (before + k) + 1] == first_edge + 2 * (before + k) + 1);
    assert((2 * k) / 2 + (2 * k) % 2 == k);
    assert((2 * k + 1) / 2 + (2 * k + 1) % 2 == k + 1);
}

/// A mesh that is assembled without edges has no segments, no vertices for any, and no
/// range of an edge.
pub proof fn edges_are_left_out(
    mesh: MeshModel,
    parts: MeshParts,
    shape: Tessellation,
    include_points: bool,
)
    requires
        parts.assembled(shape, false, include_points),
        mesh.primitives == primitive_views(parts.primitives@),
    ensures
        mesh.segment_count() == 0,
        !mesh.has_primitive(PrimitiveType::LineList),
        parts.topology@.edge_ranges.len() == 0,
        parts.vertices@.len() == shape.faces.positions@.len() + shape.drawn_points(
            include_points,
        ).len(),
{
    let points = shape.drawn_points(include_points);
    let edges = shape.drawn_edges(false);
    let first_edge = shape.faces.positions@.len() as int;
    lemma_lists(
        mesh,
        shape.faces.corners(),
        counted(first_edge, 2 * segment_total(edges)),
        counted(first_edge + 2 * segment_total(edges), points.len()),
    );
}

/// Triangle `k` of an assembled mesh has the positions that the kernel's triangle `k`
/// names, in the same order; each vertex of the faces carries the normal and the texture
/// coordinates at its own position, or zeros where the kernel gave none; and the faces
/// keep their ranges of triangles.
pub proof fn faces_keep_their_triangles(
    mesh: MeshModel,
    parts: MeshParts,
    shape: Tessellation,
    include_edges: bool,
    include_points: bool,
    k: int,
    v: int,
)
    requires
        parts.assembled(shape, include_edges, include_points),
        mesh.vertices == parts.vertices@,
        mesh.primitives == primitive_views(parts.primitives@),
        shape.vertex_total(include_edges, include_points) <= u32::MAX,
        forall|i: int|
            0 <= i < shape.faces.indices@.len() ==> (#[trigger] shape.faces.indices@[i])
                < shape.faces.positions@.len(),
        0 <= k,
        3 * k + 2 < shape.faces.indices@.len(),
        0 <= v < shape.faces.positions@.len(),
    ensures
        mesh.triangle_count() == shape.faces.indices@.len() / 3,
        mesh.triangle(k as nat) == Some(
            Triangle {
                a: shape.faces.positions@[shape.faces.indices@[3 * k] as int],
                b: shape.faces.positions@[shape.faces.indices@[3 * k + 1] as int],
                c: shape.faces.positions@[shape.faces.indices@[3 * k + 2] as int],
            },
        ),
        mesh.vertices[v].position == shape.faces.positions@[v],
        v < shape.faces.normals@.len() ==> mesh.vertices[v].normal == shape.faces.normals@[v],
        v >= shape.faces.normals@.len() ==> mesh.vertices[v].normal == (Vector3 {
            x: 0,
            y: 0,
            z: 0,
        }),
        v < shape.faces.uvs@.len() ==> mesh.vertices[v].tex_coords == (Vector3 {
            x: shape.faces.uvs@[v].0,
            y: shape.faces.uvs@[v].1,
            z: 0,
        }),
        v >= shape.faces.uvs@.len() ==> mesh.vertices[v].tex_coords == (Vector3 {
            x: 0,
            y: 0,
            z: 0,
        }),
        parts.topology@.face_ranges == shape.faces.ranges@,
{
    let edges = shape.drawn_edges(include_edges);
    let points = shape.drawn_points(include_points);
    let first_edge = shape.faces.positions@.len() as int;
    lemma_lists(
        mesh,
        shape.faces.corners(),
        counted(first_edge, 2 * segment_total(edges)),
        counted(first_edge + 2 * segment_total(edges), points.len()),
    );
    triangles_are_read_in_threes(mesh, 0, k);
    assert(shape.faces.indices@[3 * k] < first_edge);
    assert(shape.faces.indices@[3 * k + 1] < first_edge);
    assert(shape.faces.indices@[3 * k + 2] < first_edge);
}

/// Every vertex of the shape is a point of the mesh: point `v` of the point list stands
/// where vertex `v` does, and the range of vertex `v` is that one point. Without points
/// there is no point list and no range of one.
pub proof fn vertices_become_points(
    mesh: MeshModel,
    parts: MeshParts,
    shape: Tessellation,
    include_edges: bool,
    include_points: bool,
)
    requires
        parts.assembled(shape, include_edges, include_points),
        mesh.vertices == parts.vertices@,
        mesh.primitives == primitive_views(parts.primitives@),
        shape.vertex_total(include_edges, include_points) <= u32::MAX,
    ensures
        !include_points || shape.points@.len() == 0 ==> !mesh.has_primitive(
            PrimitiveType::PointList,
        ) && parts.topology@.pointset_ranges.len() == 0,
        include_points ==> parts.topology@.pointset_ranges.len() == shape.points@.len(),
        include_points ==> forall|v: int|
            0 <= v < shape.points@.len() ==> {
                let list = mesh.primitives.last();
                &&& list.primitive_type == PrimitiveType::PointList
                &&& list.indices.len() == shape.points@.len()
                &&& (#[trigger] parts.topology@.pointset_ranges[v]).start == v
                &&& parts.topology@.pointset_ranges[v].count == 1
                &&& list.indices[v] < mesh.vertices.len()
                &&& mesh.vertices[list.indices[v] as int].position == shape.points@[v]
            },
{
    let edges = shape.drawn_edges(include_edges);
    let points = shape.drawn_points(include_points);
    let first_edge = shape.faces.positions@.len() as int;
    let first_point = first_edge + 2 * segment_total(edges);
    lemma_ends_len(edges);
    lemma_lists(
        mesh,
        shape.faces.corners(),
        counted(first_edge, 2 * segment_total(edges)),
        counted(first_point, points.len()),
    );
    if include_points {
        assert forall|v: int| 0 <= v < shape.points@.len() implies {
            let list = mesh.primitives.last();
            &&& list.primitive_type == PrimitiveType::PointList
            &&& list.indices.len() == shape.points@.len()
            &&& (#[trigger] parts.topology@.pointset_ranges[v]).start == v
            &&& parts.topology@.pointset_ranges[v].count == 1
            &&& list.indices[v] < mesh.vertices.len()
            &&& mesh.vertices[list.indices[v] as int].position == shape.points@[v]
        } by {
            assert(mesh.primitives.last().indices[v] == first_point + v);
        }
    }
}

fn face_vertices(faces: &FaceMesh) -> (vertices: Vec<Vertex>)
    ensures
        vertices@ == faces.vertices(),
{
    let zero = Vector3 { x: ZERO, y: ZERO, z: ZERO };
    let mut vertices: Vec<Vertex> = Vec::new();
    let mut i: usize = 0;
    while i < faces.positions.len()
        invariant
            i <= faces.positions.len(),
            zero == (Vector3 { x: ZERO, y: ZERO, z: ZERO }),
            vertices@ == faces.vertices().take(i as int),
        decreases faces.positions.len() - i,
    {
        let normal = if i < faces.normals.len() {
            faces.normals[i]
        } else {
            zero
        };
        let tex_coords = if i < faces.uvs.len() {
            Vector3 { x: faces.uvs[i].0, y: faces.uvs[i].1, z: ZERO }
        } else {
            zero
        };
        vertices.push(Vertex { position: faces.positions[i], tex_coords, normal });
        proof {
            assert(vertices@ =~= faces.vertices().take(i + 1));
        }
        i = i + 1;
    }
    proof {
        assert(faces.vertices().take(i as int) =~= faces.vertices());
    }
    vertices
}

fn face_corners(faces: &FaceMesh) -> (corners: Vec<u32>)
    ensures
        corners@ == faces.corners(),
{
    let mut corners: Vec<u32> = Vec::new();
    let mut i: usize = 0;
    while i < faces.indices.len()
        invariant
            i <= faces.indices.len(),
            corners@ == faces.corners().take(i as int),
        decreases faces.indices.len() - i,
    {
        corners.push(#[verifier::truncate] (faces.indices[i] as u32));
        proof {
            assert(corners@ =~= faces.corners().take(i + 1));
        }
        i = i + 1;
    }
    proof {
        assert(faces.corners().take(i as int) =~= faces.corners());
    }
    corners
}

/// Adds the segments of one edge, and returns how many there are.
fn add_segments(points: &Vec<Point3>, vertices: &mut Vec<Vertex>, indices: &mut Vec<u32>) -> (
    count: u32)
    requires
        old(vertices)@.len() + 2 * segments(points@) <= u32::MAX,
    ensures
        final(vertices)@ == old(vertices)@ + segment_ends(points@),
        final(indices)@ == old(indices)@ + counted(
            old(vertices)@.len() as int,
            2 * segments(points@),
        ),
        count == segments(points@),
{
    let zero = Vector3 { x: ZERO, y: ZERO, z: ZERO };
    let ghost before = vertices@;
    let ghost named = indices@;
    let ghost ends = segment_ends(points@);
    let ghost numbers = counted(before.len() as int, 2 * segments(points@));
    let mut count: u32 = 0;
    let mut i: usize = 1;
    proof {
        assert(vertices@ =~= before + ends.take(0));
        assert(indices@ =~= named + numbers.take(0));
    }
    while i < points.len()
        invariant
            1 <= i,
            i <= points.len() || points.len() == 0 && i == 1,
            count == i - 1,
            zero == (Vector3 { x: ZERO, y: ZERO, z: ZERO }),
            ends == segment_ends(points@),
            numbers == counted(before.len() as int, 2 * segments(points@)),
            before.len() + 2 * segments(points@) <= u32::MAX,
            vertices@ == before + ends.take(2 * (i - 1)),
            indices@ == named + numbers.take(2 * (i - 1)),
        decreases points.len() - i,
    {
        let base: u32 = vertices.len() as u32;
        let ghost j = 2 * (i - 1);
        vertices.push(Vertex { position: points[i - 1], tex_coords: zero, normal: zero });
        vertices.push(Vertex { position: points[i], tex_coords: zero, normal: zero });
        indices.push(base);
        indices.push(base + 1);
        count = count + 1;
        proof {
            assert(j / 2 + j % 2 == i - 1);
            assert((j + 1) / 2 + (j + 1) % 2 == i);
            assert(ends[j] == bare(points@[i - 1]));
            assert(ends[j + 1] == bare(points@[i as int]));
            assert(vertices@ =~= before + ends.take(j + 2));
            assert(numbers[j] == base && numbers[j + 1] == base + 1);
            assert(indices@ =~= named + numbers.take(j + 2));
        }
        i = i + 1;
    }
    proof {
        assert(ends.take(2 * (i - 1)) =~= ends);
        assert(numbers.take(2 * (i - 1)) =~= numbers);
    }
    count
}

/// Adds the list of a kind of primitive, unless it is empty.
fn add_list(primitives: &mut Vec<MeshPrimitive>, primitive_type: PrimitiveType, indices: Vec<u32>)
    ensures
        primitive_views(final(primitives)@) == primitive_views(old(primitives)@) + (
        if indices@.len() == 0 {
            Seq::<MeshPrimitiveModel>::empty()
        } else {
            seq![MeshPrimitiveModel { primitive_type, indices: indices@ }]
        }),
{
    let ghost before = primitive_views(primitives@);
    let ghost named = indices@;
    if indices.len() > 0 {
        primitives.push(MeshPrimitive { primitive_type, indices });
    }
    proof {
        assert(primitive_views(primitives@) =~= before + (if named.len() == 0 {
            Seq::<MeshPrimitiveModel>::empty()
        } else {
            seq![MeshPrimitiveModel { primitive_type, indices: named }]
        }));
    }
}

/// Assembles the mesh of a tessellated shape: face triangles and, optionally, wireframe
/// edge segments and vertices.
///
/// One edge range is made per edge of the shape, in order, also for an edge without
/// segments, and one point per vertex, so that an index resolves back to its edge or
/// vertex by position.
pub fn tessellate_occ_shape(shape: Tessellation, include_edges: bool, include_points: bool) -> (
    parts: MeshParts)
    requires
        shape.vertex_total(include_edges, include_points) <= u32::MAX,
    ensures
        parts.assembled(shape, include_edges, include_points),
        include_edges ==> forall|e: int, k: int|
            0 <= e < shape.edges@.len() && 0 <= k && k + 1 < shape.edges@[e]@.len()
                ==> #[trigger] parts.runs_between(
                e,
                k,
                shape.edges@[e]@[k],
                shape.edges@[e]@[k + 1],
            ),
{
    let ghost given = shape;
    let ghost edges = shape.drawn_edges(include_edges);
    let ghost points = shape.drawn_points(include_points);
    let ghost first_edge = shape.faces.positions@.len() as int;
    let ghost first_point = first_edge + 2 * segment_total(edges);
    let ghost faces = shape.faces.vertices();
    let mut vertices = face_vertices(&shape.faces);
    let face_indices = face_corners(&shape.faces);
    let mut edge_indices: Vec<u32> = Vec::new();
    let mut ranges: Vec<SubMeshRange> = Vec::new();
    proof {
        assert(edges.take(0) =~= Seq::empty());
        assert(vertices@ =~= faces + edge_ends(edges.take(0)));
        assert(edge_indices@ =~= counted(first_edge, 2 * segment_total(edges.take(0))));
        assert(ranges@ =~= edge_ranges(edges).take(0));
    }
    if include_edges {
        let mut k: usize = 0;
        while k < shape.edges.len()
            invariant
                k <= shape.edges.len(),
                edges == edge_views(shape.edges@),
                faces == shape.faces.vertices(),
                first_edge == faces.len(),
                first_edge + 2 * segment_total(edges) <= u32::MAX,
                vertices@ == faces + edge_ends(edges.take(k as int)),
                edge_indices@ == counted(first_edge, 2 * segment_total(edges.take(k as int))),
                ranges@ == edge_ranges(edges).take(k as int),
            decreases shape.edges.len() - k,
        {
            proof {
                lemma_segments_before(edges, k as int);
                lemma_segments_before(edges, k + 1);
                lemma_ends_len(edges.take(k as int));
                assert(edges[k as int] == shape.edges@[k as int]@);
            }
            let ghost done = segment_total(edges.take(k as int));
            let ghost more = segments(edges[k as int]);
            let start: u32 = (edge_indices.len() / 2) as u32;
            let count = add_segments(&shape.edges[k], &mut vertices, &mut edge_indices);
            ranges.push(SubMeshRange { start, count });
            proof {
                assert(vertices@ =~= faces + edge_ends(edges.take(k + 1)));
                assert(edge_indices@ =~= counted(first_edge, 2 * (done + more)));
                assert(ranges@ =~= edge_ranges(edges).take(k + 1));
            }
            k = k + 1;
        }
    }
    proof {
        assert(edges.take(edges.len() as int) =~= edges);
        assert(edge_ranges(edges).take(edges.len() as int) =~= edge_ranges(edges));
        lemma_ends_len(edges);
    }
    let ghost upto = vertices@;
    let ghost bared = points.map_values(|p: Point3| bare(p));
    let ghost point_numbers = counted(first_point, points.len());
    let ghost point_ranges = Seq::new(
        points.len(),
        |k: int| SubMeshRange { start: k as u32, count: 1 },
    );
    let mut point_indices: Vec<u32> = Vec::new();
    let mut pointset_ranges: Vec<SubMeshRange> = Vec::new();
    proof {
        assert(vertices@ =~= upto + bared.take(0));
        assert(point_indices@ =~= point_numbers.take(0));
        assert(pointset_ranges@ =~= point_ranges.take(0));
    }
    if include_points {
        let zero = Vector3 { x: ZERO, y: ZERO, z: ZERO };
        let mut k: usize = 0;
        while k < shape.points.len()
            invariant
                k <= shape.points.len(),
                zero == (Vector3 { x: ZERO, y: ZERO, z: ZERO }),
                points == shape.points@,
                upto.len() == first_point,
                first_point + points.len() <= u32::MAX,
                bared == points.map_values(|p: Point3| bare(p)),
                point_numbers == counted(first_point, points.len()),
                point_ranges == Seq::new(
                    points.len(),
                    |k: int| SubMeshRange { start: k as u32, count: 1 },
                ),
                vertices@ == upto + bared.take(k as int),
                point_indices@ == point_numbers.take(k as int),
                pointset_ranges@ == point_ranges.take(k as int),
            decreases shape.points.len() - k,
        {
            let base: u32 = vertices.len() as u32;
            vertices.push(Vertex { position: shape.points[k], tex_coords: zero, normal: zero });
            pointset_ranges.push(SubMeshRange { start: point_indices.len() as u32, count: 1 });
            point_indices.push(base);
            proof {
                assert(bared[k as int] == bare(points[k as int]));
                assert(vertices@ =~= upto + bared.take(k + 1));
                assert(point_indices@ =~= point_numbers.take(k + 1));
                assert(pointset_ranges@ =~= point_ranges.take(k + 1));
            }
            k = k + 1;
        }
    }
    proof {
        assert(bared.take(points.len() as int) =~= bared);
        assert(point_numbers.take(points.len() as int) =~= point_numbers);
        assert(point_ranges.take(points.len() as int) =~= point_ranges);
    }
    let mut primitives: Vec<MeshPrimitive> = Vec::new();
    proof {
        assert(primitive_views(primitives@) =~= Seq::empty());
    }
    add_list(&mut primitives, PrimitiveType::TriangleList, face_indices);
    add_list(&mut primitives, PrimitiveType::LineList, edge_indices);
    add_list(&mut primitives, PrimitiveType::PointList, point_indices);
    proof {
        assert(primitive_views(primitives@) =~= lists(
            shape.faces.corners(),
            counted(first_edge, 2 * segment_total(edges)),
            point_numbers,
        ));
    }
    let parts = MeshParts {
        vertices,
        primitives,
        topology: Topology { face_ranges: shape.faces.ranges, edge_ranges: ranges, pointset_ranges },
    };
    proof {
        if include_edges {
            assert forall|e: int, k: int|
                0 <= e < given.edges@.len() && 0 <= k && k + 1
                    < given.edges@[e]@.len() implies #[trigger] parts.runs_between(
                e,
                k,
                given.edges@[e]@[k],
                given.edges@[e]@[k + 1],
            ) by {
                edges_run_from_point_to_point(parts.mesh(), parts, given, include_points, e, k);
            }
        }
    }
    parts
}

/// The mesh of assembled parts, with the box around its vertices.
pub fn mesh_from_parts(id: MeshId, parts: MeshParts, bounds: Option<Aabb>) -> (mesh: Mesh)
    ensures
        mesh@ == (MeshModel {
            id,
            generation: 2,
            vertices: parts.vertices@,
            primitives: primitive_views(parts.primitives@),
            topology: Some(parts.topology@),
            bounds,
        }),
{
    let mut mesh = Mesh::from_raw(id, parts.vertices, parts.primitives, bounds);
    mesh.set_topology(parts.topology);
    mesh
}

} // verus!
