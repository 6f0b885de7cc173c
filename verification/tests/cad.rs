use cgmath::{EuclideanSpace, SquareMatrix, Transform as _};
use duck_scene::common::{
    Aabb, Matrix4, Point3, Quaternion, RgbaColor, Scalar, Transform, Vector3, Vector4,
};
use duck_scene::resource::mesh::{Mesh, PrimitiveType, SubMeshRange};
use duck_scene::resource::handle::{Handle, MeshId, NodeId};
use duck_scene::resource::node::{NodeFlags, NodePayload};
use duck_scene::resource::material::{FaceMaterial, LineMaterial, PointMaterial};
use duck_scene::data::SceneData;
use duck_scene::error::SceneError;
use duck_scene::cad::{classify_shape, CadTessellationOptions, GeometryClass, ShapeType};
use duck_scene::cad::nodes::{
    retessellate_node, retessellation_target, tessellate_into, tessellate_into_with_materials,
    PartIds,
};
use duck_scene::cad::tessellation::{
    edge_sampling, mesh_from_parts, tessellate_occ_shape, EdgeSampling, FaceMesh, Tessellation,
};

fn bits(x: f32) -> Scalar {
    x.to_bits()
}

fn float(x: Scalar) -> f32 {
    f32::from_bits(x)
}

fn point(x: f32, y: f32, z: f32) -> Point3 {
    Point3 { x: bits(x), y: bits(y), z: bits(z) }
}

fn vector(x: f32, y: f32, z: f32) -> Vector3 {
    Vector3 { x: bits(x), y: bits(y), z: bits(z) }
}

fn point_out(p: Point3) -> cgmath::Point3<f32> {
    cgmath::Point3::new(float(p.x), float(p.y), float(p.z))
}

fn point_in(p: cgmath::Point3<f32>) -> Point3 {
    point(p.x, p.y, p.z)
}

fn vector_out(v: Vector3) -> cgmath::Vector3<f32> {
    cgmath::Vector3::new(float(v.x), float(v.y), float(v.z))
}

fn vector_in(v: cgmath::Vector3<f32>) -> Vector3 {
    vector(v.x, v.y, v.z)
}

fn column_out(c: Vector4) -> cgmath::Vector4<f32> {
    cgmath::Vector4::new(float(c.x), float(c.y), float(c.z), float(c.w))
}

fn column_in(c: cgmath::Vector4<f32>) -> Vector4 {
    Vector4 { x: bits(c.x), y: bits(c.y), z: bits(c.z), w: bits(c.w) }
}

fn matrix_out(m: Matrix4) -> cgmath::Matrix4<f32> {
    cgmath::Matrix4::from_cols(
        column_out(m.x),
        column_out(m.y),
        column_out(m.z),
        column_out(m.w),
    )
}

fn matrix_in(m: cgmath::Matrix4<f32>) -> Matrix4 {
    Matrix4 { x: column_in(m.x), y: column_in(m.y), z: column_in(m.z), w: column_in(m.w) }
}

fn quaternion_out(q: Quaternion) -> cgmath::Quaternion<f32> {
    cgmath::Quaternion::from_sv(float(q.s), vector_out(q.v))
}

fn local_matrix(t: Transform) -> cgmath::Matrix4<f32> {
    let scale = vector_out(t.scale);
    cgmath::Matrix4::from_translation(point_out(t.position).to_vec())
        * cgmath::Matrix4::from(quaternion_out(t.rotation))
        * cgmath::Matrix4::from_nonuniform_scale(scale.x, scale.y, scale.z)
}

fn compose(parent: Matrix4, local: Transform) -> Matrix4 {
    matrix_in(matrix_out(parent) * local_matrix(local))
}

fn place(bounds: Aabb, m: Matrix4) -> Aabb {
    let m = matrix_out(m);
    let (lo, hi) = (point_out(bounds.min), point_out(bounds.max));
    let mut out: Option<Aabb> = None;
    for i in 0..8 {
        let corner = cgmath::Point3::new(
            if i & 1 == 0 { lo.x } else { hi.x },
            if i & 2 == 0 { lo.y } else { hi.y },
            if i & 4 == 0 { lo.z } else { hi.z },
        );
        let p = point_in(m.transform_point(corner));
        out = Some(match out {
            Some(b) => merge(b, Aabb { min: p, max: p }),
            None => Aabb { min: p, max: p },
        });
    }
    out.unwrap()
}

fn merge(a: Aabb, b: Aabb) -> Aabb {
    let low = |x: Scalar, y: Scalar| bits(float(x).min(float(y)));
    let high = |x: Scalar, y: Scalar| bits(float(x).max(float(y)));
    Aabb {
        min: Point3 {
            x: low(a.min.x, b.min.x),
            y: low(a.min.y, b.min.y),
            z: low(a.min.z, b.min.z),
        },
        max: Point3 {
            x: high(a.max.x, b.max.x),
            y: high(a.max.y, b.max.y),
            z: high(a.max.z, b.max.z),
        },
    }
}

fn extent(b: Aabb) -> Vector3 {
    vector_in(point_out(b.max) - point_out(b.min))
}

fn class(id: u64) -> CadTessellationOptions {
    CadTessellationOptions::new(id, id + 1)
}

fn default_options() -> CadTessellationOptions {
    class(900)
}

/// The faces of a box around the origin, with the given extent along each axis.
fn box_faces(sx: f32, sy: f32, sz: f32) -> FaceMesh {
    let mut positions = vec![];
    for i in 0..8 {
        let side = |bit: u32, s: f32| if i & bit == 0 { -s / 2.0 } else { s / 2.0 };
        positions.push(point(side(1, sx), side(2, sy), side(4, sz)));
    }
    let quads: [[u64; 4]; 6] = [
        [0, 1, 3, 2],
        [4, 6, 7, 5],
        [0, 4, 5, 1],
        [2, 3, 7, 6],
        [0, 2, 6, 4],
        [1, 5, 7, 3],
    ];
    let mut indices = vec![];
    let mut ranges = vec![];
    for (f, q) in quads.iter().enumerate() {
        indices.extend([q[0], q[1], q[2], q[0], q[2], q[3]]);
        ranges.push(SubMeshRange { start: 2 * f as u32, count: 2 });
    }
    FaceMesh { positions, normals: vec![], uvs: vec![], indices, ranges }
}

fn box_mesh(id: MeshId, sx: f32, sy: f32, sz: f32) -> Mesh {
    let shape = Tessellation { faces: box_faces(sx, sy, sz), edges: vec![], points: vec![] };
    let parts = tessellate_occ_shape(shape, true, true);
    let bounds = Aabb {
        min: point(-sx / 2.0, -sy / 2.0, -sz / 2.0),
        max: point(sx / 2.0, sy / 2.0, sz / 2.0),
    };
    mesh_from_parts(id, parts, Some(bounds))
}

fn part_ids(first: u64) -> PartIds {
    PartIds { face_material: first, line_material: first + 1, instance: first + 2, node: first + 3 }
}

fn add_part(
    scene: &mut SceneData,
    class: GeometryClass,
    options: &CadTessellationOptions,
    first: u64,
) -> NodeId {
    let mesh = box_mesh(first + 4, 2.0, 2.0, 2.0);
    let node =
        tessellate_into(scene, class, mesh, options, part_ids(first), None, None).unwrap();
    let id = node.id();
    scene.release(node);
    scene.reap();
    id
}

fn extent_of(scene: &mut SceneData, node: NodeId) -> V {
    let bounds = scene.nodes_bounding(node, &compose, &place, &merge).bounds.unwrap();
    vector_out(extent(bounds))
}

type V = cgmath::Vector3<f32>;

#[test]
fn sphere_renders_without_seam_or_pole_edges() {
    assert_eq!(edge_sampling(false, true, false), EdgeSampling::Suppressed);
    assert_eq!(edge_sampling(true, false, false), EdgeSampling::Suppressed);
    let shape = Tessellation {
        faces: box_faces(1.0, 1.0, 1.0),
        edges: vec![vec![], vec![], vec![]],
        points: vec![],
    };
    let mesh = mesh_from_parts(1, tessellate_occ_shape(shape, true, false), None);

    let topology = mesh.topology().expect("topology");
    assert_eq!(topology.edge_ranges.len(), 3);
    assert!(topology.edge_ranges.iter().all(|r| r.count == 0));
    assert!(!mesh.has_primitive_type(PrimitiveType::LineList));
}

#[test]
fn cylinder_seam_suppressed_but_rims_kept_and_aligned() {
    let rim = |y: f32| vec![point(0.5, y, 0.0), point(0.0, y, 0.5), point(-0.5, y, 0.0)];
    let shape = Tessellation {
        faces: box_faces(1.0, 2.0, 1.0),
        edges: vec![rim(0.0), vec![], rim(2.0)],
        points: vec![],
    };
    let mesh = mesh_from_parts(1, tessellate_occ_shape(shape, true, false), None);

    let topology = mesh.topology().expect("topology");
    assert_eq!(
        topology.edge_ranges,
        vec![
            SubMeshRange { start: 0, count: 2 },
            SubMeshRange { start: 2, count: 0 },
            SubMeshRange { start: 2, count: 2 },
        ]
    );
    let rendered = topology.edge_ranges.iter().filter(|r| r.count > 0).count();
    assert_eq!(rendered, 2, "both rim circles must render");
    assert_eq!(mesh.index_count(PrimitiveType::LineList), 8);
}

#[test]
fn each_part_gets_distinct_materials() {
    let options = default_options();
    let mut scene = SceneData::new();
    for i in 0..3 {
        add_part(&mut scene, GeometryClass::Solid, &options, 10 * (i + 1));
    }
    assert_eq!(scene.face_material_count(), 3);
    assert_eq!(scene.line_material_count(), 3);
}

fn free_face() -> RgbaColor {
    RgbaColor { r: bits(0.42), g: bits(0.68), b: bits(0.92), a: bits(1.0) }
}

fn free_line() -> RgbaColor {
    RgbaColor { r: bits(0.16), g: bits(0.40), b: bits(0.78), a: bits(1.0) }
}

/// Distinctly-colored free templates, so that the class of a part is readable from the
/// colors its instance ended up with.
fn classified_options() -> CadTessellationOptions {
    let mut options = default_options();
    options.free_face_material = Some(FaceMaterial::new(902).with_base_color_factor(free_face()));
    options.free_line_material = Some(LineMaterial::new(903, free_line()));
    options
}

fn node_colors(scene: &SceneData, node: NodeId) -> (RgbaColor, RgbaColor) {
    let NodePayload::Instance(instance) = &scene.get_node(node).unwrap().payload else {
        panic!("expected instance payload");
    };
    let instance = scene.get_instance(instance.id()).unwrap();
    let face = scene.get_face_material(instance.face_material().unwrap()).unwrap();
    let line = scene.get_line_material(instance.line_material().unwrap()).unwrap();
    (face.parts().base_color_factor, line.parts().color)
}

#[test]
fn classify_shape_separates_bodies_from_free_geometry() {
    assert_eq!(classify_shape(ShapeType::Solid, true, true), GeometryClass::Solid);
    assert_eq!(classify_shape(ShapeType::Wire, false, false), GeometryClass::Free);
    assert_eq!(classify_shape(ShapeType::Face, false, false), GeometryClass::Free);
}

#[test]
fn a_lofted_shell_is_a_body_not_free_geometry() {
    assert_eq!(classify_shape(ShapeType::Shell, false, true), GeometryClass::Solid);
}

#[test]
fn compound_classification_follows_its_contents() {
    assert_eq!(classify_shape(ShapeType::Compound, false, false), GeometryClass::Free);
    assert_eq!(classify_shape(ShapeType::Compound, true, true), GeometryClass::Solid);
}

#[test]
fn free_shapes_use_the_free_materials() {
    let options = classified_options();
    let mut scene = SceneData::new();
    for (i, kind) in [ShapeType::Wire, ShapeType::Face].into_iter().enumerate() {
        let class = classify_shape(kind, false, false);
        let node = add_part(&mut scene, class, &options, 10 * (i as u64 + 1));
        assert_eq!(node_colors(&scene, node), (free_face(), free_line()));
    }
}

#[test]
fn solids_use_the_default_materials() {
    let options = classified_options();
    let mut scene = SceneData::new();
    let class = classify_shape(ShapeType::Solid, true, true);
    let node = add_part(&mut scene, class, &options, 10);

    let (face, line) = node_colors(&scene, node);
    assert_eq!(face, options.face_material.parts().base_color_factor);
    assert_eq!(line, options.line_material.parts().color);
}

#[test]
fn unset_free_materials_fall_back_to_the_defaults() {
    let options = default_options();
    let mut scene = SceneData::new();
    let node = add_part(&mut scene, GeometryClass::Free, &options, 10);

    let (face, line) = node_colors(&scene, node);
    assert_eq!(face, options.face_material.parts().base_color_factor);
    assert_eq!(line, options.line_material.parts().color);
}

#[test]
fn retessellate_node_preserves_node_id_and_updates_geometry() {
    let options = default_options();
    let mut scene = SceneData::new();
    let node = add_part(&mut scene, GeometryClass::Solid, &options, 10);
    assert!((extent_of(&mut scene, node).x - 2.0).abs() < 1e-3);

    retessellate_node(&mut scene, box_mesh(50, 6.0, 2.0, 2.0), 51, node).unwrap();
    scene.reap();

    assert!(scene.get_node(node).is_some(), "node id must be preserved");
    assert_eq!(scene.mesh_count(), 1, "old mesh should be removed");
    assert_eq!(scene.instance_count(), 1, "old instance should be removed");
    let ax = extent_of(&mut scene, node).x;
    assert!((ax - 6.0).abs() < 1e-3, "expected X extent ~6 after retess, got {ax}");
}

#[test]
fn retessellate_node_keeps_shared_instance_and_mesh() {
    let options = default_options();
    let mut scene = SceneData::new();
    let node1 = add_part(&mut scene, GeometryClass::Solid, &options, 10);

    let instance_id = retessellation_target(&scene, node1).unwrap();
    let mesh_id = scene.get_instance(instance_id).unwrap().mesh();

    let instance = scene.instance_handle(instance_id).unwrap();
    let node2 = scene
        .add_node(60, None, None, Transform::identity(), NodeFlags::none())
        .unwrap();
    scene.set_node_payload(node2.id(), NodePayload::Instance(instance));

    retessellate_node(&mut scene, box_mesh(50, 6.0, 2.0, 2.0), 51, node1).unwrap();
    scene.reap();

    assert!(scene.get_instance(instance_id).is_some(), "shared instance must survive");
    assert!(scene.get_mesh(mesh_id).is_some(), "shared mesh must survive");

    let sx = extent_of(&mut scene, node1).x;
    assert!((sx - 6.0).abs() < 1e-3, "expected X extent ~6, got {sx}");
}

#[test]
fn retessellating_reuses_every_material_slot() {
    let options = default_options();
    let mut scene = SceneData::new();
    let node = add_part(&mut scene, GeometryClass::Solid, &options, 10);
    let before = retessellation_target(&scene, node).unwrap();
    let point = scene.add_point_material(PointMaterial::new(70, RgbaColor::white()));
    scene.get_instance_mut(before).unwrap().set_point_material(Some(point));
    let face = scene.get_instance(before).unwrap().face_material();
    let line = scene.get_instance(before).unwrap().line_material();

    retessellate_node(&mut scene, box_mesh(50, 6.0, 2.0, 2.0), 51, node).unwrap();
    scene.reap();

    let after = scene.get_instance(51).unwrap();
    assert!(scene.get_instance(before).is_none());
    assert_eq!(after.face_material(), face);
    assert_eq!(after.line_material(), line);
    assert_eq!(after.point_material(), Some(70));
    assert_eq!(scene.point_material_count(), 1);
    scene.remove_node(node);
    assert_eq!(scene.point_material_count(), 0);
}

#[test]
fn retessellating_needs_an_instance() {
    let mut scene = SceneData::new();
    let missing = retessellate_node(&mut scene, box_mesh(50, 1.0, 1.0, 1.0), 51, 7);
    assert_eq!(missing, Err(SceneError::NodeNotFound(7)));
    let node = scene
        .add_node(8, None, None, Transform::identity(), NodeFlags::none())
        .unwrap();
    let empty = retessellate_node(&mut scene, box_mesh(50, 1.0, 1.0, 1.0), 51, node.id());
    assert_eq!(empty, Err(SceneError::NoInstance(8)));
    scene.set_node_payload(8, NodePayload::Instance(Handle::unbound(99)));
    assert_eq!(retessellation_target(&scene, 8), Err(SceneError::InstanceNotFound(99)));
}

#[test]
fn assembled_parts_share_one_vertex_list() {
    let shape = Tessellation {
        faces: box_faces(1.0, 1.0, 1.0),
        edges: vec![vec![point(0.0, 0.0, 0.0), point(1.0, 0.0, 0.0)]],
        points: vec![point(0.0, 1.0, 0.0)],
    };
    let parts = tessellate_occ_shape(shape, true, true);
    assert_eq!(parts.vertices.len(), 8 + 2 + 1);
    assert_eq!(parts.topology.face_ranges.len(), 6);
    assert_eq!(parts.topology.edge_ranges, vec![SubMeshRange { start: 0, count: 1 }]);
    assert_eq!(parts.topology.pointset_ranges, vec![SubMeshRange { start: 0, count: 1 }]);
    let mesh = mesh_from_parts(1, parts, None);
    assert!(mesh.has_valid_indices());
    assert_eq!(mesh.index_count(PrimitiveType::TriangleList), 36);
    assert_eq!(mesh.index_count(PrimitiveType::LineList), 2);
    assert_eq!(mesh.index_count(PrimitiveType::PointList), 1);
    assert_eq!(mesh.segment(0).unwrap().b, point(1.0, 0.0, 0.0));
}

#[test]
fn straight_edges_need_only_their_ends() {
    assert_eq!(edge_sampling(false, false, true), EdgeSampling::Ends);
    assert_eq!(edge_sampling(false, false, false), EdgeSampling::Approximation);
}

#[test]
fn a_part_below_a_missing_parent_is_refused() {
    let mut scene = SceneData::new();
    let mesh = box_mesh(4, 1.0, 1.0, 1.0);
    let options = default_options();
    let refused = tessellate_into(
        &mut scene,
        GeometryClass::Solid,
        mesh,
        &options,
        part_ids(10),
        Some(77),
        None,
    );
    assert_eq!(refused.err(), Some(SceneError::ParentNotFound(77)));
}

#[test]
fn shared_materials_are_not_copied() {
    let mut scene = SceneData::new();
    let face = scene.add_face_material(FaceMaterial::new(1));
    let line = scene.add_line_material(LineMaterial::new(2, RgbaColor::black()));
    for i in 0..2 {
        let first = 10 * (i + 1);
        let mesh = box_mesh(first, 1.0, 1.0, 1.0);
        tessellate_into_with_materials(
            &mut scene,
            mesh,
            first + 1,
            first + 2,
            &face,
            &line,
            None,
            Some("part".to_string()),
        )
        .unwrap();
    }
    assert_eq!(scene.face_material_count(), 1);
    assert_eq!(scene.strong_count(&face), 3);
    assert_eq!(scene.strong_count(&line), 3);
    assert_eq!(scene.get_node(12).unwrap().name.as_deref(), Some("part"));
}
