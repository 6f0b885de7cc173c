use cgmath::{EuclideanSpace, InnerSpace, Matrix, Rotation3, SquareMatrix};
use duck_scene::common::{
    Aabb, Matrix3, Matrix4, Point3, Quaternion, RgbaColor, Scalar, Transform, Vector3, Vector4,
};
use duck_scene::resource::mesh::{
    Mesh, MeshPrimitive, PrimitiveType, SubMeshRange, Topology, Vertex,
};
use duck_scene::resource::handle::{InstanceId, MeshId, NodeId};
use duck_scene::resource::instance::Instance;
use duck_scene::resource::node::{NodeFlags, Visibility};
use duck_scene::resource::display::{DisplayBehavior, DisplayMath, RenderLayer};
use duck_scene::resource::material::{AlphaMode, FaceMaterial, MaterialProperties};
use duck_scene::camera::{CameraProjection, PositionedCamera};
use duck_scene::geom_query::pick_query::PickView;
use duck_scene::data::SceneData;
use duck_scene::renderer::batching::{
    collect_draw_batches, partition_batches, BatchKey, BatchMaterial, DrawBatch,
};
use duck_scene::renderer::draw_data::{DrawData, DrawMath, Highlight, HighlightConfig, NodeElements};
use duck_scene::renderer::frame::{collect_scene_frame_data, FrameMath, InstanceTransform};
use duck_scene::renderer::transparency::{
    apply_screen_space_transforms, sort_batches_for_transparency,
};

fn bits(x: f32) -> Scalar {
    x.to_bits()
}

fn float(x: Scalar) -> f32 {
    f32::from_bits(x)
}

fn point(x: f32, y: f32, z: f32) -> Point3 {
    Point3 { x: bits(x), y: bits(y), z: bits(z) }
}

fn vector(x: f32, y: f32, z: f32) -> Vector3 {
    Vector3 { x: bits(x), y: bits(y), z: bits(z) }
}

fn point_out(p: Point3) -> cgmath::Point3<f32> {
    cgmath::Point3::new(float(p.x), float(p.y), float(p.z))
}

fn point_in(p: cgmath::Point3<f32>) -> Point3 {
    point(p.x, p.y, p.z)
}

fn vector_out(v: Vector3) -> cgmath::Vector3<f32> {
    cgmath::Vector3::new(float(v.x), float(v.y), float(v.z))
}

fn vector_in(v: cgmath::Vector3<f32>) -> Vector3 {
    vector(v.x, v.y, v.z)
}

fn column_out(c: Vector4) -> cgmath::Vector4<f32> {
    cgmath::Vector4::new(float(c.x), float(c.y), float(c.z), float(c.w))
}

fn column_in(c: cgmath::Vector4<f32>) -> Vector4 {
    Vector4 { x: bits(c.x), y: bits(c.y), z: bits(c.z), w: bits(c.w) }
}

fn matrix_out(m: Matrix4) -> cgmath::Matrix4<f32> {
    cgmath::Matrix4::from_cols(
        column_out(m.x),
        column_out(m.y),
        column_out(m.z),
        column_out(m.w),
    )
}

fn matrix_in(m: cgmath::Matrix4<f32>) -> Matrix4 {
    Matrix4 { x: column_in(m.x), y: column_in(m.y), z: column_in(m.z), w: column_in(m.w) }
}

fn quaternion_out(q: Quaternion) -> cgmath::Quaternion<f32> {
    cgmath::Quaternion::from_sv(float(q.s), vector_out(q.v))
}

fn local_matrix(t: Transform) -> cgmath::Matrix4<f32> {
    let scale = vector_out(t.scale);
    cgmath::Matrix4::from_translation(point_out(t.position).to_vec())
        * cgmath::Matrix4::from(quaternion_out(t.rotation))
        * cgmath::Matrix4::from_nonuniform_scale(scale.x, scale.y, scale.z)
}

fn compose(parent: Matrix4, local: Transform) -> Matrix4 {
    matrix_in(matrix_out(parent) * local_matrix(local))
}

fn placed_at(x: f32, y: f32, z: f32) -> Transform {
    Transform::from_position(point(x, y, z))
}

fn length2(v: Vector3) -> Scalar {
    bits(vector_out(v).magnitude2())
}

fn length(v: Vector3) -> Scalar {
    bits(vector_out(v).magnitude())
}

fn unit(v: Vector3) -> Vector3 {
    vector_in(vector_out(v).normalize())
}

fn normal_matrix(m: Matrix4) -> Matrix3 {
    let m = matrix_out(m);
    let upper = cgmath::Matrix3::from_cols(m.x.truncate(), m.y.truncate(), m.z.truncate());
    let n = match upper.invert() {
        Some(inverse) => inverse.transpose(),
        None => cgmath::Matrix3::identity(),
    };
    Matrix3 { x: vector_in(n.x), y: vector_in(n.y), z: vector_in(n.z) }
}

fn center(b: Aabb) -> Point3 {
    point_in(point_out(b.min).midpoint(point_out(b.max)))
}

fn depth(p: Point3, camera: PositionedCamera) -> Scalar {
    let ahead = vector_out(ahead(camera));
    bits((point_out(p) - point_out(camera.eye)).dot(ahead))
}

fn ahead(camera: PositionedCamera) -> Vector3 {
    vector_in((point_out(camera.target) - point_out(camera.eye)).normalize())
}

fn distance(a: Point3, b: Point3) -> Scalar {
    bits((point_out(b) - point_out(a)).magnitude())
}

fn pixel(depth: Scalar, fovy: Scalar, height: u32) -> Scalar {
    let half = cgmath::Rad::from(cgmath::Deg(float(fovy))).0 / 2.0;
    bits(2.0 * float(depth) * half.tan() / height as f32)
}

fn effective(display: DisplayBehavior, world: Matrix4, view: PickView) -> Matrix4 {
    let math = DisplayMath {
        toward: |a: Point3, b: Point3| vector_in(point_out(b) - point_out(a)),
        ahead,
        length2,
        length,
        unit,
        cross: |a: Vector3, b: Vector3| vector_in(vector_out(a).cross(vector_out(b))),
        scaled: |v: Vector3, s: Scalar| vector_in(vector_out(v) * float(s)),
        depth,
        distance,
        pixel,
        times: |a: Scalar, b: Scalar| bits(float(a) * float(b)),
    };
    display.effective_transform(world, &view.camera, view.height, &math)
}

fn camera_at(eye: Point3) -> PositionedCamera {
    PositionedCamera {
        eye,
        target: point(0.0, 0.0, 0.0),
        up: vector(0.0, 1.0, 0.0),
        aspect: bits(1.0),
        projection: CameraProjection {
            fovy: bits(45.0),
            znear: bits(0.1),
            zfar: bits(100.0),
            ortho: false,
        },
    }
}

fn test_view() -> PickView {
    PickView { camera: camera_at(point(0.0, 0.0, 5.0)), width: 256, height: 256 }
}

fn gather(sum: Point3, m: Matrix4) -> Point3 {
    point_in(point_out(sum) + matrix_out(m).w.truncate())
}

fn measure(sum: Point3, count: u64, camera: Point3) -> Scalar {
    let center = point_out(sum) / count as f32;
    bits((center - point_out(camera)).magnitude2())
}

fn draw_data(
    scene: &mut SceneData,
    view: PickView,
    highlight: Option<&Highlight>,
) -> DrawData {
    let math = DrawMath {
        frame: FrameMath { compose, normal: normal_matrix, length2, unit },
        gather,
        measure,
        effective,
    };
    DrawData::new(scene, view, highlight, &math)
}

fn flat_mesh(id: MeshId) -> Mesh {
    let corner = Vertex {
        position: point(0.0, 0.0, 0.0),
        tex_coords: vector(0.0, 0.0, 0.0),
        normal: vector(0.0, 0.0, 1.0),
    };
    let primitives = vec![MeshPrimitive {
        primitive_type: PrimitiveType::TriangleList,
        indices: vec![0, 1, 2],
    }];
    let bounds = Aabb { min: point(0.0, 0.0, 0.0), max: point(0.0, 0.0, 0.0) };
    Mesh::from_raw(id, vec![corner, corner, corner], primitives, Some(bounds))
}

const EPSILON: f32 = 1e-6;

fn face(id: u64) -> BatchMaterial {
    BatchMaterial::Face(id)
}

fn instance_transform(node: NodeId, instance: InstanceId, m: Matrix4) -> InstanceTransform {
    InstanceTransform::new(node, instance, m, &normal_matrix)
}

fn plain(node: NodeId, instance: InstanceId) -> InstanceTransform {
    instance_transform(node, instance, Matrix4::identity())
}

fn scaled(s: f32) -> Matrix4 {
    matrix_in(cgmath::Matrix4::from_scale(s))
}

fn moved(x: f32, y: f32, z: f32) -> Matrix4 {
    matrix_in(cgmath::Matrix4::from_translation(cgmath::Vector3::new(x, y, z)))
}

fn normal_rows(instance: &InstanceTransform) -> [[f32; 3]; 3] {
    let n = instance.normal_matrix;
    let row = |v: Vector3| [float(v.x), float(v.y), float(v.z)];
    [row(n.x), row(n.y), row(n.z)]
}

fn world_rows(instance: &InstanceTransform) -> [[f32; 4]; 4] {
    matrix_out(instance.world_transform).into()
}

#[test]
fn test_instance_transform_creation() {
    let transform = scaled(2.0);
    let instance = instance_transform(1, 2, transform);

    assert_eq!(instance.node_id, 1);
    assert_eq!(instance.instance_id, 2);
    assert_eq!(instance.world_transform, transform);
}

#[test]
fn test_instance_transform_identity() {
    let instance = plain(1, 2);
    let world = world_rows(&instance);
    for i in 0..4 {
        for j in 0..4 {
            if i == j {
                assert_eq!(world[i][j], 1.0);
            } else {
                assert_eq!(world[i][j], 0.0);
            }
        }
    }
    let normal = normal_rows(&instance);
    for i in 0..3 {
        for j in 0..3 {
            if i == j {
                assert_eq!(normal[i][j], 1.0);
            } else {
                assert_eq!(normal[i][j], 0.0);
            }
        }
    }
}

#[test]
fn test_instance_transform_normal_matrix_computed() {
    let normal = normal_rows(&instance_transform(1, 2, scaled(2.0)));
    assert!((normal[0][0] - 0.5).abs() < EPSILON);
    assert!((normal[1][1] - 0.5).abs() < EPSILON);
    assert!((normal[2][2] - 0.5).abs() < EPSILON);
}

#[test]
fn test_instance_transform_translation() {
    let instance = instance_transform(1, 2, moved(5.0, 10.0, 15.0));
    let world = world_rows(&instance);
    assert_eq!(world[3][0], 5.0);
    assert_eq!(world[3][1], 10.0);
    assert_eq!(world[3][2], 15.0);

    let normal = normal_rows(&instance);
    assert_eq!(normal[0][0], 1.0);
    assert_eq!(normal[1][1], 1.0);
    assert_eq!(normal[2][2], 1.0);
}

#[test]
fn test_instance_transform_rotation() {
    let rotation = cgmath::Quaternion::from_angle_z(cgmath::Deg(90.0));
    let instance = instance_transform(1, 2, matrix_in(cgmath::Matrix4::from(rotation)));
    let normal = normal_rows(&instance);
    let x = normal[0][0] * 1.0 + normal[1][0] * 0.0 + normal[2][0] * 0.0;
    let y = normal[0][1] * 1.0 + normal[1][1] * 0.0 + normal[2][1] * 0.0;

    assert!(x.abs() < EPSILON);
    assert!((y - 1.0).abs() < EPSILON);
}

#[test]
fn test_instance_transform_non_uniform_scale() {
    let transform = matrix_in(cgmath::Matrix4::from_nonuniform_scale(2.0, 3.0, 4.0));
    let normal = normal_rows(&instance_transform(1, 2, transform));
    assert!((normal[0][0] - 0.5).abs() < EPSILON);
    assert!((normal[1][1] - 1.0 / 3.0).abs() < EPSILON);
    assert!((normal[2][2] - 0.25).abs() < EPSILON);
}

#[test]
fn test_instance_transform_different_instances_different_ids() {
    let instance1 = plain(1, 11);
    let instance2 = plain(2, 12);
    let instance3 = plain(3, 13);

    assert_ne!(instance1.instance_id, instance2.instance_id);
    assert_ne!(instance1.instance_id, instance3.instance_id);
    assert_ne!(instance2.instance_id, instance3.instance_id);
}

#[test]
fn test_instance_transform_with_complex_transform() {
    let translation = cgmath::Matrix4::from_translation(cgmath::Vector3::new(10.0, 20.0, 30.0));
    let rotation =
        cgmath::Matrix4::from(cgmath::Quaternion::from_angle_y(cgmath::Deg(45.0f32)));
    let scale = cgmath::Matrix4::from_scale(2.0);
    let transform = matrix_in(translation * rotation * scale);

    let instance = instance_transform(3, 4, transform);
    assert_eq!(instance.node_id, 3);
    assert_eq!(instance.instance_id, 4);
    assert_eq!(instance.world_transform, transform);

    assert_eq!(instance.normal_matrix, normal_matrix(transform));
    assert_eq!(instance.effective_transform, transform);
    assert_eq!(instance.effective_normal_matrix, instance.normal_matrix);
}

#[test]
fn test_draw_batch_new() {
    let batch = DrawBatch::new(1, face(2), PrimitiveType::TriangleList, 3);

    assert_eq!(batch.mesh_id, 1);
    assert_eq!(batch.material, face(2));
    assert_eq!(batch.primitive_type, PrimitiveType::TriangleList);
    assert!(batch.is_empty());
    assert_eq!(batch.len(), 0);
}

#[test]
fn test_draw_batch_add_instance() {
    let mut batch = DrawBatch::new(1, face(2), PrimitiveType::TriangleList, 3);
    batch.add_instance(plain(5, 6));

    assert!(!batch.is_empty());
    assert_eq!(batch.len(), 1);
    assert_eq!(batch.instances[0].instance_id, 6);
}

#[test]
fn test_draw_batch_add_multiple_instances() {
    let mut batch = DrawBatch::new(1, face(2), PrimitiveType::TriangleList, 3);
    let instance_ids: Vec<InstanceId> = (0..5).map(|i| 100 + i).collect();

    for &id in &instance_ids {
        batch.add_instance(plain(id + 100, id));
    }

    assert_eq!(batch.len(), 5);
    assert!(!batch.is_empty());

    for (i, &expected_id) in instance_ids.iter().enumerate() {
        assert_eq!(batch.instances[i].instance_id, expected_id);
    }
}

#[test]
fn test_draw_batch_mesh_material_ids() {
    let batch1 = DrawBatch::new(1, face(2), PrimitiveType::TriangleList, 3);
    let batch2 = DrawBatch::new(3, face(4), PrimitiveType::LineList, 2);

    assert_eq!(batch1.mesh_id, 1);
    assert_eq!(batch1.material, face(2));
    assert_eq!(batch1.primitive_type, PrimitiveType::TriangleList);

    assert_eq!(batch2.mesh_id, 3);
    assert_eq!(batch2.material, face(4));
    assert_eq!(batch2.primitive_type, PrimitiveType::LineList);
}

#[test]
fn test_draw_batch_instance_count() {
    let mut batch = DrawBatch::new(1, face(2), PrimitiveType::TriangleList, 3);
    assert_eq!(batch.len(), 0);

    batch.add_instance(plain(1, 11));
    assert_eq!(batch.len(), 1);

    batch.add_instance(plain(2, 12));
    assert_eq!(batch.len(), 2);

    batch.add_instance(plain(3, 13));
    assert_eq!(batch.len(), 3);
}

#[test]
fn test_draw_batch_instances_with_different_transforms() {
    let mut batch = DrawBatch::new(1, face(2), PrimitiveType::TriangleList, 3);
    let transform1 = scaled(1.0);
    let transform2 = scaled(2.0);
    let transform3 = moved(5.0, 0.0, 0.0);

    batch.add_instance(instance_transform(1, 11, transform1));
    batch.add_instance(instance_transform(2, 12, transform2));
    batch.add_instance(instance_transform(3, 13, transform3));

    assert_eq!(batch.len(), 3);
    assert_eq!(batch.instances[0].world_transform, transform1);
    assert_eq!(batch.instances[1].world_transform, transform2);
    assert_eq!(batch.instances[2].world_transform, transform3);
}

#[test]
fn test_draw_batch_large_number_of_instances() {
    let mut batch = DrawBatch::new(1, face(2), PrimitiveType::TriangleList, 3);

    for i in 0..1000 {
        batch.add_instance(plain(i, i + 1000));
    }

    assert_eq!(batch.len(), 1000);
    assert!(!batch.is_empty());
}

#[test]
fn test_partition_batches_empty() {
    let batches: Vec<DrawBatch> = vec![];
    let (matched, unmatched) = partition_batches(&batches, &|_: InstanceTransform| true);
    assert!(matched.is_empty());
    assert!(unmatched.is_empty());
}

#[test]
fn test_partition_batches_all_match() {
    let mut batch = DrawBatch::new(1, face(2), PrimitiveType::TriangleList, 3);
    batch.add_instance(plain(1, 11));
    batch.add_instance(plain(2, 12));

    let (matched, unmatched) = partition_batches(&vec![batch], &|_: InstanceTransform| true);
    assert_eq!(matched.len(), 1);
    assert_eq!(matched[0].instances.len(), 2);
    assert!(unmatched.is_empty());
}

#[test]
fn test_partition_batches_none_match() {
    let mut batch = DrawBatch::new(1, face(2), PrimitiveType::TriangleList, 3);
    batch.add_instance(plain(1, 11));
    batch.add_instance(plain(2, 12));

    let (matched, unmatched) = partition_batches(&vec![batch], &|_: InstanceTransform| false);
    assert!(matched.is_empty());
    assert_eq!(unmatched.len(), 1);
    assert_eq!(unmatched[0].instances.len(), 2);
}

#[test]
fn test_partition_batches_split() {
    let match_id: NodeId = 2;
    let mut batch = DrawBatch::new(1, face(2), PrimitiveType::TriangleList, 3);
    batch.add_instance(plain(1, 11));
    batch.add_instance(plain(2, 12));
    batch.add_instance(plain(3, 13));

    let (matched, unmatched) =
        partition_batches(&vec![batch], &|inst: InstanceTransform| inst.node_id == match_id);

    assert_eq!(matched.len(), 1);
    assert_eq!(matched[0].instances.len(), 1);
    assert_eq!(matched[0].instances[0].node_id, match_id);

    assert_eq!(unmatched.len(), 1);
    assert_eq!(unmatched[0].instances.len(), 2);
}

#[test]
fn test_partition_batches_preserves_index_count() {
    let mut batch = DrawBatch::new(1, face(2), PrimitiveType::TriangleList, 42);
    batch.add_instance(plain(1, 11));
    batch.add_instance(plain(2, 12));

    let (matched, unmatched) =
        partition_batches(&vec![batch], &|inst: InstanceTransform| inst.node_id == 1);

    assert_eq!(matched[0].index_count, 42);
    assert_eq!(unmatched[0].index_count, 42);
}

fn outlined(nodes: Vec<NodeId>) -> Highlight {
    let config = HighlightConfig {
        color: RgbaColor::white(),
        width_pixels: bits(2.0),
    };
    Highlight {
        is_empty: nodes.is_empty(),
        primary_outlined_node: nodes.first().copied(),
        secondary_config: if nodes.len() > 1 { Some(config) } else { None },
        outlined_nodes: nodes,
        faces: vec![],
        edges: vec![],
        points: vec![],
        primary_sub_geometry: None,
        config,
    }
}

fn empty_mesh(id: MeshId) -> Mesh {
    Mesh::from_raw(id, vec![], vec![], None)
}

/// A scene with one instance node: an empty mesh and a default material.
fn build_simple_scene() -> (SceneData, NodeId) {
    let mut scene = SceneData::new();
    let mesh = scene.add_mesh(empty_mesh(1));
    let material = scene.add_face_material(FaceMaterial::new(2));
    let node = scene
        .add_instance_node(
            4,
            None,
            Instance::new(3, mesh).with_face_material(material),
            None,
            Transform::identity(),
            NodeFlags::none(),
        )
        .unwrap()
        .id();
    (scene, node)
}

#[test]
fn test_draw_data_no_highlight() {
    let mut scene = SceneData::new();
    let data = draw_data(&mut scene, test_view(), None);

    assert!(data.all_batches().is_empty());
    assert!(data.highlighted_batches().is_empty());
    assert!(!data.has_highlights());
}

#[test]
fn test_draw_data_empty_highlight() {
    let (mut scene, _) = build_simple_scene();
    let data = draw_data(&mut scene, test_view(), Some(&outlined(vec![])));

    assert!(!data.has_highlights());
    assert!(data.highlighted_batches().is_empty());
}

#[test]
fn test_draw_data_with_highlight() {
    let (mut scene, node) = build_simple_scene();
    let data = draw_data(&mut scene, test_view(), Some(&outlined(vec![node])));

    assert!(!data.has_highlights() || !data.highlighted_batches().is_empty());
}

/// A scene with two nodes that draw the same mesh with the same material.
fn two_nodes(second: Transform) -> (SceneData, NodeId, NodeId) {
    let mut scene = SceneData::new();
    let mesh = scene.add_mesh(flat_mesh(1));
    let material = scene.add_face_material(FaceMaterial::new(2));
    let mesh_copy = scene.retain(&mesh);
    let material_copy = scene.retain(&material);
    let a = scene
        .add_instance_node(
            5,
            None,
            Instance::new(3, mesh_copy).with_face_material(material_copy),
            None,
            Transform::identity(),
            NodeFlags::none(),
        )
        .unwrap()
        .id();
    let b = scene
        .add_instance_node(
            6,
            None,
            Instance::new(4, mesh).with_face_material(material),
            None,
            second,
            NodeFlags::none(),
        )
        .unwrap()
        .id();
    (scene, a, b)
}

#[test]
fn test_overlay_partition_is_per_instance() {
    let (mut scene, _scene_node, overlay_node) = two_nodes(Transform::identity());
    scene.set_node_display(
        overlay_node,
        DisplayBehavior { layer: RenderLayer::Overlay, ..Default::default() },
    );

    let data = draw_data(&mut scene, test_view(), None);

    let overlay_instances: usize = data.overlay_batches().iter().map(|b| b.len()).sum();
    let normal_instances: usize = data.all_batches().iter().map(|b| b.len()).sum();
    assert_eq!(overlay_instances, 1, "overlay node should produce one overlay instance");
    assert_eq!(normal_instances, 1, "scene node should produce one normal instance");
    assert!(data.has_overlay());

    let overlay_node_ids: Vec<NodeId> = data
        .overlay_batches()
        .iter()
        .flat_map(|b| b.instances.iter().map(|i| i.node_id))
        .collect();
    assert_eq!(overlay_node_ids, vec![overlay_node]);
}

#[test]
fn test_billboard_effective_transform() {
    let mut scene = SceneData::new();
    let mesh = scene.add_mesh(flat_mesh(1));
    let material = scene.add_face_material(FaceMaterial::new(2));

    let p = cgmath::Point3::new(5.0, 0.0, 0.0);
    let node = scene
        .add_instance_node(
            4,
            None,
            Instance::new(3, mesh).with_face_material(material),
            None,
            Transform::from_position(point_in(p)),
            NodeFlags::none(),
        )
        .unwrap()
        .id();
    scene.set_node_display(
        node,
        DisplayBehavior { screen_facing: true, ..Default::default() },
    );

    let view = test_view();
    let data = draw_data(&mut scene, view, None);

    let inst = data.all_batches()[0].instances[0];
    let m = matrix_out(inst.effective_transform);
    let right = m.x.truncate();
    let up = m.y.truncate();
    let fwd = m.z.truncate();

    assert!((m.w.truncate() - p.to_vec()).magnitude() < EPSILON);

    let expected_fwd = (point_out(view.camera.eye) - p).normalize();
    assert!((fwd - expected_fwd).magnitude() < EPSILON);

    for c in [right, up, fwd] {
        assert!((c.magnitude() - 1.0).abs() < EPSILON);
    }
    assert!(right.dot(up).abs() < EPSILON);
    assert!(right.dot(fwd).abs() < EPSILON);
    assert!(up.dot(fwd).abs() < EPSILON);

    assert!((right.cross(up) - fwd).magnitude() < EPSILON);
    assert!(right.dot(vector_out(view.camera.up)).abs() < EPSILON);

    assert!((matrix_out(inst.world_transform).w.truncate() - p.to_vec()).magnitude() < EPSILON);
}

#[test]
fn instances_of_one_mesh_and_material_share_a_batch() {
    let (mut scene, a, b) = two_nodes(placed_at(2.0, 0.0, 0.0));
    let math = FrameMath { compose, normal: normal_matrix, length2, unit };
    let batches = collect_draw_batches(&mut scene, &math);
    assert_eq!(batches.len(), 1);
    assert_eq!(batches[0].key(), BatchKey { mesh_id: 1, material: face(2) });
    assert_eq!(batches[0].index_count, 3);
    assert!(!batches[0].is_transparent());
    let nodes: Vec<NodeId> = batches[0].instances.iter().map(|i| i.node_id).collect();
    assert_eq!(nodes, vec![a, b]);
}

#[test]
fn outlined_nodes_are_drawn_again() {
    let (mut scene, a, b) = two_nodes(Transform::identity());
    let highlight = outlined(vec![b, a]);
    let data = draw_data(&mut scene, test_view(), Some(&highlight));
    assert!(data.has_highlights());
    assert!(data.has_node_highlights());
    assert!(!data.has_sub_geom_highlights());
    assert_eq!(data.highlighted_batches()[0].instances[0].node_id, b);
    assert_eq!(data.secondary_highlighted_batches()[0].instances[0].node_id, a);
    assert_eq!(data.highlight_config(), Some(highlight.config));
    assert_eq!(data.secondary_highlight_config(), highlight.secondary_config);
}

#[test]
fn invisible_nodes_are_not_drawn() {
    let (mut scene, a, b) = two_nodes(Transform::identity());
    scene.set_node_visibility(a, Visibility::Invisible);
    let math = FrameMath { compose, normal: normal_matrix, length2, unit };
    let data = collect_scene_frame_data(&mut scene, &math);
    let nodes: Vec<NodeId> = data.instance_transforms.iter().map(|i| i.node_id).collect();
    assert_eq!(nodes, vec![b]);
}

#[test]
fn blended_batches_are_drawn_far_to_near() {
    let props = MaterialProperties {
        alpha_mode: AlphaMode::Blend,
        ..MaterialProperties::unlit_opaque()
    };
    let batch = |id: u64, z: f32, blended: bool| {
        let mut batch = DrawBatch::new(id, face(2), PrimitiveType::TriangleList, 3);
        if blended {
            batch = batch.with_material_props(props);
        }
        batch.add_instance(instance_transform(id, id + 10, moved(0.0, 0.0, z)));
        batch
    };
    let mut batches = vec![
        batch(1, 4.0, true),
        batch(2, -4.0, true),
        batch(3, 9.0, false),
        batch(4, 0.0, true),
        batch(5, -9.0, false),
    ];
    sort_batches_for_transparency(&mut batches, point(0.0, 0.0, 5.0), &gather, &measure);
    let order: Vec<u64> = batches.iter().map(|b| b.mesh_id).collect();
    assert_eq!(order, vec![3, 5, 2, 4, 1]);
}

#[test]
fn highlighted_faces_are_index_ranges() {
    let (mut scene, a, _) = two_nodes(Transform::identity());
    let mut mesh = flat_mesh(1);
    mesh.set_topology(Topology {
        face_ranges: vec![SubMeshRange { start: 0, count: 1 }],
        edge_ranges: vec![],
        pointset_ranges: vec![],
    });
    *scene.get_mesh_mut(1).unwrap() = mesh;
    let mut highlight = outlined(vec![]);
    highlight.is_empty = false;
    highlight.faces = vec![NodeElements { node: a, indices: vec![0, 9] }];
    let data = draw_data(&mut scene, test_view(), Some(&highlight));
    assert!(data.has_sub_geom_highlights());
    let drawn = data.secondary_highlight_sub_geom_batches().len()
        + data.highlight_sub_geom_batches().len();
    assert_eq!(drawn, 1);
    let all: Vec<(u32, u32)> = data
        .highlight_sub_geom_batches()
        .iter()
        .chain(data.secondary_highlight_sub_geom_batches().iter())
        .map(|s| (s.first_index, s.index_count))
        .collect();
    assert_eq!(all, vec![(0, 3)]);
}

#[test]
fn screen_space_instances_move_and_others_stay() {
    let mut ordinary = plain(1, 11);
    ordinary = ordinary.with_display(DisplayBehavior::default());
    let facing = instance_transform(2, 12, moved(5.0, 0.0, 0.0))
        .with_display(DisplayBehavior { screen_facing: true, ..Default::default() });
    let mut batch = DrawBatch::new(1, face(2), PrimitiveType::TriangleList, 3);
    batch.add_instance(ordinary);
    batch.add_instance(facing);
    let mut batches = vec![batch];
    apply_screen_space_transforms(&mut batches, test_view(), &effective, &normal_matrix);
    assert_eq!(batches[0].instances[0], ordinary);
    let placed = batches[0].instances[1];
    assert_ne!(placed.effective_transform, facing.effective_transform);
    assert_eq!(placed.world_transform, facing.world_transform);
    assert_eq!(placed.effective_normal_matrix, normal_matrix(placed.effective_transform));
}
