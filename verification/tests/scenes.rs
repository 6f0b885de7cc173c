use cgmath::{EuclideanSpace, Rotation3, SquareMatrix, Transform as _};
use duck_scene::common::{
    Aabb, Matrix4, Point3, Quaternion, RgbaColor, Scalar, Transform, Vector3, Vector4,
};
use duck_scene::resource::mesh::{Mesh, MeshPrimitive, PrimitiveType, Topology, Vertex};
use duck_scene::resource::handle::{Handle, MeshId, NodeId, ResourceKind};
use duck_scene::resource::instance::Instance;
use duck_scene::resource::node::{
    EffectiveVisibility, NodeFlags, NodePayload, Visibility, DOES_NOT_CONTRIBUTE_BOUNDING,
};
use duck_scene::resource::material::FaceMaterial;
use duck_scene::resource::texture::{EnvironmentSource, Texture};
use duck_scene::camera::{CameraProjection, PositionedCamera};
use duck_scene::data::{BoundingResult, SceneData};
use duck_scene::error::SceneError;
use duck_scene::light::Light;

fn bits(x: f32) -> Scalar {
    x.to_bits()
}

fn float(x: Scalar) -> f32 {
    f32::from_bits(x)
}

fn point(x: f32, y: f32, z: f32) -> Point3 {
    Point3 { x: bits(x), y: bits(y), z: bits(z) }
}

fn vector(x: f32, y: f32, z: f32) -> Vector3 {
    Vector3 { x: bits(x), y: bits(y), z: bits(z) }
}

fn point_out(p: Point3) -> cgmath::Point3<f32> {
    cgmath::Point3::new(float(p.x), float(p.y), float(p.z))
}

fn point_in(p: cgmath::Point3<f32>) -> Point3 {
    point(p.x, p.y, p.z)
}

fn vector_out(v: Vector3) -> cgmath::Vector3<f32> {
    cgmath::Vector3::new(float(v.x), float(v.y), float(v.z))
}

fn vector_in(v: cgmath::Vector3<f32>) -> Vector3 {
    vector(v.x, v.y, v.z)
}

fn column_out(c: Vector4) -> cgmath::Vector4<f32> {
    cgmath::Vector4::new(float(c.x), float(c.y), float(c.z), float(c.w))
}

fn column_in(c: cgmath::Vector4<f32>) -> Vector4 {
    Vector4 { x: bits(c.x), y: bits(c.y), z: bits(c.z), w: bits(c.w) }
}

fn matrix_out(m: Matrix4) -> cgmath::Matrix4<f32> {
    cgmath::Matrix4::from_cols(
        column_out(m.x),
        column_out(m.y),
        column_out(m.z),
        column_out(m.w),
    )
}

fn matrix_in(m: cgmath::Matrix4<f32>) -> Matrix4 {
    Matrix4 { x: column_in(m.x), y: column_in(m.y), z: column_in(m.z), w: column_in(m.w) }
}

fn quaternion_out(q: Quaternion) -> cgmath::Quaternion<f32> {
    cgmath::Quaternion::from_sv(float(q.s), vector_out(q.v))
}

fn quaternion_in(q: cgmath::Quaternion<f32>) -> Quaternion {
    Quaternion { s: bits(q.s), v: vector_in(q.v) }
}

fn local_matrix(t: Transform) -> cgmath::Matrix4<f32> {
    let scale = vector_out(t.scale);
    cgmath::Matrix4::from_translation(point_out(t.position).to_vec())
        * cgmath::Matrix4::from(quaternion_out(t.rotation))
        * cgmath::Matrix4::from_nonuniform_scale(scale.x, scale.y, scale.z)
}

fn compose(parent: Matrix4, local: Transform) -> Matrix4 {
    matrix_in(matrix_out(parent) * local_matrix(local))
}

fn placed_at(x: f32, y: f32, z: f32) -> Transform {
    Transform::from_position(point(x, y, z))
}

fn place(bounds: Aabb, m: Matrix4) -> Aabb {
    let m = matrix_out(m);
    let (lo, hi) = (point_out(bounds.min), point_out(bounds.max));
    let mut out: Option<Aabb> = None;
    for i in 0..8 {
        let corner = cgmath::Point3::new(
            if i & 1 == 0 { lo.x } else { hi.x },
            if i & 2 == 0 { lo.y } else { hi.y },
            if i & 4 == 0 { lo.z } else { hi.z },
        );
        let p = point_in(m.transform_point(corner));
        out = Some(match out {
            Some(b) => merge(b, Aabb { min: p, max: p }),
            None => Aabb { min: p, max: p },
        });
    }
    out.unwrap()
}

fn merge(a: Aabb, b: Aabb) -> Aabb {
    let low = |x: Scalar, y: Scalar| bits(float(x).min(float(y)));
    let high = |x: Scalar, y: Scalar| bits(float(x).max(float(y)));
    Aabb {
        min: Point3 {
            x: low(a.min.x, b.min.x),
            y: low(a.min.y, b.min.y),
            z: low(a.min.z, b.min.z),
        },
        max: Point3 {
            x: high(a.max.x, b.max.x),
            y: high(a.max.y, b.max.y),
            z: high(a.max.z, b.max.z),
        },
    }
}

fn vertex(x: f32, y: f32, z: f32) -> Vertex {
    Vertex {
        position: point(x, y, z),
        tex_coords: vector(x, y, 0.0),
        normal: vector(0.0, 1.0, 0.0),
    }
}

fn triangle_mesh(id: MeshId) -> Mesh {
    let vertices = vec![vertex(0.0, 0.0, 0.0), vertex(1.0, 0.0, 0.0), vertex(0.5, 1.0, 0.0)];
    let primitives = vec![MeshPrimitive {
        primitive_type: PrimitiveType::TriangleList,
        indices: vec![0, 1, 2],
    }];
    let bounds = Aabb { min: point(0.0, 0.0, 0.0), max: point(1.0, 1.0, 0.0) };
    Mesh::from_raw(id, vertices, primitives, Some(bounds))
}

fn camera_at(eye: Point3) -> PositionedCamera {
    PositionedCamera {
        eye,
        target: point(0.0, 0.0, 0.0),
        up: vector(0.0, 1.0, 0.0),
        aspect: bits(1.0),
        projection: CameraProjection {
            fovy: bits(45.0),
            znear: bits(0.1),
            zfar: bits(100.0),
            ortho: false,
        },
    }
}

fn add(scene: &mut SceneData, id: NodeId, parent: Option<NodeId>, t: Transform) -> NodeId {
    let node = scene.add_node(id, parent, None, t, NodeFlags::none()).unwrap();
    scene.release(node);
    id
}

fn add_geometry(scene: &mut SceneData, id: NodeId, parent: Option<NodeId>) -> NodeId {
    let mesh = scene.add_mesh(triangle_mesh(id + 100));
    let node = scene
        .add_instance_node(
            id,
            parent,
            Instance::new(id + 200, mesh),
            None,
            Transform::identity(),
            NodeFlags::none(),
        )
        .unwrap();
    scene.release(node);
    id
}

fn origin(scene: &mut SceneData, id: NodeId) -> Option<Point3> {
    let m = scene.nodes_transform(id, &compose)?;
    Some(Point3 { x: m.w.x, y: m.w.y, z: m.w.z })
}

fn bounds(scene: &mut SceneData, id: NodeId) -> BoundingResult {
    scene.nodes_bounding(id, &compose, &place, &merge)
}

#[test]
fn nodes_without_a_parent_are_roots() {
    let mut scene = SceneData::new();
    add(&mut scene, 1, None, Transform::identity());
    add(&mut scene, 2, Some(1), Transform::identity());
    add(&mut scene, 3, None, Transform::identity());
    assert_eq!(scene.root_nodes(), vec![1, 3]);
    assert_eq!(scene.get_node(1).unwrap().child_ids(), vec![2]);
    assert_eq!(scene.get_node(2).unwrap().parent, Some(1));
    assert_eq!(scene.node_count(), 3);
    assert!(scene.is_node_attached(2));
}

#[test]
fn a_missing_parent_is_refused() {
    let mut scene = SceneData::new();
    let refused = scene.add_node(1, Some(9), None, Transform::identity(), NodeFlags::none());
    assert_eq!(refused.err(), Some(SceneError::ParentNotFound(9)));
    assert_eq!(scene.node_count(), 0);
    add(&mut scene, 1, None, Transform::identity());
    assert_eq!(scene.reparent_node(1, Some(9)), Err(SceneError::ParentNotFound(9)));
}

#[test]
fn a_missing_node_cannot_move() {
    let mut scene = SceneData::new();
    assert_eq!(scene.reparent_node(5, None), Err(SceneError::NodeNotFound(5)));
}

#[test]
fn a_node_cannot_move_below_itself() {
    let mut scene = SceneData::new();
    add(&mut scene, 1, None, Transform::identity());
    add(&mut scene, 2, Some(1), Transform::identity());
    add(&mut scene, 3, Some(2), Transform::identity());
    let cycle = Err(SceneError::Cycle { node: 1, parent: 3 });
    assert_eq!(scene.reparent_node(1, Some(3)), cycle);
    let own = Err(SceneError::Cycle { node: 1, parent: 1 });
    assert_eq!(scene.reparent_node(1, Some(1)), own);
    assert_eq!(scene.root_nodes(), vec![1]);
}

#[test]
fn transforms_follow_every_ancestor() {
    let mut scene = SceneData::new();
    add(&mut scene, 1, None, placed_at(1.0, 0.0, 0.0));
    add(&mut scene, 2, Some(1), placed_at(0.0, 2.0, 0.0));
    assert_eq!(origin(&mut scene, 2), Some(point(1.0, 2.0, 0.0)));
    scene.set_node_position(1, point(5.0, 0.0, 0.0));
    assert_eq!(origin(&mut scene, 2), Some(point(5.0, 2.0, 0.0)));
    add(&mut scene, 3, None, placed_at(0.0, 0.0, 7.0));
    scene.reparent_node(2, Some(3)).unwrap();
    assert_eq!(origin(&mut scene, 2), Some(point(0.0, 2.0, 7.0)));
    scene.set_node_scale(3, vector(2.0, 2.0, 2.0));
    assert_eq!(origin(&mut scene, 2), Some(point(0.0, 4.0, 7.0)));
    assert_eq!(origin(&mut scene, 9), None);
}

#[test]
fn rotation_turns_what_is_below() {
    let mut scene = SceneData::new();
    add(&mut scene, 1, None, Transform::identity());
    add(&mut scene, 2, Some(1), placed_at(1.0, 0.0, 0.0));
    let quarter = quaternion_in(cgmath::Quaternion::from_angle_z(cgmath::Deg(90.0)));
    scene.set_node_rotation(1, quarter);
    let turned = origin(&mut scene, 2).unwrap();
    assert!(float(turned.x).abs() < 1e-6);
    assert!((float(turned.y) - 1.0).abs() < 1e-6);
}

#[test]
fn bounds_take_the_subtree_together() {
    let mut scene = SceneData::new();
    add(&mut scene, 1, None, Transform::identity());
    add_geometry(&mut scene, 2, Some(1));
    add_geometry(&mut scene, 3, Some(1));
    scene.set_node_transform(3, placed_at(10.0, 0.0, 0.0));
    let all = Aabb { min: point(0.0, 0.0, 0.0), max: point(11.0, 1.0, 0.0) };
    assert_eq!(bounds(&mut scene, 1).bounds, Some(all));
    assert!(!bounds(&mut scene, 1).incomplete);
    assert_eq!(scene.bounding(&compose, &place, &merge).bounds, Some(all));
    scene.set_node_flags(3, NodeFlags::of(DOES_NOT_CONTRIBUTE_BOUNDING));
    let left = Aabb { min: point(0.0, 0.0, 0.0), max: point(1.0, 1.0, 0.0) };
    assert_eq!(bounds(&mut scene, 1).bounds, Some(left));
    scene.set_node_flags(3, NodeFlags::none());
    assert_eq!(bounds(&mut scene, 1).bounds, Some(all));
    scene.reparent_node(3, None).unwrap();
    assert_eq!(bounds(&mut scene, 1).bounds, Some(left));
    scene.set_node_payload(2, NodePayload::Empty);
    assert_eq!(bounds(&mut scene, 1).bounds, None);
}

#[test]
fn bounds_of_missing_geometry_are_incomplete() {
    let mut scene = SceneData::new();
    add(&mut scene, 1, None, Transform::identity());
    scene.set_node_payload(1, NodePayload::Instance(Handle::unbound(77)));
    let result = bounds(&mut scene, 1);
    assert_eq!(result.bounds, None);
    assert!(result.incomplete);
    assert!(!scene.is_complete());
}

#[test]
fn hiding_hides_the_subtree_and_showing_shows_one_node() {
    let mut scene = SceneData::new();
    add(&mut scene, 1, None, Transform::identity());
    add(&mut scene, 2, Some(1), Transform::identity());
    add(&mut scene, 3, Some(2), Transform::identity());
    assert_eq!(scene.node_effective_visibility(1), EffectiveVisibility::Visible);
    scene.set_node_visibility(2, Visibility::Invisible);
    assert_eq!(scene.node_effective_visibility(1), EffectiveVisibility::Mixed);
    assert_eq!(scene.node_effective_visibility(3), EffectiveVisibility::Invisible);
    scene.set_node_visibility(2, Visibility::Visible);
    assert_eq!(scene.node_effective_visibility(2), EffectiveVisibility::Mixed);
    scene.set_node_visibility(3, Visibility::Visible);
    assert_eq!(scene.node_effective_visibility(1), EffectiveVisibility::Visible);
    assert_eq!(scene.node_effective_visibility(9), EffectiveVisibility::Invisible);
}

#[test]
fn node_generation_grows_with_changes() {
    let mut scene = SceneData::new();
    let start = scene.node_generation();
    add(&mut scene, 1, None, Transform::identity());
    let added = scene.node_generation();
    assert!(added > start);
    scene.set_node_position(1, point(1.0, 0.0, 0.0));
    assert!(scene.node_generation() > added);
    let moved = scene.node_generation();
    scene.set_node_position(42, point(1.0, 0.0, 0.0));
    scene.set_node_visibility(42, Visibility::Invisible);
    assert_eq!(scene.node_generation(), moved);
    scene.set_node_visibility(1, Visibility::Invisible);
    assert_eq!(scene.node_generation(), moved + 1);
    scene.set_node_visibility(1, Visibility::Visible);
    assert_eq!(scene.node_generation(), moved + 2);
    origin(&mut scene, 1);
    bounds(&mut scene, 1);
    scene.node_effective_visibility(1);
    assert_eq!(scene.node_generation(), moved + 2);
    scene.remove_node(1);
    assert!(scene.node_generation() > moved + 2);
}

#[test]
fn names_and_display_can_change() {
    let mut scene = SceneData::new();
    let node = scene.add_default_node(1, None, Some("first".to_string())).unwrap();
    assert_eq!(scene.get_node(1).unwrap().name.as_deref(), Some("first"));
    scene.set_node_name(1, Some("renamed".to_string()));
    assert_eq!(scene.get_node(1).unwrap().name.as_deref(), Some("renamed"));
    assert_eq!(scene.strong_count(&node), 2);
}

#[test]
fn clearing_leaves_nothing() {
    let mut scene = SceneData::new();
    add_geometry(&mut scene, 1, None);
    let map = scene.add_environment_map_from_hdr_path(5, "sky.hdr".to_string());
    scene.set_active_environment_map(Some(map));
    scene.clear();
    assert_eq!(scene.node_count(), 0);
    assert_eq!(scene.mesh_count(), 0);
    assert_eq!(scene.instance_count(), 0);
    assert_eq!(scene.active_environment_map(), None);
    assert!(scene.root_nodes().is_empty());
}

#[test]
fn environment_maps_are_kept_by_id() {
    let mut scene = SceneData::new();
    assert!(!scene.has_environment_maps());
    let a = scene.add_environment_map_from_hdr_path(1, "a.hdr".to_string());
    let b = scene.add_environment_map_from_hdr_data(2, vec![1, 2, 3]);
    assert_eq!(scene.environment_map_count(), 2);
    scene.set_environment_map_intensity(a, bits(0.5));
    assert_eq!(scene.get_environment_map(a).unwrap().intensity(), bits(0.5));
    assert_eq!(scene.get_environment_map(a).unwrap().generation(), 2);
    assert_eq!(scene.get_environment_map(b).unwrap().generation(), 1);
    assert_eq!(scene.get_environment_map(b).unwrap().id(), b);
    assert!(matches!(
        scene.get_environment_map(b).unwrap().source(),
        EnvironmentSource::HdrData(data) if *data == vec![1, 2, 3]
    ));
    scene.set_active_environment_map(Some(b));
    assert_eq!(scene.active_environment_map(), Some(b));
    let mut ids = scene.environment_maps();
    ids.sort();
    assert_eq!(ids, vec![1, 2]);
}

#[test]
fn a_copy_is_disconnected_from_its_source() {
    let mut scene = SceneData::new();
    let root = add_geometry(&mut scene, 1, None);
    let child = add_geometry(&mut scene, 2, Some(root));
    assert!(scene.is_complete());
    assert!(scene.can_rebind());
    let mut copy = scene.clone();
    copy.remove_node(child);
    assert_eq!(copy.node_count(), 1);
    assert_eq!(copy.mesh_count(), 1);
    assert_eq!(scene.node_count(), 2);
    assert_eq!(scene.mesh_count(), 2);
    assert_eq!(copy.root_nodes(), vec![root]);
}

#[test]
fn rebinding_keeps_what_the_tree_holds() {
    let mut scene = SceneData::new();
    let root = add_geometry(&mut scene, 1, None);
    add_geometry(&mut scene, 2, Some(root));
    scene.rebind();
    assert_eq!(scene.node_count(), 2);
    assert_eq!(scene.get_node(1).unwrap().child_ids(), vec![2]);
    assert_eq!(scene.instance_count(), 2);
    scene.remove_node(root);
    assert_eq!(scene.node_count(), 0);
    assert_eq!(scene.mesh_count(), 0);
}

#[test]
fn lights_are_nodes_that_carry_one() {
    let mut scene = SceneData::new();
    add(&mut scene, 1, None, Transform::identity());
    assert!(!scene.has_light_nodes());
    let light = Light::point(RgbaColor::white(), bits(1.0));
    scene.set_node_payload(1, NodePayload::Light(light));
    assert!(scene.has_light_nodes());
    assert_eq!(scene.light_count(), 1);
    assert_eq!(scene.light_nodes(), vec![(1, light)]);
}

#[test]
fn the_default_lights_hang_below_the_camera() {
    let mut scene = SceneData::new();
    add(&mut scene, 1, None, Transform::identity());
    scene.set_default_light_nodes(1, 2, 3);
    assert_eq!(scene.light_count(), 2);
    assert_eq!(scene.get_node(1).unwrap().child_ids(), vec![2, 3]);
    scene.set_default_light_nodes(1, 4, 5);
    assert_eq!(scene.light_count(), 4);
}

fn turned(pitch: f32, yaw: f32) -> cgmath::Quaternion<f32> {
    cgmath::Quaternion::from_angle_x(cgmath::Deg(pitch))
        * cgmath::Quaternion::from_angle_y(cgmath::Deg(yaw))
}

fn close(a: f32, b: f32) -> bool {
    (a - b).abs() < 1e-6
}

#[test]
fn the_default_lights_shine_from_opposite_corners() {
    let mut scene = SceneData::new();
    add(&mut scene, 1, None, Transform::identity());
    scene.set_default_light_nodes(1, 2, 3);
    let cases = [(2, turned(-45.0, -45.0)), (3, turned(45.0, 45.0))];
    let ahead = cgmath::Vector3::new(0.0, 0.0, -1.0);
    let mut shines = Vec::new();
    for (id, expected) in cases {
        let q = scene.get_node(id).unwrap().transform.rotation;
        let [s, x, y, z] = [q.s, q.v.x, q.v.y, q.v.z].map(f32::from_bits);
        assert!(close(s, expected.s));
        assert!(close(x, expected.v.x) && close(y, expected.v.y) && close(z, expected.v.z));
        shines.push(cgmath::Quaternion::new(s, x, y, z) * ahead);
    }
    // From the upper left towards the lower right, and from the lower right back up.
    let (key, fill) = (shines[0], shines[1]);
    assert!(close(key.x, 0.5f32.sqrt()) && close(key.y, -0.5) && close(key.z, -0.5));
    assert!(close(fill.x, -(0.5f32.sqrt())) && close(fill.y, 0.5) && close(fill.z, -0.5));
}

fn positioned(projection: CameraProjection, pose: Matrix4, aspect: Scalar) -> PositionedCamera {
    let m = matrix_out(pose);
    let eye = cgmath::Point3::from_vec(m.w.truncate());
    PositionedCamera {
        eye: point_in(eye),
        target: point_in(eye - m.z.truncate()),
        up: vector_in(m.y.truncate()),
        aspect,
        projection,
    }
}

fn pose_of(camera: PositionedCamera) -> Transform {
    Transform::from_position(camera.eye)
}

#[test]
fn the_active_camera_is_a_node() {
    let mut scene = SceneData::new();
    assert_eq!(scene.active_camera_positioned(bits(1.0), &compose, &positioned), None);
    let camera = camera_at(point(0.0, 0.0, 5.0));
    add(&mut scene, 1, None, placed_at(0.0, 0.0, 5.0));
    scene.set_node_payload(1, NodePayload::Camera(camera.projection));
    scene.set_active_camera(Some(1));
    assert_eq!(scene.active_camera(), Some(1));
    assert_eq!(scene.active_camera_data(), Some(camera.projection));
    let seen = scene.active_camera_positioned(bits(1.5), &compose, &positioned).unwrap();
    assert_eq!(seen.eye, camera.eye);
    assert_eq!(seen.aspect, bits(1.5));
    let step_aside = |c: PositionedCamera| PositionedCamera { eye: point(3.0, 0.0, 5.0), ..c };
    scene.with_camera_mut(bits(1.0), &step_aside, &compose, &positioned, &pose_of);
    assert_eq!(origin(&mut scene, 1), Some(point(3.0, 0.0, 5.0)));
    scene.set_camera(camera, &pose_of);
    assert_eq!(origin(&mut scene, 1), Some(point(0.0, 0.0, 5.0)));
    scene.remove_node(1);
    assert_eq!(scene.active_camera(), None);
}

#[test]
fn textures_belong_to_materials() {
    let mut scene = SceneData::new();
    let texture = scene.add_texture(Texture::from_rgba(1, 1, 1, vec![1, 2, 3, 4]));
    let mut material = FaceMaterial::new(2);
    assert!(material.set_base_color_texture(Some(texture)).is_none());
    let handle = scene.add_face_material(material);
    assert!(scene.get_face_material(2).unwrap().properties().base_color_texture);
    assert_eq!(scene.texture_count(), 1);
    scene.release(handle);
    scene.reap();
    assert_eq!(scene.texture_count(), 0);
    let removals = scene.take_removals();
    assert_eq!(removals, vec![(ResourceKind::FaceMaterial, 2), (ResourceKind::Texture, 1)]);
}

#[test]
fn removing_by_id_ignores_handles() {
    let mut scene = SceneData::new();
    let mesh = scene.add_mesh(triangle_mesh(1));
    scene.remove_mesh(1);
    assert_eq!(scene.mesh_count(), 0);
    assert!(scene.mesh_handle(1).is_none());
    scene.release(mesh);
    scene.reap();
    assert_eq!(scene.mesh_count(), 0);
}

#[test]
fn a_replaced_mesh_moves_its_generation() {
    let mut scene = SceneData::new();
    let _mesh = scene.add_mesh(triangle_mesh(1));
    let before = scene.get_mesh(1).unwrap().generation();
    let topology = Topology { face_ranges: vec![], edge_ranges: vec![], pointset_ranges: vec![] };
    scene.get_mesh_mut(1).unwrap().set_topology(topology);
    assert!(scene.get_mesh(1).unwrap().topology().is_some());
    assert!(scene.get_mesh(1).unwrap().generation() >= before);
}
