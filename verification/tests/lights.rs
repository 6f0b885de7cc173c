use cgmath::{EuclideanSpace, InnerSpace, Rotation3, SquareMatrix};
use duck_scene::common::{
    Matrix4, Point3, Quaternion, RgbaColor, Scalar, Transform, Vector3, Vector4,
};
use duck_scene::resource::handle::NodeId;
use duck_scene::resource::node::NodeFlags;
use duck_scene::camera::{CameraProjection, PositionedCamera};
use duck_scene::data::SceneData;
use duck_scene::light::{Light, PositionedLight};
use duck_scene::renderer::frame::ResolvedLight;
use duck_scene::renderer::lights::{resolve_light, resolve_lights, LightMath};

fn bits(x: f32) -> Scalar {
    x.to_bits()
}

fn float(x: Scalar) -> f32 {
    f32::from_bits(x)
}

fn point(x: f32, y: f32, z: f32) -> Point3 {
    Point3 { x: bits(x), y: bits(y), z: bits(z) }
}

fn vector(x: f32, y: f32, z: f32) -> Vector3 {
    Vector3 { x: bits(x), y: bits(y), z: bits(z) }
}

fn point_out(p: Point3) -> cgmath::Point3<f32> {
    cgmath::Point3::new(float(p.x), float(p.y), float(p.z))
}

fn vector_out(v: Vector3) -> cgmath::Vector3<f32> {
    cgmath::Vector3::new(float(v.x), float(v.y), float(v.z))
}

fn vector_in(v: cgmath::Vector3<f32>) -> Vector3 {
    vector(v.x, v.y, v.z)
}

fn column_out(c: Vector4) -> cgmath::Vector4<f32> {
    cgmath::Vector4::new(float(c.x), float(c.y), float(c.z), float(c.w))
}

fn column_in(c: cgmath::Vector4<f32>) -> Vector4 {
    Vector4 { x: bits(c.x), y: bits(c.y), z: bits(c.z), w: bits(c.w) }
}

fn matrix_out(m: Matrix4) -> cgmath::Matrix4<f32> {
    cgmath::Matrix4::from_cols(
        column_out(m.x),
        column_out(m.y),
        column_out(m.z),
        column_out(m.w),
    )
}

fn matrix_in(m: cgmath::Matrix4<f32>) -> Matrix4 {
    Matrix4 { x: column_in(m.x), y: column_in(m.y), z: column_in(m.z), w: column_in(m.w) }
}

fn quaternion_out(q: Quaternion) -> cgmath::Quaternion<f32> {
    cgmath::Quaternion::from_sv(float(q.s), vector_out(q.v))
}

fn quaternion_in(q: cgmath::Quaternion<f32>) -> Quaternion {
    Quaternion { s: bits(q.s), v: vector_in(q.v) }
}

fn local_matrix(t: Transform) -> cgmath::Matrix4<f32> {
    let scale = vector_out(t.scale);
    cgmath::Matrix4::from_translation(point_out(t.position).to_vec())
        * cgmath::Matrix4::from(quaternion_out(t.rotation))
        * cgmath::Matrix4::from_nonuniform_scale(scale.x, scale.y, scale.z)
}

fn compose(parent: Matrix4, local: Transform) -> Matrix4 {
    matrix_in(matrix_out(parent) * local_matrix(local))
}

fn placed_at(x: f32, y: f32, z: f32) -> Transform {
    Transform::from_position(point(x, y, z))
}

fn length2(v: Vector3) -> Scalar {
    bits(vector_out(v).magnitude2())
}

fn unit(v: Vector3) -> Vector3 {
    vector_in(vector_out(v).normalize())
}

fn camera_at(eye: Point3) -> PositionedCamera {
    PositionedCamera {
        eye,
        target: point(0.0, 0.0, 0.0),
        up: vector(0.0, 1.0, 0.0),
        aspect: bits(1.0),
        projection: CameraProjection {
            fovy: bits(45.0),
            znear: bits(0.1),
            zfar: bits(100.0),
            ortho: false,
        },
    }
}

const EPSILON: f32 = 1e-5;

fn pose(camera: PositionedCamera) -> Matrix4 {
    let eye = point_out(camera.eye);
    let forward = (point_out(camera.target) - eye).normalize();
    let right = forward.cross(vector_out(camera.up)).normalize();
    let up = right.cross(forward);
    matrix_in(cgmath::Matrix4::from_cols(
        right.extend(0.0),
        up.extend(0.0),
        (-forward).extend(0.0),
        eye.to_homogeneous(),
    ))
}

fn resolve(light: &PositionedLight, scene: &mut SceneData) -> Option<ResolvedLight> {
    let math = LightMath {
        matrix: |t: Transform| matrix_in(local_matrix(t)),
        compose,
        length2,
        unit,
    };
    resolve_light(light, scene, pose(camera_at(point(0.0, 0.0, 5.0))), &math)
}

fn turned(angle: f32) -> Transform {
    Transform {
        rotation: quaternion_in(cgmath::Quaternion::from_angle_y(cgmath::Deg(angle))),
        ..Transform::identity()
    }
}

fn white() -> RgbaColor {
    RgbaColor { r: bits(1.0), g: bits(1.0), b: bits(1.0), a: bits(1.0) }
}

fn assert_vec3(actual: Vector3, expected: [f32; 3]) {
    let actual = [float(actual.x), float(actual.y), float(actual.z)];
    for i in 0..3 {
        assert!(
            (actual[i] - expected[i]).abs() < EPSILON,
            "component {i}: {actual:?} != {expected:?}"
        );
    }
}

fn add_node(scene: &mut SceneData, id: NodeId, parent: Option<NodeId>, t: Transform) -> NodeId {
    let handle = scene.add_node(id, parent, None, t, NodeFlags::none()).unwrap();
    scene.release(handle);
    id
}

#[test]
fn world_space_uses_the_transform_directly() {
    let mut scene = SceneData::new();
    let light = PositionedLight::world(Light::point(white(), bits(1.0)), placed_at(1.0, 2.0, 3.0));

    let resolved = resolve(&light, &mut scene).unwrap();
    assert_vec3(resolved.position, [1.0, 2.0, 3.0]);
    assert_vec3(resolved.direction, [0.0, 0.0, -1.0]);
}

#[test]
fn camera_space_composes_with_the_camera_pose() {
    let mut scene = SceneData::new();
    let light =
        PositionedLight::camera(Light::directional(white(), bits(1.0)), Transform::identity());
    let resolved = resolve(&light, &mut scene).unwrap();
    assert_vec3(resolved.position, [0.0, 0.0, 5.0]);
    assert_vec3(resolved.direction, [0.0, 0.0, -1.0]);

    let yawed = PositionedLight::camera(Light::directional(white(), bits(1.0)), turned(90.0));
    let resolved = resolve(&yawed, &mut scene).unwrap();
    assert_vec3(resolved.direction, [-1.0, 0.0, 0.0]);
}

#[test]
fn node_space_composes_through_a_hierarchy() {
    let mut scene = SceneData::new();
    let parent = add_node(&mut scene, 1, None, placed_at(10.0, 0.0, 0.0));
    let child = add_node(&mut scene, 2, Some(parent), placed_at(0.0, 4.0, 0.0));

    let light = PositionedLight::node(
        child,
        Light::point(white(), bits(1.0)),
        placed_at(0.0, 0.0, 2.0),
    );

    let resolved = resolve(&light, &mut scene).unwrap();
    assert_vec3(resolved.position, [10.0, 4.0, 2.0]);
}

#[test]
fn node_space_follows_the_node() {
    let mut scene = SceneData::new();
    let node = add_node(&mut scene, 1, None, Transform::identity());
    let light =
        PositionedLight::node(node, Light::point(white(), bits(1.0)), Transform::identity());

    let resolved = resolve(&light, &mut scene).unwrap();
    assert_vec3(resolved.position, [0.0, 0.0, 0.0]);

    scene.set_node_transform(node, placed_at(0.0, 7.0, 0.0));
    let resolved = resolve(&light, &mut scene).unwrap();
    assert_vec3(resolved.position, [0.0, 7.0, 0.0]);
}

#[test]
fn a_missing_anchor_drops_the_light() {
    let mut scene = SceneData::new();
    let node = add_node(&mut scene, 1, None, Transform::identity());
    let light =
        PositionedLight::node(node, Light::point(white(), bits(1.0)), Transform::identity());
    assert!(resolve(&light, &mut scene).is_some());

    scene.remove_node(node);
    assert!(
        resolve(&light, &mut scene).is_none(),
        "a light anchored to a removed node must not fall back to the origin"
    );
}

#[test]
fn resolve_lights_skips_only_the_unresolvable() {
    let mut scene = SceneData::new();
    let node = add_node(&mut scene, 1, None, Transform::identity());
    scene.remove_node(node);

    let lights = vec![
        PositionedLight::world(Light::point(white(), bits(1.0)), placed_at(1.0, 0.0, 0.0)),
        PositionedLight::node(node, Light::point(white(), bits(1.0)), Transform::identity()),
        PositionedLight::world(Light::point(white(), bits(1.0)), placed_at(2.0, 0.0, 0.0)),
    ];
    let math = LightMath {
        matrix: |t: Transform| matrix_in(local_matrix(t)),
        compose,
        length2,
        unit,
    };
    let camera = pose(camera_at(point(0.0, 0.0, 5.0)));
    let resolved = resolve_lights(&lights, &mut scene, camera, &math);
    assert_eq!(resolved.len(), 2);
    assert_vec3(resolved[0].position, [1.0, 0.0, 0.0]);
    assert_vec3(resolved[1].position, [2.0, 0.0, 0.0]);
}

#[test]
fn light_kinds_have_their_codes() {
    let kinds = [
        Light::point(white(), bits(1.0)),
        Light::directional(white(), bits(1.0)),
        Light::spot(white(), bits(1.0), bits(0.1), bits(0.2)),
        Light::hemisphere(white(), RgbaColor::black(), bits(1.0)),
    ];
    let codes: Vec<u32> = kinds.iter().map(|l| l.light_type().code()).collect();
    assert_eq!(codes, vec![0, 1, 2, 3]);
}

#[test]
fn a_collapsed_axis_aims_ahead() {
    let flat = matrix_in(cgmath::Matrix4::from_nonuniform_scale(1.0, 1.0, 0.0));
    let (position, direction) = Light::world_position_and_direction(&flat, &length2, &unit);
    assert_vec3(position, [0.0, 0.0, 0.0]);
    assert_vec3(direction, [0.0, 0.0, -1.0]);
}
