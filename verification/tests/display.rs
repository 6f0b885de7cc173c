use cgmath::InnerSpace;
use duck_scene::common::{Matrix4, Point3, Scalar, Vector3, Vector4};
use duck_scene::resource::display::{DisplayBehavior, DisplayMath, RenderLayer};
use duck_scene::camera::{CameraProjection, PositionedCamera};
use duck_scene::geom_query::pick_query::PickView;

fn bits(x: f32) -> Scalar {
    x.to_bits()
}

fn float(x: Scalar) -> f32 {
    f32::from_bits(x)
}

fn point(x: f32, y: f32, z: f32) -> Point3 {
    Point3 { x: bits(x), y: bits(y), z: bits(z) }
}

fn vector(x: f32, y: f32, z: f32) -> Vector3 {
    Vector3 { x: bits(x), y: bits(y), z: bits(z) }
}

fn point_out(p: Point3) -> cgmath::Point3<f32> {
    cgmath::Point3::new(float(p.x), float(p.y), float(p.z))
}

fn vector_out(v: Vector3) -> cgmath::Vector3<f32> {
    cgmath::Vector3::new(float(v.x), float(v.y), float(v.z))
}

fn vector_in(v: cgmath::Vector3<f32>) -> Vector3 {
    vector(v.x, v.y, v.z)
}

fn column_out(c: Vector4) -> cgmath::Vector4<f32> {
    cgmath::Vector4::new(float(c.x), float(c.y), float(c.z), float(c.w))
}

fn column_in(c: cgmath::Vector4<f32>) -> Vector4 {
    Vector4 { x: bits(c.x), y: bits(c.y), z: bits(c.z), w: bits(c.w) }
}

fn matrix_out(m: Matrix4) -> cgmath::Matrix4<f32> {
    cgmath::Matrix4::from_cols(
        column_out(m.x),
        column_out(m.y),
        column_out(m.z),
        column_out(m.w),
    )
}

fn matrix_in(m: cgmath::Matrix4<f32>) -> Matrix4 {
    Matrix4 { x: column_in(m.x), y: column_in(m.y), z: column_in(m.z), w: column_in(m.w) }
}

fn length2(v: Vector3) -> Scalar {
    bits(vector_out(v).magnitude2())
}

fn length(v: Vector3) -> Scalar {
    bits(vector_out(v).magnitude())
}

fn unit(v: Vector3) -> Vector3 {
    vector_in(vector_out(v).normalize())
}

fn depth(p: Point3, camera: PositionedCamera) -> Scalar {
    let ahead = vector_out(ahead(camera));
    bits((point_out(p) - point_out(camera.eye)).dot(ahead))
}

fn ahead(camera: PositionedCamera) -> Vector3 {
    vector_in((point_out(camera.target) - point_out(camera.eye)).normalize())
}

fn distance(a: Point3, b: Point3) -> Scalar {
    bits((point_out(b) - point_out(a)).magnitude())
}

fn pixel(depth: Scalar, fovy: Scalar, height: u32) -> Scalar {
    let half = cgmath::Rad::from(cgmath::Deg(float(fovy))).0 / 2.0;
    bits(2.0 * float(depth) * half.tan() / height as f32)
}

fn effective(display: DisplayBehavior, world: Matrix4, view: PickView) -> Matrix4 {
    let math = DisplayMath {
        toward: |a: Point3, b: Point3| vector_in(point_out(b) - point_out(a)),
        ahead,
        length2,
        length,
        unit,
        cross: |a: Vector3, b: Vector3| vector_in(vector_out(a).cross(vector_out(b))),
        scaled: |v: Vector3, s: Scalar| vector_in(vector_out(v) * float(s)),
        depth,
        distance,
        pixel,
        times: |a: Scalar, b: Scalar| bits(float(a) * float(b)),
    };
    display.effective_transform(world, &view.camera, view.height, &math)
}

const EPSILON: f32 = 1e-6;

fn camera() -> PositionedCamera {
    PositionedCamera {
        eye: point(0.0, 0.0, 5.0),
        target: point(0.0, 0.0, 0.0),
        up: vector(0.0, 1.0, 0.0),
        aspect: bits(1.0),
        projection: CameraProjection {
            fovy: bits(45.0),
            znear: bits(0.1),
            zfar: bits(100.0),
            ortho: false,
        },
    }
}

fn view() -> PickView {
    PickView { camera: camera(), width: 256, height: 256 }
}

fn moved(x: f32, y: f32, z: f32) -> Matrix4 {
    matrix_in(cgmath::Matrix4::from_translation(cgmath::Vector3::new(x, y, z)))
}

#[test]
fn is_screen_space_gates_on_flags() {
    assert!(!DisplayBehavior::default().is_screen_space());
    assert!(DisplayBehavior { screen_size: Some(bits(10.0)), ..Default::default() }
        .is_screen_space());
    assert!(DisplayBehavior { screen_facing: true, ..Default::default() }.is_screen_space());
}

#[test]
fn inherit_carries_screen_size_and_layer_down() {
    let parent = DisplayBehavior {
        screen_size: Some(bits(90.0)),
        layer: RenderLayer::Overlay,
        ..Default::default()
    };
    let child = DisplayBehavior::inherit(parent, DisplayBehavior::default());
    assert_eq!(child.screen_size, Some(bits(90.0)));
    assert_eq!(child.layer, RenderLayer::Overlay);
    assert!(!child.screen_facing);

    let overriding = DisplayBehavior { screen_size: Some(bits(20.0)), ..Default::default() };
    assert_eq!(DisplayBehavior::inherit(parent, overriding).screen_size, Some(bits(20.0)));
}

#[test]
fn screen_size_scale_grows_with_distance() {
    let display = DisplayBehavior { screen_size: Some(bits(50.0)), ..Default::default() };

    let near = matrix_out(effective(display, moved(0.0, 0.0, 4.0), view()));
    let far = matrix_out(effective(display, moved(0.0, 0.0, -20.0), view()));

    let near_scale = near.x.truncate().magnitude();
    let far_scale = far.x.truncate().magnitude();
    assert!(far_scale > near_scale);

    assert!((near.w.truncate() - cgmath::Vector3::new(0.0, 0.0, 4.0)).magnitude() < EPSILON);
}

#[test]
fn effective_transform_passes_world_through_when_not_screen_space() {
    let display = DisplayBehavior::default();
    let world = matrix_in(
        cgmath::Matrix4::from_translation(cgmath::Vector3::new(1.0, 2.0, 3.0))
            * cgmath::Matrix4::from_nonuniform_scale(2.0, 0.5, 4.0),
    );
    assert_eq!(effective(display, world, view()), world);
}

#[test]
fn screen_size_scale_is_pixels_times_pixel_size() {
    let display = DisplayBehavior { screen_size: Some(bits(50.0)), ..Default::default() };
    let placed = matrix_out(effective(display, moved(0.0, 0.0, 0.0), view()));
    let per_pixel = 2.0 * 5.0 * (45.0f32.to_radians() / 2.0).tan() / 256.0;
    assert!((placed.x.x - per_pixel * 50.0).abs() < 1e-4);
    assert!((placed.y.y - per_pixel * 50.0).abs() < 1e-4);
    assert_eq!(placed.x.y, 0.0);
}

#[test]
fn geometry_nearer_than_the_near_plane_counts_as_on_it() {
    let display = DisplayBehavior { screen_size: Some(bits(1.0)), ..Default::default() };
    let behind = matrix_out(effective(display, moved(0.0, 0.0, 9.0), view()));
    let per_pixel = 2.0 * 0.1 * (45.0f32.to_radians() / 2.0).tan() / 256.0;
    assert!((behind.x.x - per_pixel).abs() < 1e-6);
}

#[test]
fn orthographic_size_does_not_depend_on_depth() {
    let mut seen = view();
    seen.camera.projection.ortho = true;
    let display = DisplayBehavior { screen_size: Some(bits(8.0)), ..Default::default() };
    let near = effective(display, moved(0.0, 0.0, 4.0), seen);
    let far = effective(display, moved(0.0, 0.0, -20.0), seen);
    assert_eq!(near.x, far.x);
}

#[test]
fn inherit_is_associative_with_an_identity() {
    let all = [
        DisplayBehavior::default(),
        DisplayBehavior { screen_size: Some(bits(3.0)), ..Default::default() },
        DisplayBehavior { screen_facing: true, layer: RenderLayer::Overlay, ..Default::default() },
    ];
    for a in all {
        assert_eq!(DisplayBehavior::inherit(DisplayBehavior::default(), a), a);
        assert_eq!(DisplayBehavior::inherit(a, DisplayBehavior::default()), a);
        for b in all {
            for c in all {
                assert_eq!(
                    DisplayBehavior::inherit(DisplayBehavior::inherit(a, b), c),
                    DisplayBehavior::inherit(a, DisplayBehavior::inherit(b, c))
                );
            }
        }
    }
}
