use cgmath::{EuclideanSpace, InnerSpace};
use duck_scene::common::{Aabb, Point3, Quaternion, Scalar, Vector3};
use duck_scene::camera::{BlendMath, CameraProjection, FitMath, PositionedCamera};
use duck_scene::view::SavedView;

fn bits(x: f32) -> Scalar {
    x.to_bits()
}

fn float(x: Scalar) -> f32 {
    f32::from_bits(x)
}

fn point(x: f32, y: f32, z: f32) -> Point3 {
    Point3 { x: bits(x), y: bits(y), z: bits(z) }
}

fn vector(x: f32, y: f32, z: f32) -> Vector3 {
    Vector3 { x: bits(x), y: bits(y), z: bits(z) }
}

fn point_out(p: Point3) -> cgmath::Point3<f32> {
    cgmath::Point3::new(float(p.x), float(p.y), float(p.z))
}

fn point_in(p: cgmath::Point3<f32>) -> Point3 {
    point(p.x, p.y, p.z)
}

fn vector_out(v: Vector3) -> cgmath::Vector3<f32> {
    cgmath::Vector3::new(float(v.x), float(v.y), float(v.z))
}

fn vector_in(v: cgmath::Vector3<f32>) -> Vector3 {
    vector(v.x, v.y, v.z)
}

fn quaternion_out(q: Quaternion) -> cgmath::Quaternion<f32> {
    cgmath::Quaternion::from_sv(float(q.s), vector_out(q.v))
}

fn quaternion_in(q: cgmath::Quaternion<f32>) -> Quaternion {
    Quaternion { s: bits(q.s), v: vector_in(q.v) }
}

fn unit(v: Vector3) -> Vector3 {
    vector_in(vector_out(v).normalize())
}

fn center(b: Aabb) -> Point3 {
    point_in(point_out(b.min).midpoint(point_out(b.max)))
}

fn extent(b: Aabb) -> Vector3 {
    vector_in(point_out(b.max) - point_out(b.min))
}

fn depth(p: Point3, camera: PositionedCamera) -> Scalar {
    let ahead = vector_out(ahead(camera));
    bits((point_out(p) - point_out(camera.eye)).dot(ahead))
}

fn ahead(camera: PositionedCamera) -> Vector3 {
    vector_in((point_out(camera.target) - point_out(camera.eye)).normalize())
}

fn distance(a: Point3, b: Point3) -> Scalar {
    bits((point_out(b) - point_out(a)).magnitude())
}

fn pixel(depth: Scalar, fovy: Scalar, height: u32) -> Scalar {
    let half = cgmath::Rad::from(cgmath::Deg(float(fovy))).0 / 2.0;
    bits(2.0 * float(depth) * half.tan() / height as f32)
}

fn camera_at(eye: Point3) -> PositionedCamera {
    PositionedCamera {
        eye,
        target: point(0.0, 0.0, 0.0),
        up: vector(0.0, 1.0, 0.0),
        aspect: bits(1.0),
        projection: CameraProjection {
            fovy: bits(45.0),
            znear: bits(0.1),
            zfar: bits(100.0),
            ortho: false,
        },
    }
}

fn orientation(camera: PositionedCamera) -> Quaternion {
    let forward = (point_out(camera.target) - point_out(camera.eye)).normalize();
    let right = forward.cross(vector_out(camera.up)).normalize();
    let up = right.cross(forward);
    quaternion_in(cgmath::Quaternion::from(cgmath::Matrix3::from_cols(right, up, -forward)))
}

fn blend(a: &PositionedCamera, b: &PositionedCamera, t: f32) -> PositionedCamera {
    let math = BlendMath {
        orientation,
        dot: |p: Quaternion, q: Quaternion| bits(quaternion_out(p).dot(quaternion_out(q))),
        slerp: |p: Quaternion, q: Quaternion, t: Scalar| {
            quaternion_in(quaternion_out(p).slerp(quaternion_out(q), float(t)).normalize())
        },
        lerp: |x: Scalar, y: Scalar, t: Scalar| {
            bits(float(x) + (float(y) - float(x)) * float(t))
        },
        lerp_point: |p: Point3, q: Point3, t: Scalar| {
            point_in(point_out(p) + (point_out(q) - point_out(p)) * float(t))
        },
        distance,
        forward: |q: Quaternion| vector_in(quaternion_out(q) * -cgmath::Vector3::unit_z()),
        up: |q: Quaternion| vector_in(quaternion_out(q) * cgmath::Vector3::unit_y()),
        step_back,
    };
    a.interpolated(b, bits(t), &math)
}

fn step_back(p: Point3, direction: Vector3, by: Scalar) -> Point3 {
    point_in(point_out(p) - vector_out(direction) * float(by))
}

fn axis_view_camera(eye: Point3, up: Vector3) -> PositionedCamera {
    PositionedCamera { up, ..camera_at(eye) }
}

fn eye_distance(camera: &PositionedCamera) -> f32 {
    float(distance(camera.eye, camera.target))
}

fn assert_cameras_close(a: &PositionedCamera, b: &PositionedCamera) {
    assert!(float(distance(a.eye, b.eye)) < 1e-4, "eye {:?} vs {:?}", a.eye, b.eye);
    assert!(float(distance(a.target, b.target)) < 1e-4);
    assert!((vector_out(a.up) - vector_out(b.up)).magnitude() < 1e-4);
}

#[test]
fn interpolated_reproduces_endpoints() {
    let a = axis_view_camera(point(5.0, 0.0, 0.0), vector(0.0, 1.0, 0.0));
    let b = axis_view_camera(point(0.0, 0.0, 8.0), vector(0.0, 1.0, 0.0));

    assert_cameras_close(&blend(&a, &b, 0.0), &a);
    assert_cameras_close(&blend(&a, &b, 1.0), &b);
    assert_eq!(blend(&a, &b, 0.5).projection.ortho, a.projection.ortho);
}

#[test]
fn interpolated_midpoint_bisects_arc() {
    let a = axis_view_camera(point(5.0, 0.0, 0.0), vector(0.0, 1.0, 0.0));
    let b = axis_view_camera(point(0.0, 0.0, 5.0), vector(0.0, 1.0, 0.0));

    let mid = blend(&a, &b, 0.5);
    assert!((eye_distance(&mid) - 5.0).abs() < 1e-4, "distance preserved on the arc");
    let expected_dir = cgmath::Vector3::new(1.0, 0.0, 1.0).normalize();
    let dir = (point_out(mid.eye) - point_out(mid.target)).normalize();
    assert!((dir - expected_dir).magnitude() < 1e-4, "eye direction bisects: {:?}", dir);
    assert!((vector_out(mid.up) - cgmath::Vector3::unit_y()).magnitude() < 1e-4);
}

#[test]
fn interpolated_blends_distance() {
    let a = axis_view_camera(point(4.0, 0.0, 0.0), vector(0.0, 1.0, 0.0));
    let b = axis_view_camera(point(0.0, 0.0, 10.0), vector(0.0, 1.0, 0.0));

    let mid = blend(&a, &b, 0.5);
    assert!((eye_distance(&mid) - 7.0).abs() < 1e-4);
}

#[test]
fn interpolated_antipodal_views_are_finite() {
    let a = axis_view_camera(point(5.0, 0.0, 0.0), vector(0.0, 1.0, 0.0));
    let b = axis_view_camera(point(-5.0, 0.0, 0.0), vector(0.0, 1.0, 0.0));

    for i in 0..=10 {
        let t = i as f32 / 10.0;
        let cam = blend(&a, &b, t);
        let eye = point_out(cam.eye);
        assert!(eye.x.is_finite() && eye.y.is_finite() && eye.z.is_finite());
        assert!((eye_distance(&cam) - 5.0).abs() < 1e-3, "distance held at t={t}");
        let up = vector_out(cam.up);
        assert!((up - cgmath::Vector3::unit_y()).magnitude() < 1e-3, "up held at t={t}");
    }
}

#[test]
fn interpolated_up_stays_orthonormal() {
    let a = axis_view_camera(point(0.0, 6.0, 0.0), vector(0.0, 0.0, 1.0));
    let b = axis_view_camera(point(4.0, 3.0, 4.0), vector(0.0, 1.0, 0.0));

    for i in 1..10 {
        let t = i as f32 / 10.0;
        let cam = blend(&a, &b, t);
        let up = vector_out(cam.up);
        assert!((up.magnitude() - 1.0).abs() < 1e-4, "unit up at t={t}");
        let forward = vector_out(ahead(cam));
        assert!(up.dot(forward).abs() < 1e-4, "up orthogonal to forward at t={t}");
    }
}

#[test]
fn aspect_and_kind_switch_at_the_end() {
    let a = axis_view_camera(point(5.0, 0.0, 0.0), vector(0.0, 1.0, 0.0));
    let mut b = axis_view_camera(point(0.0, 0.0, 8.0), vector(0.0, 1.0, 0.0));
    b.aspect = bits(2.0);
    b.projection.ortho = true;
    b.projection.fovy = bits(55.0);
    let late = blend(&a, &b, 0.75);
    assert_eq!((late.aspect, late.projection.ortho), (bits(1.0), false));
    assert_eq!(late.projection.fovy, bits(52.5));
    let done = blend(&a, &b, 1.0);
    assert_eq!((done.aspect, done.projection.ortho), (bits(2.0), true));
}

#[test]
fn a_fitted_camera_keeps_its_direction() {
    let mut camera = camera_at(point(0.0, 0.0, 5.0));
    let bounds = Aabb { min: point(9.0, -1.0, -1.0), max: point(11.0, 1.0, 1.0) };
    let math = FitMath {
        center,
        radius: |b: Aabb| bits(vector_out(extent(b)).magnitude() / 2.0),
        vertical: |r: Scalar, fovy: Scalar| {
            bits(float(r) / (float(fovy).to_radians() / 2.0).sin())
        },
        horizontal: |r: Scalar, fovy: Scalar, aspect: Scalar| {
            let half = ((float(fovy).to_radians() / 2.0).tan() * float(aspect)).atan();
            bits(float(r) / half.sin())
        },
        distance,
        direction: |a: Point3, b: Point3| {
            vector_in((point_out(b) - point_out(a)).normalize())
        },
        step_back,
        near: |d: Scalar| bits(float(d) * 0.001),
        far: |d: Scalar, r: Scalar| bits((float(d) + float(r)) * 10.0),
    };
    camera.fit_to_bounds(bounds, &math);
    assert_eq!(camera.target, point(10.0, 0.0, 0.0));
    let d = 3.0f32.sqrt() / 22.5f32.to_radians().sin();
    assert!((eye_distance(&camera) - d).abs() < 1e-3);
    assert_eq!(float(camera.eye.x), 10.0);
    assert!(float(camera.eye.z) > 0.0);
    assert!((float(camera.projection.znear) - d * 0.001).abs() < 1e-4);

    let mut stuck = camera_at(point(0.0, 0.0, 0.0));
    stuck.fit_to_bounds(bounds, &math);
    assert!(float(stuck.eye.z) > 0.0);
}

#[test]
fn pixels_of_an_orthographic_camera_are_all_alike() {
    let mut camera = camera_at(point(0.0, 0.0, 5.0));
    let near = camera.world_size_per_pixel(bits(1.0), 100, &distance, &pixel);
    let far = camera.world_size_per_pixel(bits(2.0), 100, &distance, &pixel);
    assert!((float(far) - 2.0 * float(near)).abs() < 1e-6);
    camera.projection.ortho = true;
    let a = camera.world_size_per_pixel(bits(1.0), 100, &distance, &pixel);
    let b = camera.world_size_per_pixel(bits(2.0), 100, &distance, &pixel);
    assert_eq!(a, b);
}

#[test]
fn a_saved_view_keeps_the_orbit_of_the_reference() {
    let view = SavedView::new(1, "Front".to_string(), camera_at(point(0.0, 0.0, 2.0)));
    assert_eq!(view.name(), "Front");
    let mut reference = camera_at(point(7.0, 0.0, 0.0));
    reference.aspect = bits(1.5);
    let ahead = |from: Point3, to: Point3, by: Scalar| {
        let d = (point_out(to) - point_out(from)).normalize();
        point_in(point_out(from) + d * float(by))
    };
    let applied = view.apply_to(&reference, &distance, &ahead);
    assert_eq!(applied.eye, view.camera().eye);
    assert_eq!(applied.aspect, bits(1.5));
    assert!((eye_distance(&applied) - 7.0).abs() < 1e-5);
}
