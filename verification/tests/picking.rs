use cgmath::{EuclideanSpace, InnerSpace, SquareMatrix, Transform as _};
use duck_scene::common::{Aabb, Matrix4, Point3, Quaternion, Scalar, Transform, Vector3, Vector4};
use duck_scene::resource::mesh::{Mesh, MeshPrimitive, PrimitiveType, Vertex};
use duck_scene::resource::handle::{InstanceId, MeshId, NodeId};
use duck_scene::resource::instance::Instance;
use duck_scene::resource::node::{NodeFlags, Visibility, DO_NOT_SELECT};
use duck_scene::resource::display::{DisplayBehavior, DisplayMath};
use duck_scene::camera::{CameraProjection, PositionedCamera};
use duck_scene::geom_query::pick_query::{
    pick_all, pick_all_with_view, PickMath, PickQuery, PickView,
};
use duck_scene::geom_query::volume_picking::{
    collect_volume_hit, pick_all_from_volume, MeshVolumeHit, VolumeMath, VolumePickQuery,
};
use duck_scene::data::SceneData;

fn bits(x: f32) -> Scalar {
    x.to_bits()
}

fn float(x: Scalar) -> f32 {
    f32::from_bits(x)
}

fn point(x: f32, y: f32, z: f32) -> Point3 {
    Point3 { x: bits(x), y: bits(y), z: bits(z) }
}

fn vector(x: f32, y: f32, z: f32) -> Vector3 {
    Vector3 { x: bits(x), y: bits(y), z: bits(z) }
}

fn point_out(p: Point3) -> cgmath::Point3<f32> {
    cgmath::Point3::new(float(p.x), float(p.y), float(p.z))
}

fn point_in(p: cgmath::Point3<f32>) -> Point3 {
    point(p.x, p.y, p.z)
}

fn vector_out(v: Vector3) -> cgmath::Vector3<f32> {
    cgmath::Vector3::new(float(v.x), float(v.y), float(v.z))
}

fn vector_in(v: cgmath::Vector3<f32>) -> Vector3 {
    vector(v.x, v.y, v.z)
}

fn column_out(c: Vector4) -> cgmath::Vector4<f32> {
    cgmath::Vector4::new(float(c.x), float(c.y), float(c.z), float(c.w))
}

fn column_in(c: cgmath::Vector4<f32>) -> Vector4 {
    Vector4 { x: bits(c.x), y: bits(c.y), z: bits(c.z), w: bits(c.w) }
}

fn matrix_out(m: Matrix4) -> cgmath::Matrix4<f32> {
    cgmath::Matrix4::from_cols(
        column_out(m.x),
        column_out(m.y),
        column_out(m.z),
        column_out(m.w),
    )
}

fn matrix_in(m: cgmath::Matrix4<f32>) -> Matrix4 {
    Matrix4 { x: column_in(m.x), y: column_in(m.y), z: column_in(m.z), w: column_in(m.w) }
}

fn quaternion_out(q: Quaternion) -> cgmath::Quaternion<f32> {
    cgmath::Quaternion::from_sv(float(q.s), vector_out(q.v))
}

fn local_matrix(t: Transform) -> cgmath::Matrix4<f32> {
    let scale = vector_out(t.scale);
    cgmath::Matrix4::from_translation(point_out(t.position).to_vec())
        * cgmath::Matrix4::from(quaternion_out(t.rotation))
        * cgmath::Matrix4::from_nonuniform_scale(scale.x, scale.y, scale.z)
}

fn compose(parent: Matrix4, local: Transform) -> Matrix4 {
    matrix_in(matrix_out(parent) * local_matrix(local))
}

fn placed_at(x: f32, y: f32, z: f32) -> Transform {
    Transform::from_position(point(x, y, z))
}

fn length2(v: Vector3) -> Scalar {
    bits(vector_out(v).magnitude2())
}

fn length(v: Vector3) -> Scalar {
    bits(vector_out(v).magnitude())
}

fn unit(v: Vector3) -> Vector3 {
    vector_in(vector_out(v).normalize())
}

fn place(bounds: Aabb, m: Matrix4) -> Aabb {
    let m = matrix_out(m);
    let (lo, hi) = (point_out(bounds.min), point_out(bounds.max));
    let mut out: Option<Aabb> = None;
    for i in 0..8 {
        let corner = cgmath::Point3::new(
            if i & 1 == 0 { lo.x } else { hi.x },
            if i & 2 == 0 { lo.y } else { hi.y },
            if i & 4 == 0 { lo.z } else { hi.z },
        );
        let p = point_in(m.transform_point(corner));
        out = Some(match out {
            Some(b) => merge(b, Aabb { min: p, max: p }),
            None => Aabb { min: p, max: p },
        });
    }
    out.unwrap()
}

fn merge(a: Aabb, b: Aabb) -> Aabb {
    let low = |x: Scalar, y: Scalar| bits(float(x).min(float(y)));
    let high = |x: Scalar, y: Scalar| bits(float(x).max(float(y)));
    Aabb {
        min: Point3 {
            x: low(a.min.x, b.min.x),
            y: low(a.min.y, b.min.y),
            z: low(a.min.z, b.min.z),
        },
        max: Point3 {
            x: high(a.max.x, b.max.x),
            y: high(a.max.y, b.max.y),
            z: high(a.max.z, b.max.z),
        },
    }
}

fn vertex(x: f32, y: f32, z: f32) -> Vertex {
    Vertex {
        position: point(x, y, z),
        tex_coords: vector(x, y, 0.0),
        normal: vector(0.0, 1.0, 0.0),
    }
}

fn triangle_mesh(id: MeshId) -> Mesh {
    let vertices = vec![vertex(0.0, 0.0, 0.0), vertex(1.0, 0.0, 0.0), vertex(0.5, 1.0, 0.0)];
    let primitives = vec![MeshPrimitive {
        primitive_type: PrimitiveType::TriangleList,
        indices: vec![0, 1, 2],
    }];
    let bounds = Aabb { min: point(0.0, 0.0, 0.0), max: point(1.0, 1.0, 0.0) };
    Mesh::from_raw(id, vertices, primitives, Some(bounds))
}

fn depth(p: Point3, camera: PositionedCamera) -> Scalar {
    let ahead = vector_out(ahead(camera));
    bits((point_out(p) - point_out(camera.eye)).dot(ahead))
}

fn ahead(camera: PositionedCamera) -> Vector3 {
    vector_in((point_out(camera.target) - point_out(camera.eye)).normalize())
}

fn distance(a: Point3, b: Point3) -> Scalar {
    bits((point_out(b) - point_out(a)).magnitude())
}

fn pixel(depth: Scalar, fovy: Scalar, height: u32) -> Scalar {
    let half = cgmath::Rad::from(cgmath::Deg(float(fovy))).0 / 2.0;
    bits(2.0 * float(depth) * half.tan() / height as f32)
}

fn effective(display: DisplayBehavior, world: Matrix4, view: PickView) -> Matrix4 {
    let math = DisplayMath {
        toward: |a: Point3, b: Point3| vector_in(point_out(b) - point_out(a)),
        ahead,
        length2,
        length,
        unit,
        cross: |a: Vector3, b: Vector3| vector_in(vector_out(a).cross(vector_out(b))),
        scaled: |v: Vector3, s: Scalar| vector_in(vector_out(v) * float(s)),
        depth,
        distance,
        pixel,
        times: |a: Scalar, b: Scalar| bits(float(a) * float(b)),
    };
    display.effective_transform(world, &view.camera, view.height, &math)
}

fn camera_at(eye: Point3) -> PositionedCamera {
    PositionedCamera {
        eye,
        target: point(0.0, 0.0, 0.0),
        up: vector(0.0, 1.0, 0.0),
        aspect: bits(1.0),
        projection: CameraProjection {
            fovy: bits(45.0),
            znear: bits(0.1),
            zfar: bits(100.0),
            ortho: false,
        },
    }
}

fn test_view() -> PickView {
    PickView { camera: camera_at(point(0.0, 0.0, 5.0)), width: 256, height: 256 }
}

fn invert(m: Matrix4) -> Option<Matrix4> {
    matrix_out(m).invert().map(matrix_in)
}

struct AlwaysHitQuery;

impl PickQuery for AlwaysHitQuery {
    type Result = NodeId;

    fn might_intersect_bounds(&self, _bounds: &Aabb) -> bool {
        true
    }

    fn transform(&self, _matrix: &Matrix4) -> Self {
        AlwaysHitQuery
    }

    fn collect_mesh_hits(
        &self,
        _mesh: &Mesh,
        node_id: NodeId,
        _instance_id: InstanceId,
        _world_transform: &Matrix4,
        results: &mut Vec<NodeId>,
    ) {
        results.push(node_id);
    }
}

fn make_geometry_node(
    scene: &mut SceneData,
    id: NodeId,
    parent: Option<NodeId>,
    flags: NodeFlags,
) -> NodeId {
    let mesh = scene.add_mesh(triangle_mesh(id + 100));
    let instance = Instance::new(id + 200, mesh);
    let node = scene
        .add_instance_node(id, parent, instance, None, Transform::identity(), flags)
        .unwrap();
    node.id()
}

fn picked<Q: PickQuery>(query: &Q, scene: &mut SceneData) -> Vec<Q::Result> {
    pick_all(query, scene, &PickMath { compose, place, merge, invert, effective })
}

#[test]
fn test_normal_node_is_pickable() {
    let mut scene = SceneData::new();
    let node_id = make_geometry_node(&mut scene, 1, None, NodeFlags::none());

    let hits = picked(&AlwaysHitQuery, &mut scene);
    assert_eq!(hits, vec![node_id]);
}

#[test]
fn test_do_not_select_skips_node() {
    let mut scene = SceneData::new();
    let _node_id = make_geometry_node(&mut scene, 1, None, NodeFlags::of(DO_NOT_SELECT));

    let hits = picked(&AlwaysHitQuery, &mut scene);
    assert!(hits.is_empty());
}

#[test]
fn test_do_not_select_skips_children() {
    let mut scene = SceneData::new();
    let parent = scene
        .add_node(1, None, None, Transform::identity(), NodeFlags::of(DO_NOT_SELECT))
        .unwrap();
    let _child = make_geometry_node(&mut scene, 2, Some(parent.id()), NodeFlags::none());

    let hits = picked(&AlwaysHitQuery, &mut scene);
    assert!(hits.is_empty());
}

/// Picks what lies on the positive side of a plane across the first axis.
struct Beyond(f32);

impl PickQuery for Beyond {
    type Result = (NodeId, InstanceId);

    fn might_intersect_bounds(&self, bounds: &Aabb) -> bool {
        float(bounds.max.x) > self.0
    }

    fn transform(&self, matrix: &Matrix4) -> Self {
        let p = cgmath::Point3::new(self.0, 0.0, 0.0);
        Beyond(matrix_out(*matrix).transform_point(p).x)
    }

    fn collect_mesh_hits(
        &self,
        mesh: &Mesh,
        node_id: NodeId,
        instance_id: InstanceId,
        _world_transform: &Matrix4,
        results: &mut Vec<(NodeId, InstanceId)>,
    ) {
        if mesh.vertices().iter().any(|v| float(v.position.x) > self.0) {
            results.push((node_id, instance_id));
        }
    }
}

#[test]
fn queries_see_meshes_in_their_own_space() {
    let mut scene = SceneData::new();
    let near = make_geometry_node(&mut scene, 1, None, NodeFlags::none());
    let far = make_geometry_node(&mut scene, 2, None, NodeFlags::none());
    scene.set_node_transform(far, placed_at(10.0, 0.0, 0.0));
    assert_eq!(picked(&Beyond(0.5), &mut scene), vec![(near, 201), (far, 202)]);
    assert_eq!(picked(&Beyond(5.0), &mut scene), vec![(far, 202)]);
    assert_eq!(picked(&Beyond(50.0), &mut scene), vec![]);
}

#[test]
fn a_collapsed_node_is_not_picked() {
    let mut scene = SceneData::new();
    let node = make_geometry_node(&mut scene, 1, None, NodeFlags::none());
    scene.set_node_scale(node, vector(1.0, 0.0, 1.0));
    assert!(picked(&AlwaysHitQuery, &mut scene).is_empty());
}

#[test]
fn picking_does_not_ask_for_visibility() {
    let mut scene = SceneData::new();
    let node = make_geometry_node(&mut scene, 1, None, NodeFlags::none());
    let child = make_geometry_node(&mut scene, 2, Some(node), NodeFlags::none());
    assert_eq!(picked(&AlwaysHitQuery, &mut scene), vec![node, child]);
    scene.set_node_visibility(child, Visibility::Invisible);
    assert_eq!(picked(&AlwaysHitQuery, &mut scene), vec![node, child]);
}

#[test]
fn a_view_picks_screen_sized_nodes_where_they_are_drawn() {
    let mut scene = SceneData::new();
    let node = make_geometry_node(&mut scene, 1, None, NodeFlags::none());
    let shown = DisplayBehavior { screen_size: Some(bits(2000.0)), ..Default::default() };
    scene.set_node_display(node, shown);
    let math = PickMath { compose, place, merge, invert, effective };
    let seen = pick_all_with_view(&Beyond(2.0), &mut scene, Some(test_view()), &math);
    assert_eq!(seen, vec![(node, 201)]);
    let unseen = pick_all_with_view(&Beyond(2.0), &mut scene, None, &math);
    assert_eq!(unseen, vec![]);
}

#[test]
fn volume_hits_name_their_node() {
    let mut results = vec![];
    collect_volume_hit(None, 1, 2, &mut results);
    assert!(results.is_empty());
    let hit = MeshVolumeHit { triangle_indices: vec![3, 4], fully_contained: true };
    collect_volume_hit(Some(hit), 1, 2, &mut results);
    assert_eq!(results.len(), 1);
    assert_eq!((results[0].node_id, results[0].instance_id), (1, 2));
    assert_eq!(results[0].triangle_indices, vec![3, 4]);
    assert!(results[0].fully_contained);
}

/// The half of space beyond a plane across the first axis.
#[derive(Clone)]
struct Half(f32);

fn half_meets(half: &Half, bounds: Aabb) -> bool {
    float(bounds.max.x) > half.0
}

fn half_moved(half: &Half, matrix: Matrix4) -> Half {
    let p = cgmath::Point3::new(half.0, 0.0, 0.0);
    Half(matrix_out(matrix).transform_point(p).x)
}

fn half_cut(half: &Half, mesh: &Mesh, thorough: bool) -> Option<MeshVolumeHit> {
    let beyond = |p: Point3| float(p.x) > half.0;
    let mut triangle_indices = vec![];
    let mut k: usize = 0;
    while let Some(t) = mesh.triangle(k) {
        if [t.a, t.b, t.c].into_iter().any(beyond) || thorough {
            triangle_indices.push(k);
        }
        k += 1;
    }
    if triangle_indices.is_empty() {
        return None;
    }
    let fully_contained = mesh.vertices().iter().all(|v| beyond(v.position));
    Some(MeshVolumeHit { triangle_indices, fully_contained })
}

#[test]
fn volumes_pick_what_they_touch() {
    let mut scene = SceneData::new();
    let near = make_geometry_node(&mut scene, 1, None, NodeFlags::none());
    let far = make_geometry_node(&mut scene, 2, None, NodeFlags::none());
    let hidden = make_geometry_node(&mut scene, 3, None, NodeFlags::of(DO_NOT_SELECT));
    scene.set_node_transform(far, placed_at(10.0, 0.0, 0.0));
    scene.set_node_transform(hidden, placed_at(10.0, 0.0, 0.0));
    let volumes = VolumeMath { meets: half_meets, moved: half_moved, cut: half_cut };
    let math = PickMath { compose, place, merge, invert, effective };

    let found = pick_all_from_volume(Half(0.75), &mut scene, false, &volumes, &math);
    assert_eq!(found.iter().map(|f| f.node_id).collect::<Vec<_>>(), vec![near, far]);
    assert_eq!(found.iter().map(|f| f.instance_id).collect::<Vec<_>>(), vec![201, 202]);
    assert_eq!(found[0].triangle_indices, vec![0]);
    assert!(!found[0].fully_contained);
    assert!(found[1].fully_contained);

    let found = pick_all_from_volume(Half(5.0), &mut scene, false, &volumes, &math);
    assert_eq!(found.len(), 1);
    assert_eq!(found[0].node_id, far);
    assert!(pick_all_from_volume(Half(50.0), &mut scene, true, &volumes, &math).is_empty());
}

#[test]
fn a_volume_query_moves_with_its_volume() {
    let volumes = VolumeMath { meets: half_meets, moved: half_moved, cut: half_cut };
    let query = VolumePickQuery::new(Half(1.0), true, &volumes);
    let reach = |x: f32| Aabb { min: point(0.0, 0.0, 0.0), max: point(x, 1.0, 1.0) };
    assert!(query.might_intersect_bounds(&reach(1.5)));
    assert!(!query.might_intersect_bounds(&reach(0.5)));
    let shift = matrix_in(local_matrix(placed_at(-1.0, 0.0, 0.0)));
    let moved = query.transform(&shift);
    assert!(moved.might_intersect_bounds(&reach(0.5)));
    // The flag is kept: thorough tests find the triangle that no corner gives away.
    let mut results = vec![];
    let beyond = VolumePickQuery::new(Half(7.0), true, &volumes).transform(&shift);
    beyond.collect_mesh_hits(&triangle_mesh(1), 5, 6, &shift, &mut results);
    assert_eq!(results.len(), 1);
    assert_eq!((results[0].node_id, results[0].instance_id), (5, 6));
    let quick = VolumePickQuery::new(Half(7.0), false, &volumes).transform(&shift);
    quick.collect_mesh_hits(&triangle_mesh(1), 5, 6, &shift, &mut results);
    assert_eq!(results.len(), 1);
}
