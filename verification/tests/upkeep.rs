use cgmath::{EuclideanSpace, Transform as _};
use duck_scene::common::{Aabb, Matrix4, Point3, Quaternion, Scalar, Transform, Vector3, Vector4};
use duck_scene::data::{BoundingResult, SceneData};
use duck_scene::error::SceneError;
use duck_scene::light::Light;
use duck_scene::resource::handle::{Handle, MeshId, NodeId};
use duck_scene::resource::instance::Instance;
use duck_scene::resource::material::FaceMaterial;
use duck_scene::resource::mesh::{Mesh, MeshPrimitive, PrimitiveType, Vertex};
use duck_scene::resource::node::{
    EffectiveVisibility, Node, NodeFlags, NodePayload, Visibility,
};
use duck_scene::resource::texture::Texture;

fn bits(x: f32) -> Scalar {
    x.to_bits()
}

fn float(x: Scalar) -> f32 {
    f32::from_bits(x)
}

fn point(x: f32, y: f32, z: f32) -> Point3 {
    Point3 { x: bits(x), y: bits(y), z: bits(z) }
}

fn vector(x: f32, y: f32, z: f32) -> Vector3 {
    Vector3 { x: bits(x), y: bits(y), z: bits(z) }
}

fn point_out(p: Point3) -> cgmath::Point3<f32> {
    cgmath::Point3::new(float(p.x), float(p.y), float(p.z))
}

fn point_in(p: cgmath::Point3<f32>) -> Point3 {
    point(p.x, p.y, p.z)
}

fn vector_out(v: Vector3) -> cgmath::Vector3<f32> {
    cgmath::Vector3::new(float(v.x), float(v.y), float(v.z))
}

fn column_out(c: Vector4) -> cgmath::Vector4<f32> {
    cgmath::Vector4::new(float(c.x), float(c.y), float(c.z), float(c.w))
}

fn column_in(c: cgmath::Vector4<f32>) -> Vector4 {
    Vector4 { x: bits(c.x), y: bits(c.y), z: bits(c.z), w: bits(c.w) }
}

fn matrix_out(m: Matrix4) -> cgmath::Matrix4<f32> {
    cgmath::Matrix4::from_cols(
        column_out(m.x),
        column_out(m.y),
        column_out(m.z),
        column_out(m.w),
    )
}

fn matrix_in(m: cgmath::Matrix4<f32>) -> Matrix4 {
    Matrix4 { x: column_in(m.x), y: column_in(m.y), z: column_in(m.z), w: column_in(m.w) }
}

fn quaternion_out(q: Quaternion) -> cgmath::Quaternion<f32> {
    cgmath::Quaternion::from_sv(float(q.s), vector_out(q.v))
}

fn local_matrix(t: Transform) -> cgmath::Matrix4<f32> {
    let scale = vector_out(t.scale);
    cgmath::Matrix4::from_translation(point_out(t.position).to_vec())
        * cgmath::Matrix4::from(quaternion_out(t.rotation))
        * cgmath::Matrix4::from_nonuniform_scale(scale.x, scale.y, scale.z)
}

fn compose(parent: Matrix4, local: Transform) -> Matrix4 {
    matrix_in(matrix_out(parent) * local_matrix(local))
}

fn placed_at(x: f32, y: f32, z: f32) -> Transform {
    Transform::from_position(point(x, y, z))
}

fn place(bounds: Aabb, m: Matrix4) -> Aabb {
    let m = matrix_out(m);
    let (lo, hi) = (point_out(bounds.min), point_out(bounds.max));
    let mut out: Option<Aabb> = None;
    for i in 0..8 {
        let corner = cgmath::Point3::new(
            if i & 1 == 0 { lo.x } else { hi.x },
            if i & 2 == 0 { lo.y } else { hi.y },
            if i & 4 == 0 { lo.z } else { hi.z },
        );
        let p = point_in(m.transform_point(corner));
        out = Some(match out {
            Some(b) => merge(b, Aabb { min: p, max: p }),
            None => Aabb { min: p, max: p },
        });
    }
    out.unwrap()
}

fn merge(a: Aabb, b: Aabb) -> Aabb {
    let low = |x: Scalar, y: Scalar| bits(float(x).min(float(y)));
    let high = |x: Scalar, y: Scalar| bits(float(x).max(float(y)));
    Aabb {
        min: Point3 {
            x: low(a.min.x, b.min.x),
            y: low(a.min.y, b.min.y),
            z: low(a.min.z, b.min.z),
        },
        max: Point3 {
            x: high(a.max.x, b.max.x),
            y: high(a.max.y, b.max.y),
            z: high(a.max.z, b.max.z),
        },
    }
}

fn vertex(x: f32, y: f32, z: f32) -> Vertex {
    Vertex {
        position: point(x, y, z),
        tex_coords: vector(x, y, 0.0),
        normal: vector(0.0, 1.0, 0.0),
    }
}

fn triangle_mesh(id: MeshId) -> Mesh {
    let vertices = vec![vertex(0.0, 0.0, 0.0), vertex(1.0, 0.0, 0.0), vertex(0.5, 1.0, 0.0)];
    let primitives = vec![MeshPrimitive {
        primitive_type: PrimitiveType::TriangleList,
        indices: vec![0, 1, 2],
    }];
    let bounds = Aabb { min: point(0.0, 0.0, 0.0), max: point(1.0, 1.0, 0.0) };
    Mesh::from_raw(id, vertices, primitives, Some(bounds))
}

fn add(scene: &mut SceneData, id: NodeId, parent: Option<NodeId>, t: Transform) -> NodeId {
    let node = scene.add_node(id, parent, None, t, NodeFlags::none()).unwrap();
    scene.release(node);
    id
}

fn add_geometry(scene: &mut SceneData, id: NodeId, parent: Option<NodeId>) -> NodeId {
    let mesh = scene.add_mesh(triangle_mesh(id + 100));
    let node = scene
        .add_instance_node(
            id,
            parent,
            Instance::new(id + 200, mesh),
            None,
            Transform::identity(),
            NodeFlags::none(),
        )
        .unwrap();
    scene.release(node);
    id
}

fn origin(scene: &mut SceneData, id: NodeId) -> Option<Point3> {
    let m = scene.nodes_transform(id, &compose)?;
    Some(Point3 { x: m.w.x, y: m.w.y, z: m.w.z })
}

fn bounds(scene: &mut SceneData, id: NodeId) -> BoundingResult {
    scene.nodes_bounding(id, &compose, &place, &merge)
}

fn upper(scene: &mut SceneData, id: NodeId) -> Option<Point3> {
    let found = bounds(scene, id);
    assert!(!found.incomplete);
    found.bounds.map(|b| b.max)
}

fn carrier(id: NodeId, parent: Option<NodeId>) -> Node {
    let mut node = Node::new(id, None, Transform::identity(), NodeFlags::none());
    node.set_parent_unchecked(parent);
    node
}

fn line(scene: &mut SceneData, n: u64) {
    add(scene, 1, None, Transform::identity());
    for id in 2..=n {
        add(scene, id, Some(id - 1), Transform::identity());
    }
}

#[test]
fn an_instance_without_its_mesh_is_incomplete() {
    let mut scene = SceneData::new();
    assert!(scene.is_complete());
    let handle = scene.add_instance(Instance::new(7, Handle::unbound(8)));
    assert!(!scene.is_complete());
    let mesh = scene.add_mesh(triangle_mesh(8));
    assert!(scene.is_complete());
    scene.release(mesh);
    scene.release(handle);
}

#[test]
fn visibility_is_inherited() {
    let mut scene = SceneData::new();
    line(&mut scene, 3);
    scene.set_node_visibility(1, Visibility::Invisible);
    scene.set_node_visibility(2, Visibility::Visible);
    scene.set_node_visibility(3, Visibility::Visible);
    assert_eq!(scene.node_effective_visibility(3), EffectiveVisibility::Invisible);
    assert_eq!(scene.node_effective_visibility(2), EffectiveVisibility::Invisible);
    scene.set_node_visibility(1, Visibility::Visible);
    assert_eq!(scene.node_effective_visibility(3), EffectiveVisibility::Visible);
}

#[test]
fn adding_below_renews_the_bounds_of_all_above() {
    let mut scene = SceneData::new();
    line(&mut scene, 3);
    assert_eq!(upper(&mut scene, 1), None);
    add_geometry(&mut scene, 4, Some(3));
    assert_eq!(upper(&mut scene, 1), Some(point(1.0, 1.0, 0.0)));
    assert_eq!(upper(&mut scene, 2), Some(point(1.0, 1.0, 0.0)));
    scene.remove_node(4);
    assert_eq!(upper(&mut scene, 1), None);
    assert_eq!(upper(&mut scene, 3), None);
}

#[test]
fn inserting_below_renews_the_bounds_of_all_above() {
    let mut scene = SceneData::new();
    line(&mut scene, 2);
    let mesh = scene.add_mesh(triangle_mesh(50));
    let instance = scene.add_instance(Instance::new(51, mesh));
    assert_eq!(upper(&mut scene, 1), None);
    let mut node = carrier(3, Some(2));
    node.set_transform(placed_at(4.0, 0.0, 0.0));
    assert!(node.set_payload(NodePayload::Instance(instance)).is_none());
    let handle = scene.insert_node(node);
    assert_eq!(upper(&mut scene, 1), Some(point(5.0, 1.0, 0.0)));
    assert_eq!(scene.node_effective_visibility(1), EffectiveVisibility::Visible);
    scene.release(handle);
    scene.reap();
    assert!(scene.has_node(3));
    assert!(scene.is_node_attached(3));
}

#[test]
fn moving_a_node_renews_what_both_places_show() {
    let mut scene = SceneData::new();
    line(&mut scene, 3);
    add(&mut scene, 10, None, Transform::identity());
    add(&mut scene, 11, Some(10), Transform::identity());
    add_geometry(&mut scene, 20, Some(3));
    scene.set_node_visibility(20, Visibility::Invisible);
    assert_eq!(scene.node_effective_visibility(1), EffectiveVisibility::Mixed);
    assert_eq!(scene.node_effective_visibility(10), EffectiveVisibility::Visible);
    assert_eq!(upper(&mut scene, 1), Some(point(1.0, 1.0, 0.0)));
    assert_eq!(upper(&mut scene, 10), None);
    scene.reparent_node(20, Some(11)).unwrap();
    assert_eq!(scene.node_effective_visibility(1), EffectiveVisibility::Visible);
    assert_eq!(scene.node_effective_visibility(10), EffectiveVisibility::Mixed);
    assert_eq!(upper(&mut scene, 1), None);
    assert_eq!(upper(&mut scene, 10), Some(point(1.0, 1.0, 0.0)));
    scene.remove_node(20);
    assert_eq!(scene.node_effective_visibility(10), EffectiveVisibility::Visible);
    assert_eq!(upper(&mut scene, 10), None);
}

#[test]
fn a_detached_node_is_placed_by_itself() {
    let mut scene = SceneData::new();
    add(&mut scene, 1, None, placed_at(10.0, 0.0, 0.0));
    add(&mut scene, 2, Some(1), placed_at(1.0, 0.0, 0.0));
    add_geometry(&mut scene, 3, Some(2));
    assert_eq!(origin(&mut scene, 3), Some(point(11.0, 0.0, 0.0)));
    assert_eq!(upper(&mut scene, 2), Some(point(12.0, 1.0, 0.0)));
    let kept = scene.node_handle(2).unwrap();
    scene.remove_node(2);
    assert!(!scene.is_node_attached(2));
    assert_eq!(origin(&mut scene, 3), Some(point(1.0, 0.0, 0.0)));
    assert_eq!(upper(&mut scene, 2), Some(point(2.0, 1.0, 0.0)));
    scene.release(kept);
}

#[test]
fn an_orphan_is_placed_by_itself() {
    let mut scene = SceneData::new();
    add(&mut scene, 1, None, placed_at(10.0, 0.0, 0.0));
    add(&mut scene, 2, Some(1), placed_at(1.0, 0.0, 0.0));
    add_geometry(&mut scene, 3, Some(2));
    let top = scene.node_handle(1).unwrap();
    let kept = scene.node_handle(2).unwrap();
    scene.remove_node(1);
    assert_eq!(origin(&mut scene, 3), Some(point(11.0, 0.0, 0.0)));
    assert_eq!(upper(&mut scene, 2), Some(point(12.0, 1.0, 0.0)));
    scene.release(top);
    scene.reap();
    assert!(!scene.has_node(1));
    assert_eq!(scene.get_node(2).unwrap().parent, None);
    assert_eq!(origin(&mut scene, 3), Some(point(1.0, 0.0, 0.0)));
    assert_eq!(upper(&mut scene, 2), Some(point(2.0, 1.0, 0.0)));
    scene.release(kept);
}

#[test]
fn a_mesh_that_was_missing_completes_the_bounds() {
    let mut scene = SceneData::new();
    add(&mut scene, 1, None, placed_at(2.0, 0.0, 0.0));
    let node = scene
        .add_instance_node(
            2,
            Some(1),
            Instance::new(3, Handle::unbound(4)),
            None,
            Transform::identity(),
            NodeFlags::none(),
        )
        .unwrap();
    assert!(bounds(&mut scene, 2).incomplete);
    assert!(bounds(&mut scene, 1).incomplete);
    let mesh = scene.add_mesh(triangle_mesh(4));
    assert_eq!(upper(&mut scene, 2), Some(point(3.0, 1.0, 0.0)));
    assert_eq!(upper(&mut scene, 1), Some(point(3.0, 1.0, 0.0)));
    scene.release(mesh);
    scene.release(node);
}

#[test]
fn a_failed_add_leaves_no_trace() {
    let mut scene = SceneData::new();
    line(&mut scene, 2);
    let generation = scene.node_generation();
    let mesh = scene.add_mesh(triangle_mesh(30));
    let failed = scene.add_instance_node(
        3,
        Some(99),
        Instance::new(31, mesh),
        None,
        Transform::identity(),
        NodeFlags::none(),
    );
    assert!(matches!(failed, Err(SceneError::ParentNotFound(99))));
    assert!(!scene.has_node(3));
    assert_eq!(scene.root_nodes(), vec![1]);
    assert_eq!(scene.node_generation(), generation);
    scene.reap();
    assert_eq!(scene.instance_count(), 0);
    assert_eq!(scene.mesh_count(), 0);
    assert_eq!(scene.node_count(), 2);
}

#[test]
fn handles_from_before_clearing_are_inert() {
    let mut scene = SceneData::new();
    let old_mesh = scene.add_mesh(triangle_mesh(5));
    let old_node = scene
        .add_node(1, None, None, Transform::identity(), NodeFlags::none())
        .unwrap();
    let generation = scene.node_generation();
    scene.clear();
    assert_eq!((scene.mesh_count(), scene.node_count()), (0, 0));
    assert!(scene.root_nodes().is_empty());
    assert_eq!(scene.active_camera(), None);
    assert_eq!(scene.node_generation(), generation + 1);
    let new_mesh = scene.add_mesh(triangle_mesh(5));
    add(&mut scene, 1, None, Transform::identity());
    scene.release(old_mesh);
    scene.release(old_node);
    scene.reap();
    assert!(scene.get_mesh(5).is_some());
    assert!(scene.is_node_attached(1));
    scene.release(new_mesh);
    scene.reap();
    assert!(scene.get_mesh(5).is_none());
}

#[test]
fn a_node_below_an_absent_parent_stays_detached() {
    let mut scene = SceneData::new();
    let mut lamp = carrier(2, Some(77));
    lamp.set_payload(NodePayload::Light(Light::directional(
        duck_scene::common::RgbaColor { r: bits(1.0), g: bits(1.0), b: bits(1.0), a: bits(1.0) },
        bits(1.0),
    )));
    let handle = scene.insert_node(lamp);
    assert!(!scene.is_node_attached(2));
    assert!(!scene.has_light_nodes());
    assert_eq!(scene.light_count(), 0);
    assert!(scene.light_nodes().is_empty());
    assert!(scene.is_awaited(77));
    scene.reparent_node(2, None).unwrap();
    assert!(scene.is_node_attached(2));
    assert_eq!(scene.light_count(), 1);
    assert!(!scene.is_awaited(77));
    scene.release(handle);
    scene.remove_node(2);
    assert!(!scene.has_node(2));
}

#[test]
fn removing_a_node_below_an_absent_parent() {
    let mut scene = SceneData::new();
    let handle = scene.insert_node(carrier(2, Some(77)));
    scene.remove_node(2);
    assert!(scene.has_node(2));
    assert_eq!(scene.get_node(2).unwrap().parent, None);
    scene.release(handle);
    scene.reap();
    assert!(!scene.has_node(2));
}

#[test]
fn a_node_does_not_bring_its_caches() {
    let mut scene = SceneData::new();
    add(&mut scene, 1, None, placed_at(5.0, 0.0, 0.0));
    let mut node = carrier(2, Some(1));
    node.world_cache = Some(matrix_in(local_matrix(placed_at(9.0, 9.0, 9.0))));
    node.visibility_cache = Some(EffectiveVisibility::Mixed);
    let handle = scene.insert_node(node);
    assert_eq!(origin(&mut scene, 2), Some(point(5.0, 0.0, 0.0)));
    assert_eq!(scene.node_effective_visibility(2), EffectiveVisibility::Visible);
    scene.release(handle);
}

#[test]
fn circles_are_noticed() {
    let mut scene = SceneData::new();
    line(&mut scene, 3);
    assert!(scene.links_end());
    let stray = scene.insert_node(carrier(10, Some(11)));
    assert!(scene.ancestry_ends(10));
    let closing = scene.insert_node(carrier(11, None));
    assert!(scene.links_end());
    scene.release(stray);
    scene.release(closing);

    let mut circle = SceneData::new();
    let lower = circle.insert_node(carrier(10, Some(11)));
    let mut top = carrier(11, Some(10));
    top.add_child_unchecked(Handle::unbound(10));
    let upper = circle.insert_node(top);
    assert!(!circle.ancestry_ends(10));
    assert!(!circle.ancestry_ends(11));
    assert!(!circle.subtree_ends(11));
    assert!(!circle.subtree_ends(10));
    assert!(circle.ancestry_ends(12) && circle.subtree_ends(12));
    assert!(!circle.links_end());
    circle.release(lower);
    circle.release(upper);
}

#[test]
fn a_copy_holds_what_is_reached() {
    let mut scene = SceneData::new();
    add(&mut scene, 1, None, placed_at(1.0, 0.0, 0.0));
    add_geometry(&mut scene, 2, Some(1));
    scene.set_node_transform(2, placed_at(0.0, 2.0, 0.0));
    let kept = scene.node_handle(2).unwrap();
    let spare = scene.add_mesh(triangle_mesh(50));
    scene.set_active_camera(Some(1));
    let generation = scene.node_generation();

    let mut copy = scene.clone();
    assert_eq!(copy.root_nodes(), vec![1]);
    assert_eq!(copy.get_node(1).unwrap().child_ids(), vec![2]);
    assert_eq!(copy.get_node(2).unwrap().parent, Some(1));
    assert_eq!(origin(&mut copy, 2), Some(point(1.0, 2.0, 0.0)));
    assert_eq!((copy.mesh_count(), copy.instance_count()), (1, 1));
    assert!(copy.get_mesh(50).is_none());
    assert_eq!(copy.active_camera(), Some(1));
    assert_eq!(copy.node_generation(), generation);
    assert!(copy.take_removals().is_empty());

    // Handles from before mean nothing to the copy.
    copy.release(kept);
    copy.release(spare);
    copy.reap();
    assert_eq!((copy.node_count(), copy.mesh_count()), (2, 1));
    assert!(copy.take_removals().is_empty());

    // Copying once more changes nothing.
    let again = copy.clone();
    assert_eq!((again.node_count(), again.mesh_count()), (2, 1));
    assert_eq!(again.root_nodes(), vec![1]);
}

#[test]
fn rebinding_disconnects_the_handles_from_before() {
    let mut scene = SceneData::new();
    add_geometry(&mut scene, 1, None);
    let node = scene.node_handle(1).unwrap();
    let mesh = scene.mesh_handle(101).unwrap();
    let lost = scene.add_mesh(triangle_mesh(60));
    scene.rebind();
    assert!(scene.get_mesh(60).is_none());
    scene.release(node);
    scene.release(mesh);
    scene.release(lost);
    scene.reap();
    assert_eq!((scene.node_count(), scene.instance_count(), scene.mesh_count()), (1, 1, 1));
    scene.remove_node(1);
    scene.reap();
    assert_eq!((scene.node_count(), scene.instance_count(), scene.mesh_count()), (0, 0, 0));
}

#[test]
fn moving_a_node_carries_its_subtree_along() {
    let mut scene = SceneData::new();
    add(&mut scene, 1, None, placed_at(1.0, 0.0, 0.0));
    add(&mut scene, 2, None, placed_at(0.0, 5.0, 0.0));
    add(&mut scene, 3, Some(1), placed_at(0.0, 0.0, 2.0));
    add(&mut scene, 4, Some(3), placed_at(0.5, 0.0, 0.0));
    assert_eq!(origin(&mut scene, 4), Some(point(1.5, 0.0, 2.0)));
    scene.reparent_node(3, Some(2)).unwrap();
    assert_eq!(origin(&mut scene, 3), Some(point(0.0, 5.0, 2.0)));
    assert_eq!(origin(&mut scene, 4), Some(point(0.5, 5.0, 2.0)));
    assert_eq!(scene.get_node(4).unwrap().transform, placed_at(0.5, 0.0, 0.0));
    assert_eq!(origin(&mut scene, 1), Some(point(1.0, 0.0, 0.0)));
    scene.reparent_node(3, None).unwrap();
    assert_eq!(origin(&mut scene, 4), Some(point(0.5, 0.0, 2.0)));
}

#[test]
fn the_scene_is_as_big_as_its_roots_together() {
    let mut scene = SceneData::new();
    let empty = scene.bounding(&compose, &place, &merge);
    assert_eq!(empty, BoundingResult { bounds: None, incomplete: false });
    add(&mut scene, 1, None, Transform::identity());
    assert_eq!(scene.bounding(&compose, &place, &merge).bounds, None);
    add_geometry(&mut scene, 2, None);
    add_geometry(&mut scene, 3, None);
    scene.set_node_transform(3, placed_at(4.0, -1.0, 0.0));
    let all = scene.bounding(&compose, &place, &merge);
    assert_eq!(
        all.bounds,
        Some(Aabb { min: point(0.0, -1.0, 0.0), max: point(5.0, 1.0, 0.0) })
    );
    assert!(!all.incomplete);
    let handle = scene
        .add_instance_node(
            4,
            None,
            Instance::new(5, Handle::unbound(6)),
            None,
            Transform::identity(),
            NodeFlags::none(),
        )
        .unwrap();
    let some = scene.bounding(&compose, &place, &merge);
    assert_eq!(some.bounds, all.bounds);
    assert!(some.incomplete);
    scene.release(handle);
}

#[test]
fn a_mesh_that_is_replaced_in_place_goes() {
    let mut scene = SceneData::new();
    add_geometry(&mut scene, 1, None);
    let mesh = scene.add_mesh(triangle_mesh(70));
    let replaced = scene.get_instance_mut(201).unwrap().set_mesh(mesh);
    assert_eq!(replaced.id, 101);
    // The one that moved in stays, and so does the other while its handle is held.
    scene.reap();
    assert_eq!(scene.mesh_count(), 2);
    scene.release(replaced);
    scene.reap();
    assert!(scene.get_mesh(101).is_none());
    assert_eq!(scene.get_instance(201).unwrap().mesh(), 70);
    scene.remove_node(1);
    scene.reap();
    assert_eq!(scene.mesh_count(), 0);
}

#[test]
fn a_texture_that_is_replaced_in_place_goes() {
    let mut scene = SceneData::new();
    let first = scene.add_texture(Texture::from_rgba(1, 1, 1, vec![1, 2, 3, 4]));
    let second = scene.add_texture(Texture::from_rgba(2, 1, 1, vec![1, 2, 3, 4]));
    let face = scene.add_face_material(FaceMaterial::new(3));
    let material = scene.get_face_material_mut(3).unwrap();
    assert!(material.set_normal_texture(Some(first)).is_none());
    let replaced = material.set_normal_texture(Some(second)).unwrap();
    assert_eq!((replaced.id, material.generation()), (1, 3));
    scene.release(replaced);
    scene.reap();
    assert_eq!(scene.texture_count(), 1);
    scene.release(face);
    scene.reap();
    assert_eq!((scene.texture_count(), scene.face_material_count()), (0, 0));
}

#[test]
fn reaping_takes_what_nothing_owns() {
    let mut scene = SceneData::new();
    let mesh = scene.add_mesh(triangle_mesh(1));
    let kept = scene.retain(&mesh);
    let instance = scene.add_instance(Instance::new(2, mesh));
    let other = scene.add_mesh(triangle_mesh(3));
    let another = scene.add_instance(Instance::new(4, other));
    scene.release(instance);
    scene.reap();
    // The mesh that is held outside stays, and so does what is owned by what stays.
    assert!(scene.get_instance(2).is_none());
    assert!(scene.get_mesh(1).is_some());
    assert!(scene.get_instance(4).is_some());
    assert!(scene.get_mesh(3).is_some());
    scene.release(kept);
    scene.release(another);
    scene.reap();
    assert_eq!((scene.instance_count(), scene.mesh_count()), (0, 0));
}
