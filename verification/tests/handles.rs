use duck_scene::common::{Aabb, Point3, Scalar, Transform, Vector3};
use duck_scene::resource::mesh::{Mesh, MeshPrimitive, PrimitiveType, Vertex};
use duck_scene::resource::handle::{
    FaceMaterialHandle, Handle, Ledger, MeshHandle, MeshId, ResourceKind,
};
use duck_scene::resource::instance::Instance;
use duck_scene::resource::node::{NodeFlags, NodePayload};
use duck_scene::resource::material::FaceMaterial;
use duck_scene::data::SceneData;

fn bits(x: f32) -> Scalar {
    x.to_bits()
}

fn point(x: f32, y: f32, z: f32) -> Point3 {
    Point3 { x: bits(x), y: bits(y), z: bits(z) }
}

fn vector(x: f32, y: f32, z: f32) -> Vector3 {
    Vector3 { x: bits(x), y: bits(y), z: bits(z) }
}

fn vertex(x: f32, y: f32, z: f32) -> Vertex {
    Vertex {
        position: point(x, y, z),
        tex_coords: vector(x, y, 0.0),
        normal: vector(0.0, 1.0, 0.0),
    }
}

fn triangle_mesh(id: MeshId) -> Mesh {
    let vertices = vec![vertex(0.0, 0.0, 0.0), vertex(1.0, 0.0, 0.0), vertex(0.5, 1.0, 0.0)];
    let primitives = vec![MeshPrimitive {
        primitive_type: PrimitiveType::TriangleList,
        indices: vec![0, 1, 2],
    }];
    let bounds = Aabb { min: point(0.0, 0.0, 0.0), max: point(1.0, 1.0, 0.0) };
    Mesh::from_raw(id, vertices, primitives, Some(bounds))
}

fn add_mesh(scene: &mut SceneData, id: MeshId) -> MeshHandle {
    scene.add_mesh(triangle_mesh(id))
}

#[test]
fn clone_shares_identity() {
    let mut scene = SceneData::new();
    let mesh = add_mesh(&mut scene, 1);
    let other = scene.retain(&mesh);
    assert!(mesh.same_resource(&other));
    assert_eq!(mesh.id(), other.id());
}

#[test]
fn last_drop_reaps_resource() {
    let mut scene = SceneData::new();
    let mesh = add_mesh(&mut scene, 1);
    let id = mesh.id();
    assert_eq!(scene.mesh_count(), 1);

    scene.release(mesh);
    assert_eq!(scene.mesh_count(), 1);
    scene.reap();
    assert_eq!(scene.mesh_count(), 0);
    assert!(scene.get_mesh(id).is_none());
}

#[test]
fn surviving_clone_keeps_resource() {
    let mut scene = SceneData::new();
    let mesh = add_mesh(&mut scene, 1);
    let keep = scene.retain(&mesh);
    scene.release(mesh);
    scene.reap();
    assert_eq!(scene.mesh_count(), 1);
    scene.release(keep);
    scene.reap();
    assert_eq!(scene.mesh_count(), 0);
}

#[test]
fn reminted_handle_shares_refcount() {
    let mut scene = SceneData::new();
    let mesh = add_mesh(&mut scene, 1);
    let id = mesh.id();
    let again = scene.mesh_handle(id).unwrap();
    assert_eq!(scene.strong_count(&again), 2);
    scene.release(mesh);
    scene.reap();
    assert_eq!(scene.mesh_count(), 1);
    scene.release(again);
    scene.reap();
    assert_eq!(scene.mesh_count(), 0);
}

#[test]
fn revived_resource_survives_pending_drop() {
    let mut scene = SceneData::new();
    let mesh = add_mesh(&mut scene, 1);
    let id = mesh.id();
    scene.release(mesh);
    let revived = scene.mesh_handle(id).unwrap();
    scene.reap();
    assert_eq!(scene.mesh_count(), 1);
    scene.release(revived);
    scene.reap();
    assert_eq!(scene.mesh_count(), 0);
}

#[test]
fn instance_cascades_to_mesh_and_material() {
    let mut scene = SceneData::new();
    let mesh = add_mesh(&mut scene, 1);
    let mat = scene.add_face_material(FaceMaterial::new(2));
    let instance = scene.add_instance(Instance::new(3, mesh).with_face_material(mat));
    assert_eq!(scene.mesh_count(), 1);
    assert_eq!(scene.face_material_count(), 1);

    scene.release(instance);
    scene.reap();
    assert_eq!(scene.instance_count(), 0);
    assert_eq!(scene.mesh_count(), 0);
    assert_eq!(scene.face_material_count(), 0);
}

#[test]
fn shared_mesh_survives_cascade() {
    let mut scene = SceneData::new();
    let mesh = add_mesh(&mut scene, 1);
    let copy = scene.retain(&mesh);
    let a = scene.add_instance(Instance::new(2, copy));
    let b = scene.add_instance(Instance::new(3, mesh));
    scene.release(a);
    scene.reap();
    assert_eq!(scene.instance_count(), 1);
    assert_eq!(scene.mesh_count(), 1);
    scene.release(b);
    scene.reap();
    assert_eq!(scene.mesh_count(), 0);
}

#[test]
fn node_removal_cascades_subtree_and_resources() {
    let mut data = SceneData::new();
    let (root_id, child_id) = {
        let mesh = add_mesh(&mut data, 1);
        let instance = data.add_instance(Instance::new(2, mesh));
        let root = data
            .add_node(3, None, Some("root".to_string()), Transform::identity(), NodeFlags::none())
            .unwrap();
        let child_mesh = add_mesh(&mut data, 4);
        let child = data
            .add_instance_node(
                6,
                Some(root.id()),
                Instance::new(5, child_mesh),
                None,
                Transform::identity(),
                NodeFlags::none(),
            )
            .unwrap();
        data.set_node_payload(root.id(), NodePayload::Instance(instance));
        let ids = (root.id(), child.id());
        data.release(root);
        data.release(child);
        data.reap();
        ids
    };
    assert_eq!(data.node_count(), 2);
    assert_eq!(data.mesh_count(), 2);

    data.remove_node(root_id);
    assert_eq!(data.node_count(), 0);
    assert!(data.get_node(child_id).is_none());
    assert_eq!(data.instance_count(), 0);
    assert_eq!(data.mesh_count(), 0);
}

#[test]
fn external_handle_keeps_detached_node_alive() {
    let mut data = SceneData::new();
    let node = data
        .add_node(1, None, Some("kept".to_string()), Transform::identity(), NodeFlags::none())
        .unwrap();
    data.remove_node(node.id());
    assert_eq!(data.node_count(), 1);
    assert!(!data.is_node_attached(node.id()));
    assert!(data.root_nodes().is_empty());

    data.reparent_node(node.id(), None).unwrap();
    assert!(data.is_node_attached(node.id()));

    data.release(node);
    data.reap();
    assert_eq!(data.node_count(), 1);
    let root_id = data.root_nodes()[0];
    data.remove_node(root_id);
    assert_eq!(data.node_count(), 0);
}

#[test]
fn unbound_handle_is_inert() {
    let mut scene = SceneData::new();
    let handle: FaceMaterialHandle = Handle::unbound(7);
    assert_eq!(handle.id(), 7);
    assert!(scene.get_face_material(handle.id()).is_none());
    assert_eq!(scene.strong_count(&handle), 0);
    scene.release(handle);
    scene.reap();
    assert!(scene.take_removals().is_empty());
}

#[test]
fn removals_feed_reports_reaped_resources() {
    let mut scene = SceneData::new();
    let mesh = add_mesh(&mut scene, 1);
    let id = mesh.id();
    scene.release(mesh);
    scene.reap();
    let removals = scene.take_removals();
    assert!(removals.contains(&(ResourceKind::Mesh, id)));
    assert!(scene.take_removals().is_empty());
}

#[test]
fn reaping_twice_changes_nothing() {
    let mut scene = SceneData::new();
    let mesh = add_mesh(&mut scene, 1);
    let kept = add_mesh(&mut scene, 2);
    scene.release(mesh);
    scene.reap();
    scene.reap();
    assert_eq!(scene.meshes(), vec![2]);
    assert_eq!(scene.take_removals(), vec![(ResourceKind::Mesh, 1)]);
    assert_eq!(scene.strong_count(&kept), 1);
}

#[test]
fn room_shrinks_as_handles_are_made() {
    let mut scene = SceneData::new();
    let before = scene.room();
    let _mesh = add_mesh(&mut scene, 1);
    let after = scene.room();
    assert!(after.0 < before.0);
    assert_eq!(after.1, before.1);
}

#[test]
fn ledger_counts_and_queues() {
    let mut ledger = Ledger::new();
    let a = ledger.mint(10, ResourceKind::Mesh);
    let b = ledger.retain(&a);
    assert_eq!(ledger.strong_count(&a), 2);
    ledger.release(a);
    assert!(ledger.slot_live(10));
    assert_eq!(ledger.pop_dropped(), None);
    ledger.release(b);
    assert!(!ledger.slot_live(10));
    assert_eq!(ledger.pop_dropped(), Some((ResourceKind::Mesh, 10)));
    assert_eq!(ledger.pop_dropped(), None);
}
