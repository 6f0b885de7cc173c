use duck_scene::resource::handle::{FaceMaterialHandle, Handle, LineMaterialHandle, MeshHandle};
use duck_scene::resource::instance::Instance;

fn face_handle(id: u64) -> FaceMaterialHandle {
    Handle::unbound(id)
}

fn mesh_handle(id: u64) -> MeshHandle {
    Handle::unbound(id)
}

#[test]
fn test_instance_new() {
    let instance = Instance::new(1, mesh_handle(2)).with_face_material(face_handle(3));

    assert_eq!(instance.mesh(), 2);
    assert_eq!(instance.face_material(), Some(3));
}

#[test]
fn test_instance_id_unique() {
    let instance1 = Instance::new(1, mesh_handle(4));
    let instance2 = Instance::new(2, mesh_handle(5));
    let instance3 = Instance::new(3, mesh_handle(6));

    assert_ne!(instance1.id(), instance2.id());
    assert_ne!(instance1.id(), instance3.id());
    assert_ne!(instance2.id(), instance3.id());
}

#[test]
fn test_instance_mesh_reference() {
    let mesh = mesh_handle(9);
    let id = mesh.id();
    let instance = Instance::new(1, mesh);
    assert_eq!(instance.mesh(), id);
    assert_eq!(instance.mesh_handle().id(), id);
}

#[test]
fn test_instance_material_slots() {
    let line: LineMaterialHandle = Handle::unbound(4);
    let instance = Instance::new(1, mesh_handle(2))
        .with_face_material(face_handle(3))
        .with_line_material(line);
    assert_eq!(instance.face_material(), Some(3));
    assert_eq!(instance.line_material(), Some(4));
    assert_eq!(instance.point_material(), None);
}

#[test]
fn test_instance_same_mesh_different_material() {
    let instance1 = Instance::new(1, mesh_handle(7)).with_face_material(face_handle(3));
    let instance2 = Instance::new(2, mesh_handle(7)).with_face_material(face_handle(4));

    assert_eq!(instance1.mesh(), instance2.mesh());
    assert_ne!(instance1.face_material(), instance2.face_material());
}

#[test]
fn test_instance_same_material_different_mesh() {
    let instance1 = Instance::new(1, mesh_handle(7)).with_face_material(face_handle(3));
    let instance2 = Instance::new(2, mesh_handle(8)).with_face_material(face_handle(3));

    assert_ne!(instance1.mesh(), instance2.mesh());
    assert_eq!(instance1.face_material(), instance2.face_material());
}

#[test]
fn setters_hand_back_what_they_replace() {
    let mut instance = Instance::new(1, mesh_handle(2)).with_face_material(face_handle(3));
    assert_eq!(instance.set_mesh(mesh_handle(8)).id(), 2);
    assert_eq!(instance.mesh(), 8);
    assert_eq!(instance.set_face_material(None).unwrap().id(), 3);
    assert!(instance.set_face_material(Some(face_handle(4))).is_none());
    assert_eq!(instance.face_material(), Some(4));
    assert!(instance.set_line_material(None).is_none());
    assert!(instance.set_point_material(Some(Handle::unbound(5))).is_none());
    assert_eq!(instance.point_material(), Some(5));
    assert_eq!(instance.point_material_handle().unwrap().id(), 5);
}
