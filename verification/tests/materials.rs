use duck_scene::common::{RgbaColor, Scalar};
use duck_scene::data::SceneData;
use duck_scene::resource::instance::Instance;
use duck_scene::resource::mesh::Mesh;
use duck_scene::resource::texture::{Texture, TextureSource};
use duck_scene::resource::material::{
    AlphaMode, FaceMaterial, LineMaterial, MaterialFlags, MaterialProperties, PointMaterial,
    DOUBLE_SIDED, DO_NOT_LIGHT,
};

fn bits(x: f32) -> Scalar {
    x.to_bits()
}

fn translucent() -> RgbaColor {
    RgbaColor { r: bits(0.4), g: bits(0.7), b: bits(0.9), a: bits(0.3) }
}

#[test]
fn auto_infers_from_factor_alpha() {
    assert_eq!(AlphaMode::Auto.resolve(bits(1.0)), AlphaMode::Opaque);
    assert_eq!(AlphaMode::Auto.resolve(bits(0.3)), AlphaMode::Blend);
}

#[test]
fn explicit_modes_are_never_overridden() {
    assert_eq!(AlphaMode::Blend.resolve(bits(1.0)), AlphaMode::Blend);
    assert_eq!(AlphaMode::Opaque.resolve(bits(0.3)), AlphaMode::Opaque);
    assert_eq!(AlphaMode::Mask.resolve(bits(0.3)), AlphaMode::Mask);
    assert_eq!(AlphaMode::Mask.resolve(bits(1.0)), AlphaMode::Mask);
}

#[test]
fn face_material_resolves_against_its_base_color() {
    let opaque = FaceMaterial::new(1);
    assert_eq!(opaque.properties().alpha_mode, AlphaMode::Opaque);

    let blended = FaceMaterial::new(2).with_base_color_factor(translucent());
    assert_eq!(blended.properties().alpha_mode, AlphaMode::Blend);

    let masked = FaceMaterial::new(3)
        .with_base_color_factor(translucent())
        .with_alpha_mode(AlphaMode::Mask);
    assert_eq!(masked.properties().alpha_mode, AlphaMode::Mask);
}

#[test]
fn line_and_point_materials_blend_when_translucent() {
    assert_eq!(
        LineMaterial::new(1, RgbaColor::white()).properties().alpha_mode,
        AlphaMode::Opaque
    );
    assert_eq!(LineMaterial::new(2, translucent()).properties().alpha_mode, AlphaMode::Blend);
    assert_eq!(PointMaterial::new(3, translucent()).properties().alpha_mode, AlphaMode::Blend);
}

#[test]
fn unlit_opaque_binds_nothing() {
    let props = MaterialProperties::unlit_opaque();
    assert_eq!(
        props,
        MaterialProperties {
            has_lighting: false,
            double_sided: false,
            alpha_mode: AlphaMode::Opaque,
            base_color_texture: false,
            normal_texture: false,
            metallic_roughness_texture: false,
        }
    );
}

#[test]
fn flags_select_lighting_and_sides() {
    let lit = FaceMaterial::new(1);
    assert!(lit.properties().has_lighting);
    assert!(!lit.properties().double_sided);
    let flat = FaceMaterial::new(2)
        .with_flags(MaterialFlags::none().with(DO_NOT_LIGHT).with(DOUBLE_SIDED));
    assert!(!flat.properties().has_lighting);
    assert!(flat.properties().double_sided);
}

#[test]
fn alpha_just_below_one_blends_and_nan_does_not() {
    let below = f32::from_bits(bits(1.0) - 1);
    assert_eq!(AlphaMode::Auto.resolve(bits(below)), AlphaMode::Blend);
    assert_eq!(AlphaMode::Auto.resolve(bits(f32::NAN)), AlphaMode::Opaque);
    assert_eq!(AlphaMode::Auto.resolve(bits(-0.0)), AlphaMode::Blend);
}

#[test]
fn every_texture_slot_is_set_on_its_own() {
    let mut scene = SceneData::new();
    let first = scene.add_texture(Texture::from_rgba(1, 1, 1, vec![1, 2, 3, 4]));
    let second = scene.add_texture(Texture::from_path(2, "bumps.png".to_string()));
    let mut material = FaceMaterial::new(3);
    assert!(material.set_normal_texture(Some(first)).is_none());
    assert!(material.set_metallic_roughness_texture(Some(second)).is_none());
    let properties = material.properties();
    assert!(!properties.base_color_texture);
    assert!(properties.normal_texture);
    assert!(properties.metallic_roughness_texture);
    let replaced = material.set_normal_texture(None);
    assert_eq!(replaced.map(|handle| handle.id), Some(1));
    assert!(!material.properties().normal_texture);
}

#[test]
fn resources_are_edited_in_place() {
    let mut scene = SceneData::new();
    let texture = scene.add_texture(Texture::from_rgba(1, 1, 1, vec![1, 2, 3, 4]));
    assert!(scene.texture_handle(9).is_none());
    let again = scene.texture_handle(1).unwrap();
    assert_eq!(again.id, 1);
    assert_eq!(again.core, texture.core);
    assert!(scene.get_texture_mut(9).is_none());
    assert_eq!(scene.get_texture_mut(1).unwrap().id(), 1);
    scene.get_texture_mut(1).unwrap().set_source(TextureSource::Path("wood.png".to_string()));
    assert_eq!(scene.get_texture(1).unwrap().generation(), 2);
    assert!(matches!(
        scene.get_texture(1).unwrap().source(),
        TextureSource::Path(path) if path == "wood.png"
    ));

    let face = scene.add_face_material(FaceMaterial::new(2));
    scene.get_face_material_mut(2).unwrap().set_base_color_texture(Some(texture));
    assert!(scene.get_face_material(2).unwrap().properties().base_color_texture);

    let line = scene.add_line_material(LineMaterial::new(3, RgbaColor::white()));
    scene.get_line_material_mut(3).unwrap().set_color(translucent());
    assert_eq!(scene.get_line_material(3).unwrap().generation(), 2);
    assert_eq!(scene.get_line_material(3).unwrap().properties().alpha_mode, AlphaMode::Blend);

    let point = scene.add_point_material(PointMaterial::new(4, RgbaColor::white()));
    scene.get_point_material_mut(4).unwrap().set_color(translucent());
    assert_eq!(scene.get_point_material(4).unwrap().generation(), 2);
    assert_eq!(scene.get_point_material(4).unwrap().parts().color, translucent());
    assert_eq!(scene.point_material_count(), 1);

    let mesh = scene.add_mesh(Mesh::from_raw(5, vec![], vec![], None));
    let instance = Instance::new(6, mesh).with_point_material(point);
    assert_eq!(instance.point_material(), Some(4));
    let instance = scene.add_instance(instance);
    assert_eq!(scene.get_instance_mut(6).unwrap().point_material(), Some(4));
    scene.get_instance_mut(6).unwrap().set_line_material(Some(line));
    assert_eq!(scene.get_instance(6).unwrap().line_material(), Some(3));

    scene.remove_face_material(2);
    scene.remove_line_material(3);
    scene.remove_point_material(4);
    scene.remove_instance(6);
    assert!(scene.get_face_material(2).is_none());
    assert!(scene.get_line_material(3).is_none());
    assert_eq!(scene.point_material_count(), 0);
    assert!(scene.get_instance(6).is_none());
    scene.release(face);
    scene.release(instance);

    let sky = scene.add_environment_map_from_hdr_path(7, "sky.hdr".to_string());
    scene.get_environment_map_mut(sky).unwrap().set_intensity(bits(0.5));
    assert_eq!(scene.get_environment_map(sky).unwrap().intensity(), bits(0.5));
    assert!(scene.get_environment_map_mut(8).is_none());
}

#[test]
fn every_setter_counts_the_change() {
    let mut face = FaceMaterial::new(1);
    assert_eq!(face.generation(), 1);
    face.set_base_color_factor(translucent());
    face.set_metallic(bits(0.25));
    face.set_roughness(bits(0.75));
    face.set_normal_scale(bits(2.0));
    face.set_alpha_cutoff(bits(0.1));
    face.set_alpha_mode(AlphaMode::Mask);
    face.set_flags(MaterialFlags::none().with(DOUBLE_SIDED));
    assert_eq!(face.generation(), 8);
    assert_eq!(face.parts().base_color_factor, translucent());
    assert_eq!((face.parts().metallic, face.parts().roughness), (bits(0.25), bits(0.75)));
    assert_eq!((face.parts().normal_scale, face.parts().alpha_cutoff), (bits(2.0), bits(0.1)));
    assert_eq!(face.properties().alpha_mode, AlphaMode::Mask);
    assert!(face.properties().double_sided);

    let mut line = LineMaterial::new(2, RgbaColor::white());
    line.set_color(translucent());
    line.set_alpha_mode(AlphaMode::Opaque);
    assert_eq!((line.generation(), line.parts().color), (3, translucent()));
    assert_eq!(line.properties().alpha_mode, AlphaMode::Opaque);

    let mut point = PointMaterial::new(3, RgbaColor::white());
    point.set_color(translucent());
    point.set_alpha_mode(AlphaMode::Mask);
    assert_eq!((point.generation(), point.parts().color), (3, translucent()));
    assert_eq!(point.properties().alpha_mode, AlphaMode::Mask);
}
