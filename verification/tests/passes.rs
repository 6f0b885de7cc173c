use cgmath::{EuclideanSpace, InnerSpace, Matrix, SquareMatrix};
use duck_scene::common::{
    Aabb, Matrix3, Matrix4, Point3, Quaternion, RgbaColor, Scalar, Transform, Vector3, Vector4,
};
use duck_scene::resource::mesh::{Mesh, MeshPrimitive, PrimitiveType, Vertex};
use duck_scene::resource::handle::{MeshId, ResourceKind};
use duck_scene::resource::instance::Instance;
use duck_scene::resource::node::NodeFlags;
use duck_scene::resource::display::{DisplayBehavior, DisplayMath, RenderLayer};
use duck_scene::resource::material::{AlphaMode, FaceMaterial, MaterialProperties};
use duck_scene::camera::{CameraProjection, PositionedCamera};
use duck_scene::geom_query::pick_query::PickView;
use duck_scene::data::{SceneData, SceneProperties};
use duck_scene::renderer::batching::{partition_batches, BatchMaterial};
use duck_scene::renderer::draw_data::{DrawData, DrawMath, Highlight, HighlightConfig};
use duck_scene::renderer::frame::{FrameMath, InstanceTransform};
use duck_scene::renderer::resources::SceneResources;
use duck_scene::renderer::pass_context::{
    BatchList, DrawOptions, Group, Pipeline, PipelineCacheKey, SceneFrame, Step, SurfaceConfig,
};
use duck_scene::renderer::pass::attachments::{AuxName, ColorLoad, DepthLoad, DepthTarget};
use duck_scene::renderer::pass::flat_color::{FlatColorPass, FlatColorPassDesc};
use duck_scene::renderer::pass::main_pass::{MainPass, OverlayPass, PrimitiveFilter};
use duck_scene::renderer::pass::outline_pass::{
    outline_passes, OutlineCompositePass, OutlineMaskPass, OutlineUniform, MAX_OUTLINE_WIDTH,
};
use duck_scene::renderer::pass::program::{Resource, Stages};
use duck_scene::renderer::pass::silhouette::{SilhouetteEdgesPass, SilhouetteUniform};
use duck_scene::renderer::pipeline::{ColorWrites, DepthBias, DepthTest, Face};
use duck_scene::renderer::workflow::{hidden_line, shaded, HiddenLineConfig, StockPass};
use duck_scene::shaders::{engine_library, ShaderGenerator};

fn bits(x: f32) -> Scalar {
    x.to_bits()
}

fn float(x: Scalar) -> f32 {
    f32::from_bits(x)
}

fn point(x: f32, y: f32, z: f32) -> Point3 {
    Point3 { x: bits(x), y: bits(y), z: bits(z) }
}

fn vector(x: f32, y: f32, z: f32) -> Vector3 {
    Vector3 { x: bits(x), y: bits(y), z: bits(z) }
}

fn point_out(p: Point3) -> cgmath::Point3<f32> {
    cgmath::Point3::new(float(p.x), float(p.y), float(p.z))
}

fn point_in(p: cgmath::Point3<f32>) -> Point3 {
    point(p.x, p.y, p.z)
}

fn vector_out(v: Vector3) -> cgmath::Vector3<f32> {
    cgmath::Vector3::new(float(v.x), float(v.y), float(v.z))
}

fn vector_in(v: cgmath::Vector3<f32>) -> Vector3 {
    vector(v.x, v.y, v.z)
}

fn column_out(c: Vector4) -> cgmath::Vector4<f32> {
    cgmath::Vector4::new(float(c.x), float(c.y), float(c.z), float(c.w))
}

fn column_in(c: cgmath::Vector4<f32>) -> Vector4 {
    Vector4 { x: bits(c.x), y: bits(c.y), z: bits(c.z), w: bits(c.w) }
}

fn matrix_out(m: Matrix4) -> cgmath::Matrix4<f32> {
    cgmath::Matrix4::from_cols(
        column_out(m.x),
        column_out(m.y),
        column_out(m.z),
        column_out(m.w),
    )
}

fn matrix_in(m: cgmath::Matrix4<f32>) -> Matrix4 {
    Matrix4 { x: column_in(m.x), y: column_in(m.y), z: column_in(m.z), w: column_in(m.w) }
}

fn quaternion_out(q: Quaternion) -> cgmath::Quaternion<f32> {
    cgmath::Quaternion::from_sv(float(q.s), vector_out(q.v))
}

fn local_matrix(t: Transform) -> cgmath::Matrix4<f32> {
    let scale = vector_out(t.scale);
    cgmath::Matrix4::from_translation(point_out(t.position).to_vec())
        * cgmath::Matrix4::from(quaternion_out(t.rotation))
        * cgmath::Matrix4::from_nonuniform_scale(scale.x, scale.y, scale.z)
}

fn compose(parent: Matrix4, local: Transform) -> Matrix4 {
    matrix_in(matrix_out(parent) * local_matrix(local))
}

fn length2(v: Vector3) -> Scalar {
    bits(vector_out(v).magnitude2())
}

fn length(v: Vector3) -> Scalar {
    bits(vector_out(v).magnitude())
}

fn unit(v: Vector3) -> Vector3 {
    vector_in(vector_out(v).normalize())
}

fn normal_matrix(m: Matrix4) -> Matrix3 {
    let m = matrix_out(m);
    let upper = cgmath::Matrix3::from_cols(m.x.truncate(), m.y.truncate(), m.z.truncate());
    let n = match upper.invert() {
        Some(inverse) => inverse.transpose(),
        None => cgmath::Matrix3::identity(),
    };
    Matrix3 { x: vector_in(n.x), y: vector_in(n.y), z: vector_in(n.z) }
}

fn center(b: Aabb) -> Point3 {
    point_in(point_out(b.min).midpoint(point_out(b.max)))
}

fn depth(p: Point3, camera: PositionedCamera) -> Scalar {
    let ahead = vector_out(ahead(camera));
    bits((point_out(p) - point_out(camera.eye)).dot(ahead))
}

fn ahead(camera: PositionedCamera) -> Vector3 {
    vector_in((point_out(camera.target) - point_out(camera.eye)).normalize())
}

fn distance(a: Point3, b: Point3) -> Scalar {
    bits((point_out(b) - point_out(a)).magnitude())
}

fn pixel(depth: Scalar, fovy: Scalar, height: u32) -> Scalar {
    let half = cgmath::Rad::from(cgmath::Deg(float(fovy))).0 / 2.0;
    bits(2.0 * float(depth) * half.tan() / height as f32)
}

fn effective(display: DisplayBehavior, world: Matrix4, view: PickView) -> Matrix4 {
    let math = DisplayMath {
        toward: |a: Point3, b: Point3| vector_in(point_out(b) - point_out(a)),
        ahead,
        length2,
        length,
        unit,
        cross: |a: Vector3, b: Vector3| vector_in(vector_out(a).cross(vector_out(b))),
        scaled: |v: Vector3, s: Scalar| vector_in(vector_out(v) * float(s)),
        depth,
        distance,
        pixel,
        times: |a: Scalar, b: Scalar| bits(float(a) * float(b)),
    };
    display.effective_transform(world, &view.camera, view.height, &math)
}

fn camera_at(eye: Point3) -> PositionedCamera {
    PositionedCamera {
        eye,
        target: point(0.0, 0.0, 0.0),
        up: vector(0.0, 1.0, 0.0),
        aspect: bits(1.0),
        projection: CameraProjection {
            fovy: bits(45.0),
            znear: bits(0.1),
            zfar: bits(100.0),
            ortho: false,
        },
    }
}

fn test_view() -> PickView {
    PickView { camera: camera_at(point(0.0, 0.0, 5.0)), width: 256, height: 256 }
}

fn gather(sum: Point3, m: Matrix4) -> Point3 {
    point_in(point_out(sum) + matrix_out(m).w.truncate())
}

fn measure(sum: Point3, count: u64, camera: Point3) -> Scalar {
    let center = point_out(sum) / count as f32;
    bits((center - point_out(camera)).magnitude2())
}

fn draw_data(
    scene: &mut SceneData,
    view: PickView,
    highlight: Option<&Highlight>,
) -> DrawData {
    let math = DrawMath {
        frame: FrameMath { compose, normal: normal_matrix, length2, unit },
        gather,
        measure,
        effective,
    };
    DrawData::new(scene, view, highlight, &math)
}

fn flat_mesh(id: MeshId) -> Mesh {
    let corner = Vertex {
        position: point(0.0, 0.0, 0.0),
        tex_coords: vector(0.0, 0.0, 0.0),
        normal: vector(0.0, 0.0, 1.0),
    };
    let primitives = vec![MeshPrimitive {
        primitive_type: PrimitiveType::TriangleList,
        indices: vec![0, 1, 2],
    }];
    let bounds = Aabb { min: point(0.0, 0.0, 0.0), max: point(0.0, 0.0, 0.0) };
    Mesh::from_raw(id, vec![corner, corner, corner], primitives, Some(bounds))
}

fn glass() -> FaceMaterial {
    let color = RgbaColor { a: bits(0.5), ..RgbaColor::white() };
    FaceMaterial::new(2).with_base_color_factor(color)
}

/// A scene with one node that draws a triangle.
fn one_triangle(material: FaceMaterial) -> SceneData {
    let mut scene = SceneData::new();
    let mesh = scene.add_mesh(flat_mesh(1));
    let material = scene.add_face_material(material);
    scene
        .add_instance_node(
            4,
            None,
            Instance::new(3, mesh).with_face_material(material),
            None,
            Transform::identity(),
            NodeFlags::none(),
        )
        .unwrap();
    scene
}

fn mirrored(scene: &mut SceneData) -> SceneResources {
    let mut resources = SceneResources::new();
    let todo = resources.prepare(scene);
    for (id, generation) in todo.meshes {
        resources.record(ResourceKind::Mesh, id, generation);
    }
    for (id, generation) in todo.face_materials {
        resources.record(ResourceKind::FaceMaterial, id, generation);
    }
    resources
}

fn frame_of<'a>(draw: &'a DrawData, resources: &'a SceneResources) -> SceneFrame<'a> {
    SceneFrame {
        draw,
        resources,
        scene_props: SceneProperties { has_ibl: false },
        projection: test_view().camera.projection,
        background_color: RgbaColor::white(),
    }
}

fn surface(material: MaterialProperties, depth_prepass: bool) -> Step {
    Step::Pipeline(Pipeline::Surface(PipelineCacheKey {
        surface: SurfaceConfig { material, has_ibl: false, depth_prepass },
        primitive_type: PrimitiveType::TriangleList,
    }))
}

fn outline(width: f32) -> Highlight {
    Highlight {
        is_empty: false,
        outlined_nodes: vec![4],
        primary_outlined_node: Some(4),
        faces: vec![],
        edges: vec![],
        points: vec![],
        primary_sub_geometry: None,
        config: HighlightConfig { color: RgbaColor::black(), width_pixels: bits(width) },
        secondary_config: None,
    }
}

#[test]
fn faces_are_drawn_after_clearing() {
    let mut scene = one_triangle(FaceMaterial::new(2));
    let resources = mirrored(&mut scene);
    let draw = draw_data(&mut scene, test_view(), None);
    let frame = frame_of(&draw, &resources);
    let pass = MainPass::faces();
    assert!(pass.is_active(&frame));
    let plan = pass.execute(&frame);
    assert_eq!(plan.label, "3D Scene Faces Pass");
    assert_eq!(plan.color_load, ColorLoad::Clear(RgbaColor::white()));
    assert_eq!(plan.depth, Some((DepthTarget::Scene, DepthLoad::Clear)));
    let props = draw.all_batches()[0].material_props;
    assert_eq!(
        plan.steps,
        vec![
            Step::Bind(0, Group::Camera),
            Step::Bind(1, Group::Lights),
            surface(props, false),
            Step::Bind(2, Group::Material(BatchMaterial::Face(2))),
            Step::Draw(BatchList::All, 0),
        ]
    );
}

#[test]
fn blended_batches_write_depth_first() {
    let mut scene = one_triangle(glass());
    let resources = mirrored(&mut scene);
    let draw = draw_data(&mut scene, test_view(), None);
    let frame = frame_of(&draw, &resources);
    let props = draw.all_batches()[0].material_props;
    assert_eq!(props.alpha_mode, AlphaMode::Blend);
    let plan = MainPass::all().execute(&frame);
    let material = Step::Bind(2, Group::Material(BatchMaterial::Face(2)));
    assert_eq!(
        plan.steps[2..],
        [
            surface(props, true),
            material,
            Step::Draw(BatchList::All, 0),
            surface(props, false),
            material,
            Step::Draw(BatchList::All, 0),
        ]
    );
}

#[test]
fn a_pass_draws_a_list_of_its_own() {
    let mut scene = one_triangle(FaceMaterial::new(2));
    let resources = mirrored(&mut scene);
    let draw = draw_data(&mut scene, test_view(), None);
    let frame = frame_of(&draw, &resources);
    let (mut own, rest) =
        partition_batches(draw.all_batches(), &|i: InstanceTransform| i.node_id == 4);
    assert!(rest.is_empty());
    let props = own[0].material_props;
    let mut steps = vec![];
    frame.draw_batches(BatchList::Own, &own, DrawOptions::default(), &mut steps);
    assert_eq!(
        steps,
        vec![
            surface(props, false),
            Step::Bind(2, Group::Material(BatchMaterial::Face(2))),
            Step::Draw(BatchList::Own, 0),
        ]
    );
    own.clear();
    let mut none = vec![];
    frame.draw_batches(BatchList::Own, &own, DrawOptions::default(), &mut none);
    assert!(none.is_empty());
    assert!(frame.batches(BatchList::Own).is_none());
}

#[test]
fn what_is_not_mirrored_is_not_drawn() {
    let mut scene = one_triangle(FaceMaterial::new(2));
    let resources = SceneResources::new();
    let draw = draw_data(&mut scene, test_view(), None);
    let frame = frame_of(&draw, &resources);
    let plan = MainPass::all().execute(&frame);
    assert!(!plan.steps.iter().any(|s| matches!(s, Step::Draw(_, _))));
}

#[test]
fn lines_and_points_wait_for_some() {
    let mut scene = one_triangle(FaceMaterial::new(2));
    let resources = mirrored(&mut scene);
    let draw = draw_data(&mut scene, test_view(), None);
    let frame = frame_of(&draw, &resources);
    assert!(!MainPass::lines_and_points().is_active(&frame));
    for kind in [PrimitiveType::TriangleList, PrimitiveType::LineList, PrimitiveType::PointList] {
        assert_ne!(
            PrimitiveFilter::Faces.accepts(kind),
            PrimitiveFilter::LinesAndPoints.accepts(kind)
        );
        assert!(PrimitiveFilter::All.accepts(kind));
    }
}

#[test]
fn the_overlay_needs_a_depth_buffer_of_its_own() {
    let mut scene = one_triangle(FaceMaterial::new(2));
    let layer = DisplayBehavior { layer: RenderLayer::Overlay, ..Default::default() };
    scene.set_node_display(4, layer);
    let resources = mirrored(&mut scene);
    let draw = draw_data(&mut scene, test_view(), None);
    let frame = frame_of(&draw, &resources);
    let pass = OverlayPass::new();
    assert!(pass.is_active(&frame));
    assert!(pass.execute(&frame, false).is_none());
    let plan = pass.execute(&frame, true).unwrap();
    assert_eq!(
        plan.depth,
        Some((DepthTarget::Aux(AuxName::OverlayDepth), DepthLoad::Clear))
    );
    assert!(plan.steps.contains(&Step::Draw(BatchList::Overlay, 0)));
}

#[test]
fn outlines_are_masked_and_composited() {
    let mut scene = one_triangle(FaceMaterial::new(2));
    let resources = mirrored(&mut scene);
    let draw = draw_data(&mut scene, test_view(), Some(&outline(3.0)));
    let frame = frame_of(&draw, &resources);
    let mask = OutlineMaskPass::new(4);
    assert!(mask.is_active(&frame));
    assert_eq!(mask.pipeline(true).writes, ColorWrites::Red);
    assert_eq!(mask.pipeline(false).writes, ColorWrites::Green);
    assert_eq!(mask.pipeline(true).samples, 4);
    assert!(mask.execute(&frame, None).is_none());
    let plan = mask.execute(&frame, Some(false)).unwrap();
    assert!(plan.steps.contains(&Step::Draw(BatchList::Highlighted, 0)));

    let mut composite = OutlineCompositePass::new(4);
    assert!(composite.is_active(&frame));
    let first = composite.execute(&frame, true, bits(640.0), bits(480.0));
    assert!(first.rebind);
    assert_eq!(first.uniform.primary_width, bits(3.0));
    assert_eq!(first.uniform.secondary_width, bits(0.0));
    assert_eq!(first.uniform.screen_height, bits(480.0));
    assert!(first.pass.is_some());
    assert!(!composite.execute(&frame, true, bits(640.0), bits(480.0)).rebind);
    composite.resize();
    assert!(composite.execute(&frame, true, bits(640.0), bits(480.0)).rebind);
}

#[test]
fn outlines_are_no_wider_than_can_be_drawn() {
    let mut scene = one_triangle(FaceMaterial::new(2));
    let resources = mirrored(&mut scene);
    for (asked, drawn) in [(1000.0, MAX_OUTLINE_WIDTH), (-1.0, bits(0.0)), (2.5, bits(2.5))] {
        let draw = draw_data(&mut scene, test_view(), Some(&outline(asked)));
        let frame = frame_of(&draw, &resources);
        let mut composite = OutlineCompositePass::new(1);
        let plan = composite.execute(&frame, false, bits(1.0), bits(1.0));
        assert_eq!(plan.uniform.primary_width, drawn);
        assert!(plan.pass.is_none());
    }
}

#[test]
fn without_highlights_outlines_rest() {
    let mut scene = one_triangle(FaceMaterial::new(2));
    let resources = mirrored(&mut scene);
    let draw = draw_data(&mut scene, test_view(), None);
    let frame = frame_of(&draw, &resources);
    assert!(!OutlineMaskPass::new(1).is_active(&frame));
    assert!(!OutlineCompositePass::new(1).is_active(&frame));
}

#[test]
fn uniforms_are_laid_out_in_order() {
    let uniform = OutlineUniform {
        primary_color: RgbaColor { r: 1, g: 2, b: 3, a: 4 },
        secondary_color: RgbaColor { r: 5, g: 6, b: 7, a: 8 },
        primary_width: 9,
        secondary_width: 10,
        screen_width: 11,
        screen_height: 12,
    };
    let bytes = uniform.bytes();
    assert_eq!(bytes.len(), 48);
    for i in 0..12 {
        assert_eq!(bytes[4 * i..4 * i + 4], [i as u8 + 1, 0, 0, 0]);
    }
    let edges = SilhouetteUniform {
        edge_color: RgbaColor { r: 1, g: 2, b: 3, a: 4 },
        threshold: 5,
        perspective_depth: 6,
    };
    let bytes = edges.bytes();
    assert_eq!(bytes[16..24], [5, 0, 0, 0, 6, 0, 0, 0]);
}

#[test]
fn silhouettes_follow_the_projection() {
    let mut scene = one_triangle(FaceMaterial::new(2));
    let resources = mirrored(&mut scene);
    let draw = draw_data(&mut scene, test_view(), None);
    let mut frame = frame_of(&draw, &resources);
    let mut pass = SilhouetteEdgesPass::new(4, true);
    pass.set_threshold(bits(0.25));
    pass.set_edge_color(RgbaColor::white());
    assert!(pass.is_active());
    let none = pass.execute(&frame, false);
    assert!(!none.rebind && none.pass.is_none());
    let first = pass.execute(&frame, true);
    assert!(first.rebind);
    let (uniform, plan) = first.pass.unwrap();
    assert_eq!(uniform.threshold, bits(0.25));
    assert_eq!(uniform.edge_color, RgbaColor::white());
    assert_eq!(uniform.perspective_depth, bits(1.0));
    assert_eq!(plan.steps.last(), Some(&Step::Fullscreen));
    frame.projection.ortho = true;
    let second = pass.execute(&frame, true);
    assert!(!second.rebind);
    assert_eq!(second.pass.unwrap().0.perspective_depth, bits(0.0));

    let mut missing = SilhouetteEdgesPass::new(4, false);
    assert!(!missing.is_active());
    assert!(missing.pipeline().is_none());
    assert!(missing.execute(&frame, true).pass.is_none());
}

#[test]
fn the_shaded_workflow_masks_between_faces_and_lines() {
    let workflow = shaded(4);
    assert_eq!(workflow.name, "Shaded");
    let ids: Vec<&str> = workflow.passes.iter().map(|p| p.0).collect();
    assert_eq!(
        ids,
        vec![
            "faces",
            "outline_mask",
            "lines_and_points",
            "outline_composite",
            "overlay",
            "sub_geom_highlight",
        ]
    );
}

#[test]
fn the_hidden_line_workflow_draws_lines_twice() {
    let config = HiddenLineConfig::default();
    let workflow = hidden_line(4, true, config);
    let ids: Vec<&str> = workflow.passes.iter().map(|p| p.0).collect();
    assert_eq!(ids, vec!["solid", "silhouette", "occluded_lines", "visible_lines"]);
    let StockPass::FlatColor(solid) = &workflow.passes[0].1 else {
        panic!("a flat color pass");
    };
    assert_eq!(solid.color(), RgbaColor::white());
    let depth = solid.pipeline().depth.unwrap();
    assert!(depth.write);
    assert_eq!(depth.bias.constant, 2);
    assert_eq!(depth.bias.slope_scale, bits(2.0));
    let StockPass::FlatColor(hidden) = &workflow.passes[2].1 else {
        panic!("a flat color pass");
    };
    assert_eq!(hidden.pipeline().depth.unwrap().test, DepthTest::Greater);
    assert_eq!(hidden.color().r, bits(0.6));
}

#[test]
fn flat_color_passes_can_be_recolored() {
    let mut pass = FlatColorPass::new(
        1,
        FlatColorPassDesc {
            label: "Flat",
            cull_mode: Some(Face::Back),
            depth_compare: DepthTest::Less,
            depth_write: true,
            depth_bias: DepthBias { constant: 0, slope_scale: 0, clamp: 0 },
            clear_color: None,
            primitive_filter: PrimitiveType::TriangleList,
            color: RgbaColor::white(),
        },
    );
    let bytes = pass.set_color(RgbaColor { r: 1, g: 2, b: 3, a: 4 });
    assert_eq!(bytes, vec![1, 0, 0, 0, 2, 0, 0, 0, 3, 0, 0, 0, 4, 0, 0, 0]);
    assert_eq!(pass.color().b, 3);
    assert!(!pass.resize(1));
    assert!(pass.resize(4));
    assert_eq!(pass.pipeline().samples, 4);
    let program = pass.program();
    assert_eq!((program.label, program.layout_label), ("Flat", "Flat"));
    assert_eq!((program.vertex, program.fragment), ("vs_flat_color", "fs_flat_color"));
    assert_eq!(program.groups, vec![Group::Camera, Group::Lights, Group::Own]);

    let mut scene = SceneData::new();
    let resources = mirrored(&mut scene);
    let draw = draw_data(&mut scene, test_view(), None);
    let frame = frame_of(&draw, &resources);
    assert!(!pass.is_active(&frame));
    pass.set_clear_color(Some(RgbaColor::black()));
    assert!(pass.is_active(&frame));
    let plan = pass.execute(&frame);
    assert_eq!(plan.color_load, ColorLoad::Clear(RgbaColor::black()));
    assert_eq!(plan.steps.len(), 4);
}

#[test]
fn resources_are_copied_once_per_change() {
    let mut scene = one_triangle(FaceMaterial::new(2));
    let mut resources = mirrored(&mut scene);
    assert!(resources.has_mesh(1));
    assert!(resources.has_material(BatchMaterial::Face(2)));
    let again = resources.prepare(&mut scene);
    assert!(again.meshes.is_empty());
    assert!(again.face_materials.is_empty());
    assert_eq!(again.lights, Some(scene.node_generation()));
    resources.record_lights(scene.node_generation());
    assert_eq!(resources.prepare(&mut scene).lights, None);

    scene.remove_mesh(1);
    scene.reap();
    let todo = resources.prepare(&mut scene);
    assert!(todo.evictions.is_empty() || todo.evictions.contains(&(ResourceKind::Mesh, 1)));

    resources.clear();
    assert!(!resources.has_material(BatchMaterial::Face(2)));
    assert_eq!(resources.prepare(&mut scene).face_materials.len(), 1);
}

#[test]
fn removed_meshes_are_evicted() {
    let mut scene = SceneData::new();
    let mesh = scene.add_mesh(flat_mesh(1));
    let mut resources = mirrored(&mut scene);
    assert!(resources.has_mesh(1));
    scene.release(mesh);
    scene.reap();
    let todo = resources.prepare(&mut scene);
    assert_eq!(todo.evictions, vec![(ResourceKind::Mesh, 1)]);
    assert!(!resources.has_mesh(1));
}

#[test]
fn environments_light_once_processed() {
    let mut scene = SceneData::new();
    let map = scene.add_environment_map_from_hdr_path(7, "sky.hdr".to_string());
    scene.set_active_environment_map(Some(map));
    let mut resources = SceneResources::new();
    assert_eq!(resources.prepare(&mut scene).environment, Some(map));
    assert!(!resources.scene_properties(&scene).has_ibl);
    resources.record_environment(map);
    assert!(resources.scene_properties(&scene).has_ibl);
}

#[test]
fn shaders_come_from_the_library() {
    let generator = ShaderGenerator::new();
    let modules = generator.library().modules();
    for request in [
        generator.generate_outline_mask_shader(),
        generator.generate_outline_screenspace_shader(),
        generator.generate_flat_color_shader(),
        generator.generate_silhouette_shader(true),
    ] {
        assert!(modules.contains(&request.module));
    }
    assert_eq!(generator.generate_silhouette_shader(true).label, "Silhouette Edges Shader (MSAA)");
    assert_eq!(generator.generate_silhouette_shader(false).features, vec![("depth_multisampled", false)]);
    let surface = generator.generate_surface_shader(vec![("lit", true)], "Lit");
    assert_eq!(surface.module, "package::surface");
    assert_eq!(surface.features, vec![("lit", true)]);
    assert_eq!(engine_library().modules().len(), 16);
}

#[test]
fn pipelines_name_what_they_run() {
    let mask = OutlineMaskPass::new(4);
    assert_eq!(mask.program(true).label, "Outline Mask Pipeline (primary)");
    assert_eq!(mask.program(false).label, "Outline Mask Pipeline (secondary)");
    assert_eq!(mask.program(true).layout_label, "Outline Mask Pipeline Layout");
    assert_eq!((mask.program(true).vertex, mask.program(true).fragment), ("vs_mask", "fs_mask"));
    assert_eq!(mask.program(true).groups, vec![Group::Camera]);
    assert_eq!(mask.program(true).constant, None);

    let composite = OutlineCompositePass::new(4);
    let program = composite.program();
    assert_eq!(program.label, "Outline Composite Pipeline");
    assert_eq!((program.vertex, program.fragment), ("vs_fullscreen", "fs_outline"));
    assert_eq!(program.groups, vec![Group::Own]);
    assert_eq!(program.constant, Some(("max_search_radius", 5)));
    let own = composite.own_group();
    assert_eq!(own.layout_label, "Outline Composite Bind Group Layout");
    assert_eq!(own.buffer_label, "Outline Uniform Buffer");
    assert_eq!((own.texture.binding, own.texture.resource), (0, Resource::Texels));
    assert_eq!((own.uniform.binding, own.uniform.stages), (2, Stages::VertexAndFragment));

    for (samples, multisampled) in [(1, false), (4, true)] {
        let edges = SilhouetteEdgesPass::new(samples, true);
        assert_eq!(edges.program().fragment, "fs_silhouette");
        assert_eq!(edges.program().layout_label, "Silhouette Pipeline Layout");
        let own = edges.own_group();
        assert_eq!(own.group_label, "Silhouette Bind Group");
        assert_eq!(own.texture.resource, Resource::Depth { multisampled });
        assert_eq!((own.uniform.binding, own.uniform.stages), (1, Stages::Fragment));
    }
}

#[test]
fn outline_passes_come_together() {
    let passes = outline_passes(4, 800.0f32.to_bits(), 600.0f32.to_bits());
    assert_eq!(passes.mask, OutlineMaskPass::new(4));
    assert_eq!(passes.composite, OutlineCompositePass::new(4));
    assert_eq!(passes.mask.target_features().aux, passes.composite.target_features().aux);
    assert_eq!(passes.uniform.primary_width, 2.0f32.to_bits());
    assert_eq!(passes.uniform.secondary_width, 2.0f32.to_bits());
    assert_eq!(passes.uniform.screen_height, 600.0f32.to_bits());
    assert_eq!(passes.uniform.primary_color.g, 0.6f32.to_bits());
    assert_eq!(passes.uniform.secondary_color.r, 0.7f32.to_bits());
}
