//! The engine's shader modules, and which of them each shader variant is compiled from.

use vstd::prelude::*;

verus! {

/// The modules of the engine, by the path that shaders import them under.
pub open spec fn engine_modules() -> Seq<Seq<char>> {
    seq![
        "package::surface"@,
        "package::material"@,
        "package::lit_surface"@,
        "package::common"@,
        "package::camera"@,
        "package::constants"@,
        "package::lighting"@,
        "package::vertex"@,
        "package::pbr"@,
        "package::normal_mapping"@,
        "package::ibl"@,
        "package::material_color"@,
        "package::flat_color"@,
        "package::outline_mask"@,
        "package::outline_screenspace"@,
        "package::silhouette_edges"@,
    ]
}

/// A set of shader modules that can import one another.
pub struct ShaderLibrary {
    modules: Vec<&'static str>,
}

impl View for ShaderLibrary {
    type V = Seq<Seq<char>>;

    closed spec fn view(&self) -> Seq<Seq<char>> {
        Seq::new(self.modules@.len(), |i: int| self.modules@[i]@)
    }
}

impl ShaderLibrary {
    /// The paths of the modules.
    pub fn modules(&self) -> (modules: &Vec<&'static str>)
        ensures
            modules.len() == self@.len(),
            forall|i: int| 0 <= i < modules.len() ==> (#[trigger] modules@[i])@ == self@[i],
    {
        &self.modules
    }
}

/// A library with all engine shader modules.
pub fn engine_library() -> (library: ShaderLibrary)
    ensures
        library@ == engine_modules(),
{
    let mut modules: Vec<&'static str> = Vec::new();
    // The surface shader and its modules.
    modules.push("package::surface");
    modules.push("package::material");
    modules.push("package::lit_surface");
    modules.push("package::common");
    modules.push("package::camera");
    modules.push("package::constants");
    modules.push("package::lighting");
    modules.push("package::vertex");
    modules.push("package::pbr");
    modules.push("package::normal_mapping");
    // Image-based lighting.
    modules.push("package::ibl");
    // Flat color.
    modules.push("package::material_color");
    modules.push("package::flat_color");
    // Screen-space outlines.
    modules.push("package::outline_mask");
    modules.push("package::outline_screenspace");
    // Silhouette edges.
    modules.push("package::silhouette_edges");
    let library = ShaderLibrary { modules };
    proof {
        assert(library@ =~= engine_modules());
    }
    library
}

/// A shader variant: the module to compile, the features switched on and off in it, and
/// the label of the result.
pub struct ShaderRequest<'a> {
    pub module: &'static str,
    pub features: Vec<(&'a str, bool)>,
    pub label: &'a str,
}

/// Typed entry points for the engine's shader variants.
///
/// Each method maps typed renderer state to the module path and feature flags that the
/// library compiles.
pub struct ShaderGenerator {
    library: ShaderLibrary,
}

impl ShaderGenerator {
    /// The modules that shaders are compiled from.
    pub closed spec fn modules(&self) -> Seq<Seq<char>> {
        self.library@
    }

    /// A generator over the engine's modules.
    pub fn new() -> (generator: Self)
        ensures
            generator.modules() == engine_modules(),
    {
        ShaderGenerator { library: engine_library() }
    }

    /// The modules that shaders are compiled from.
    pub fn library(&self) -> (library: &ShaderLibrary)
        ensures
            library@ == self.modules(),
    {
        &self.library
    }

    /// A variant of the surface shader, from its feature flags.
    pub fn generate_surface_shader<'a>(
        &self,
        features: Vec<(&'a str, bool)>,
        label: &'a str,
    ) -> (request: ShaderRequest<'a>)
        ensures
            request.module@ == "package::surface"@,
            request.features == features,
            request.label@ == label@,
    {
        ShaderRequest { module: "package::surface", features, label }
    }

    /// The outline mask shader, which renders selected objects to a mask texture.
    pub fn generate_outline_mask_shader(&self) -> (request: ShaderRequest<'static>)
        ensures
            request.module@ == "package::outline_mask"@,
            request.features@.len() == 0,
            request.label@ == "Outline Mask Shader"@,
    {
        ShaderRequest {
            module: "package::outline_mask",
            features: Vec::new(),
            label: "Outline Mask Shader",
        }
    }

    /// The screen-space outline shader.
    pub fn generate_outline_screenspace_shader(&self) -> (request: ShaderRequest<'static>)
        ensures
            request.module@ == "package::outline_screenspace"@,
            request.features@.len() == 0,
            request.label@ == "Outline Screenspace Shader"@,
    {
        ShaderRequest {
            module: "package::outline_screenspace",
            features: Vec::new(),
            label: "Outline Screenspace Shader",
        }
    }

    /// The flat-color shader, which renders geometry in the color of the material group
    /// with no lighting.
    pub fn generate_flat_color_shader(&self) -> (request: ShaderRequest<'static>)
        ensures
            request.module@ == "package::flat_color"@,
            request.features@.len() == 0,
            request.label@ == "Flat Color Shader"@,
    {
        ShaderRequest {
            module: "package::flat_color",
            features: Vec::new(),
            label: "Flat Color Shader",
        }
    }

    /// The silhouette edge detection shader, reading a depth buffer that has several
    /// samples per pixel or one.
    pub fn generate_silhouette_shader(&self, depth_multisampled: bool) -> (request: ShaderRequest<
        'static,
    >)
        ensures
            request.module@ == "package::silhouette_edges"@,
            request.features@.len() == 1,
            request.features@[0].0@ == "depth_multisampled"@,
            request.features@[0].1 == depth_multisampled,
            request.label@ == (if depth_multisampled {
                "Silhouette Edges Shader (MSAA)"@
            } else {
                "Silhouette Edges Shader"@
            }),
    {
        let label = if depth_multisampled {
            "Silhouette Edges Shader (MSAA)"
        } else {
            "Silhouette Edges Shader"
        };
        let mut features: Vec<(&'static str, bool)> = Vec::new();
        features.push(("depth_multisampled", depth_multisampled));
        ShaderRequest { module: "package::silhouette_edges", features, label }
    }
}

/// Every shader that a generator asks for is a module of the engine.
pub proof fn requested_modules_exist()
    ensures
        engine_modules().contains("package::surface"@),
        engine_modules().contains("package::outline_mask"@),
        engine_modules().contains("package::outline_screenspace"@),
        engine_modules().contains("package::flat_color"@),
        engine_modules().contains("package::silhouette_edges"@),
{
    let modules = engine_modules();
    assert(modules[0] == "package::surface"@);
    assert(modules[12] == "package::flat_color"@);
    assert(modules[13] == "package::outline_mask"@);
    assert(modules[14] == "package::outline_screenspace"@);
    assert(modules[15] == "package::silhouette_edges"@);
}

} // verus!
