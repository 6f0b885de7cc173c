//! Per-primitive material types.
//!
//! Shading is split into three independent types, [`FaceMaterial`],
//! [`LineMaterial`] and [`PointMaterial`], each with its own id, scene collection
//! and generation counter. An [`Instance`](super::instance::Instance) references
//! up to three of them, one per primitive kind it draws.
//!
//! A material owns its texture slots. A setter that replaces a slot hands the
//! replaced handle back, so that the caller can release it. Every setter counts the
//! change in the generation, which is what tells a mirrored copy to follow.

use super::handle::{
    FaceMaterialId, Handle, LineMaterialId, PointMaterialId, ResourceKind, SceneResource, Sealed,
    TextureHandle,
};
use crate::common::{scalar_lt, scalar_lt_spec, RgbaColor, Scalar, ONE};
use crate::initial_generation;
use vstd::prelude::*;

verus! {

/// Default roughness factor when not specified: 0.5.
pub const DEFAULT_ROUGHNESS: u32 = 0x3f00_0000;

/// Default metallic factor when not specified: 0.0.
pub const DEFAULT_METALLIC: u32 = 0;

/// Default normal scale when not specified: 1.0.
pub const DEFAULT_NORMAL_SCALE: u32 = 0x3f80_0000;

/// Default alpha cutoff for mask mode: 0.5.
pub const DEFAULT_ALPHA_CUTOFF: u32 = 0x3f00_0000;

/// Alpha rendering mode.
///
/// `Auto` is the default and infers the mode from the color factor's alpha. The
/// other three are explicit instructions, always honoured as written.
#[derive(Debug, Clone, Copy, PartialEq, Eq, Hash, Structural)]
pub enum AlphaMode {
    /// Fully opaque, alpha channel ignored.
    Opaque,
    /// Binary alpha test: alpha at or above the cutoff is fully opaque, otherwise
    /// discarded.
    Mask,
    /// Standard alpha blending.
    Blend,
    /// Infer from the color factor: blended below 1.0, opaque otherwise.
    Auto,
}

impl Default for AlphaMode {
    fn default() -> (mode: Self)
        ensures
            mode == AlphaMode::Auto,
    {
        AlphaMode::Auto
    }
}

impl AlphaMode {
    /// The mode a material renders with, given the alpha of its color factor.
    pub open spec fn resolved(self, factor_alpha: Scalar) -> AlphaMode {
        if self != AlphaMode::Auto {
            self
        } else if scalar_lt_spec(factor_alpha, ONE) {
            AlphaMode::Blend
        } else {
            AlphaMode::Opaque
        }
    }

    /// The mode a material actually renders with, given the alpha of its color
    /// factor.
    ///
    /// Only `Auto` resolves to anything; the explicit modes pass through untouched.
    /// Asking for `Blend` blends even at full alpha, which is what a material
    /// carrying its transparency in a base-color texture needs.
    pub fn resolve(self, factor_alpha: Scalar) -> (mode: AlphaMode)
        ensures
            mode == self.resolved(factor_alpha),
            mode != AlphaMode::Auto,
    {
        match self {
            AlphaMode::Auto => if scalar_lt(factor_alpha, ONE) {
                AlphaMode::Blend
            } else {
                AlphaMode::Opaque
            },
            explicit => explicit,
        }
    }
}

/// Resolution never yields `Auto`, leaves the explicit modes alone, and resolving
/// again changes nothing, whatever alpha the second resolution is given.
pub proof fn resolve_settles(mode: AlphaMode, alpha: Scalar, other: Scalar)
    ensures
        mode.resolved(alpha) != AlphaMode::Auto,
        mode != AlphaMode::Auto ==> mode.resolved(alpha) == mode,
        mode.resolved(alpha).resolved(other) == mode.resolved(alpha),
{
}

/// A material is blended if and only if it asks for that, or leaves it open and has a
/// color that is not opaque; one that leaves it open is opaque otherwise.
pub proof fn blending_is_for_what_is_not_opaque(mode: AlphaMode, alpha: Scalar)
    ensures
        mode.resolved(alpha) == AlphaMode::Blend <==> mode == AlphaMode::Blend || (mode
            == AlphaMode::Auto && scalar_lt_spec(alpha, 0x3f80_0000)),
        mode.resolved(alpha) == AlphaMode::Opaque <==> mode == AlphaMode::Opaque || (mode
            == AlphaMode::Auto && !scalar_lt_spec(alpha, 0x3f80_0000)),
        mode.resolved(alpha) == AlphaMode::Mask <==> mode == AlphaMode::Mask,
{
}

/// Additional face-material options, as a set of bits.
#[derive(Debug, Clone, Copy, PartialEq, Eq, Hash, Structural)]
pub struct MaterialFlags {
    pub bits: u32,
}

/// Disable back-face culling and flip normals for back faces.
pub const DOUBLE_SIDED: u32 = 2;

/// Disables face lighting. Faces appear at a constant luminance.
pub const DO_NOT_LIGHT: u32 = 4;

impl MaterialFlags {
    /// No special flags.
    pub fn none() -> (flags: Self)
        ensures
            flags.bits == 0,
    {
        MaterialFlags { bits: 0 }
    }

    /// Whether every bit of `bits` is set.
    pub open spec fn has(self, bits: u32) -> bool {
        self.bits & bits == bits
    }

    /// Whether every bit of `bits` is set.
    pub fn contains(&self, bits: u32) -> (yes: bool)
        ensures
            yes == self.has(bits),
    {
        self.bits & bits == bits
    }

    /// These flags with every bit of `bits` set too.
    pub fn with(self, bits: u32) -> (flags: Self)
        ensures
            flags.has(bits),
            forall|other: u32| #[trigger] self.has(other) ==> flags.has(other),
            flags.bits == self.bits | bits,
    {
        let ghost before = self.bits;
        let flags = MaterialFlags { bits: self.bits | bits };
        proof {
            assert((before | bits) & bits == bits) by (bit_vector);
            assert forall|other: u32| #[trigger] self.has(other) implies flags.has(other) by {
                assert(before & other == other ==> (before | bits) & other == other)
                    by (bit_vector);
            }
        }
        flags
    }
}

/// Material properties that select a shader variant and pipeline state.
#[derive(Debug, Clone, Copy, PartialEq, Eq, Hash, Structural)]
pub struct MaterialProperties {
    /// Whether lighting calculations should be applied.
    pub has_lighting: bool,
    /// Whether the material is double-sided.
    pub double_sided: bool,
    /// Alpha rendering mode, already resolved: never `Auto`.
    pub alpha_mode: AlphaMode,
    /// Whether the material binds a base-color texture.
    pub base_color_texture: bool,
    /// Whether the material binds a normal-map texture (lit materials only).
    pub normal_texture: bool,
    /// Whether the material binds a metallic-roughness texture (lit materials
    /// only).
    pub metallic_roughness_texture: bool,
}

impl MaterialProperties {
    /// Fixed properties used for untextured line and point primitives.
    pub open spec fn unlit_opaque_spec() -> MaterialProperties {
        MaterialProperties {
            has_lighting: false,
            double_sided: false,
            alpha_mode: AlphaMode::Opaque,
            base_color_texture: false,
            normal_texture: false,
            metallic_roughness_texture: false,
        }
    }

    /// Fixed properties used for untextured line and point primitives: unlit,
    /// opaque, no textures.
    pub fn unlit_opaque() -> (props: Self)
        ensures
            props == MaterialProperties::unlit_opaque_spec(),
    {
        MaterialProperties {
            has_lighting: false,
            double_sided: false,
            alpha_mode: AlphaMode::Opaque,
            base_color_texture: false,
            normal_texture: false,
            metallic_roughness_texture: false,
        }
    }
}

/// How triangles are shaded.
///
/// What it is made of is read by [`parts`](FaceMaterial::parts) and changed by setters, each
/// of which counts the change.
#[derive(Debug)]
pub struct FaceMaterial {
    held: FaceMaterialParts,
}

/// What a [`FaceMaterial`] is made of.
#[derive(Debug)]
pub struct FaceMaterialParts {
    pub id: FaceMaterialId,
    /// Grows with every change, so that mirrored copies know when to follow.
    pub generation: u64,
    pub base_color_factor: RgbaColor,
    pub metallic: Scalar,
    pub roughness: Scalar,
    pub normal_scale: Scalar,
    pub alpha_cutoff: Scalar,
    pub alpha_mode: AlphaMode,
    pub flags: MaterialFlags,
    pub base_color_texture: Option<TextureHandle>,
    pub normal_texture: Option<TextureHandle>,
    pub metallic_roughness_texture: Option<TextureHandle>,
}

impl Sealed for FaceMaterial {

}

impl SceneResource for FaceMaterial {
    open spec fn kind_spec() -> ResourceKind {
        ResourceKind::FaceMaterial
    }

    fn kind() -> (kind: ResourceKind) {
        ResourceKind::FaceMaterial
    }
}

impl View for FaceMaterial {
    type V = FaceMaterialParts;

    closed spec fn view(&self) -> FaceMaterialParts {
        self.held
    }
}

impl FaceMaterialParts {
    /// The texture handles this material owns.
    pub open spec fn handles(self) -> Seq<Handle> {
        opt_seq(self.base_color_texture) + opt_seq(self.normal_texture) + opt_seq(
            self.metallic_roughness_texture,
        )
    }

    /// What selects the shader variant and pipeline for this material.
    pub open spec fn properties_spec(self) -> MaterialProperties {
        MaterialProperties {
            has_lighting: !self.flags.has(DO_NOT_LIGHT),
            double_sided: self.flags.has(DOUBLE_SIDED),
            alpha_mode: self.alpha_mode.resolved(self.base_color_factor.a),
            base_color_texture: self.base_color_texture is Some,
            normal_texture: !self.flags.has(DO_NOT_LIGHT) && self.normal_texture is Some,
            metallic_roughness_texture: !self.flags.has(DO_NOT_LIGHT)
                && self.metallic_roughness_texture is Some,
        }
    }

    /// An opaque white material with default factors and no textures.
    pub open spec fn blank(id: FaceMaterialId) -> FaceMaterialParts {
        FaceMaterialParts {
            id,
            generation: 1,
            base_color_factor: RgbaColor { r: ONE, g: ONE, b: ONE, a: ONE },
            metallic: DEFAULT_METALLIC,
            roughness: DEFAULT_ROUGHNESS,
            normal_scale: DEFAULT_NORMAL_SCALE,
            alpha_cutoff: DEFAULT_ALPHA_CUTOFF,
            alpha_mode: AlphaMode::Auto,
            flags: MaterialFlags { bits: 0 },
            base_color_texture: None,
            normal_texture: None,
            metallic_roughness_texture: None,
        }
    }
}

impl FaceMaterial {
    /// An opaque white material with default factors and no textures.
    pub fn new(id: FaceMaterialId) -> (material: Self)
        ensures
            material@ == FaceMaterialParts::blank(id),
    {
        FaceMaterial {
            held: FaceMaterialParts {
                id,
                generation: initial_generation(),
                base_color_factor: RgbaColor::white(),
                metallic: DEFAULT_METALLIC,
                roughness: DEFAULT_ROUGHNESS,
                normal_scale: DEFAULT_NORMAL_SCALE,
                alpha_cutoff: DEFAULT_ALPHA_CUTOFF,
                alpha_mode: AlphaMode::Auto,
                flags: MaterialFlags::none(),
                base_color_texture: None,
                normal_texture: None,
                metallic_roughness_texture: None,
            },
        }
    }

    /// What this material is made of.
    pub fn parts(&self) -> (parts: &FaceMaterialParts)
        ensures
            *parts == self@,
    {
        &self.held
    }

    /// Takes this material apart.
    pub(crate) fn into_parts(self) -> (parts: FaceMaterialParts)
        ensures
            parts == self@,
    {
        self.held
    }

    /// Puts a material together.
    pub(crate) fn from_parts(parts: FaceMaterialParts) -> (material: Self)
        ensures
            material@ == parts,
    {
        FaceMaterial { held: parts }
    }

    /// The id of this material.
    pub fn id(&self) -> (id: FaceMaterialId)
        ensures
            id == self@.id,
    {
        self.held.id
    }

    /// Counts changes to this material.
    pub fn generation(&self) -> (generation: u64)
        ensures
            generation == self@.generation,
    {
        self.held.generation
    }

    /// Sets the base color (chainable).
    pub fn with_base_color_factor(self, color: RgbaColor) -> (material: Self)
        ensures
            material@ == (FaceMaterialParts { base_color_factor: color, ..self@ }),
    {
        FaceMaterial { held: FaceMaterialParts { base_color_factor: color, ..self.held } }
    }

    /// Sets the alpha mode (chainable).
    pub fn with_alpha_mode(self, mode: AlphaMode) -> (material: Self)
        ensures
            material@ == (FaceMaterialParts { alpha_mode: mode, ..self@ }),
    {
        FaceMaterial { held: FaceMaterialParts { alpha_mode: mode, ..self.held } }
    }

    /// Sets the flags (chainable).
    pub fn with_flags(self, flags: MaterialFlags) -> (material: Self)
        ensures
            material@ == (FaceMaterialParts { flags, ..self@ }),
    {
        FaceMaterial { held: FaceMaterialParts { flags, ..self.held } }
    }

    /// What selects the shader variant and pipeline for this material.
    pub fn properties(&self) -> (props: MaterialProperties)
        ensures
            props == self@.properties_spec(),
            props.alpha_mode != AlphaMode::Auto,
    {
        let lit = !self.held.flags.contains(DO_NOT_LIGHT);
        MaterialProperties {
            has_lighting: lit,
            double_sided: self.held.flags.contains(DOUBLE_SIDED),
            alpha_mode: self.held.alpha_mode.resolve(self.held.base_color_factor.a),
            base_color_texture: self.held.base_color_texture.is_some(),
            normal_texture: lit && self.held.normal_texture.is_some(),
            metallic_roughness_texture: lit && self.held.metallic_roughness_texture.is_some(),
        }
    }

    /// Sets the base color, and counts the change.
    pub fn set_base_color_factor(&mut self, color: RgbaColor)
        requires
            old(self)@.generation < u64::MAX,
        ensures
            final(self)@ == (FaceMaterialParts {
                base_color_factor: color,
                generation: (old(self)@.generation + 1) as u64,
                ..old(self)@
            }),
    {
        self.held.base_color_factor = color;
        self.held.generation = self.held.generation + 1;
    }

    /// Sets the metallic factor, and counts the change.
    pub fn set_metallic(&mut self, metallic: Scalar)
        requires
            old(self)@.generation < u64::MAX,
        ensures
            final(self)@ == (FaceMaterialParts {
                metallic,
                generation: (old(self)@.generation + 1) as u64,
                ..old(self)@
            }),
    {
        self.held.metallic = metallic;
        self.held.generation = self.held.generation + 1;
    }

    /// Sets the roughness factor, and counts the change.
    pub fn set_roughness(&mut self, roughness: Scalar)
        requires
            old(self)@.generation < u64::MAX,
        ensures
            final(self)@ == (FaceMaterialParts {
                roughness,
                generation: (old(self)@.generation + 1) as u64,
                ..old(self)@
            }),
    {
        self.held.roughness = roughness;
        self.held.generation = self.held.generation + 1;
    }

    /// Sets the scale of the normal map, and counts the change.
    pub fn set_normal_scale(&mut self, normal_scale: Scalar)
        requires
            old(self)@.generation < u64::MAX,
        ensures
            final(self)@ == (FaceMaterialParts {
                normal_scale,
                generation: (old(self)@.generation + 1) as u64,
                ..old(self)@
            }),
    {
        self.held.normal_scale = normal_scale;
        self.held.generation = self.held.generation + 1;
    }

    /// Sets the alpha cutoff of mask mode, and counts the change.
    pub fn set_alpha_cutoff(&mut self, alpha_cutoff: Scalar)
        requires
            old(self)@.generation < u64::MAX,
        ensures
            final(self)@ == (FaceMaterialParts {
                alpha_cutoff,
                generation: (old(self)@.generation + 1) as u64,
                ..old(self)@
            }),
    {
        self.held.alpha_cutoff = alpha_cutoff;
        self.held.generation = self.held.generation + 1;
    }

    /// Sets the alpha mode, and counts the change.
    pub fn set_alpha_mode(&mut self, mode: AlphaMode)
        requires
            old(self)@.generation < u64::MAX,
        ensures
            final(self)@ == (FaceMaterialParts {
                alpha_mode: mode,
                generation: (old(self)@.generation + 1) as u64,
                ..old(self)@
            }),
    {
        self.held.alpha_mode = mode;
        self.held.generation = self.held.generation + 1;
    }

    /// Sets the flags, and counts the change.
    pub fn set_flags(&mut self, flags: MaterialFlags)
        requires
            old(self)@.generation < u64::MAX,
        ensures
            final(self)@ == (FaceMaterialParts {
                flags,
                generation: (old(self)@.generation + 1) as u64,
                ..old(self)@
            }),
    {
        self.held.flags = flags;
        self.held.generation = self.held.generation + 1;
    }

    /// Sets the base-color texture, handing back the one it replaces.
    pub fn set_base_color_texture(&mut self, texture: Option<TextureHandle>) -> (replaced: Option<
        TextureHandle,
    >)
        requires
            old(self)@.generation < u64::MAX,
        ensures
            replaced == old(self)@.base_color_texture,
            final(self)@ == (FaceMaterialParts {
                base_color_texture: texture,
                generation: (old(self)@.generation + 1) as u64,
                ..old(self)@
            }),
    {
        let mut other = texture;
        std::mem::swap(&mut self.held.base_color_texture, &mut other);
        self.held.generation = self.held.generation + 1;
        other
    }

    /// Sets the normal map, handing back the one it replaces.
    pub fn set_normal_texture(&mut self, texture: Option<TextureHandle>) -> (replaced: Option<
        TextureHandle,
    >)
        requires
            old(self)@.generation < u64::MAX,
        ensures
            replaced == old(self)@.normal_texture,
            final(self)@ == (FaceMaterialParts {
                normal_texture: texture,
                generation: (old(self)@.generation + 1) as u64,
                ..old(self)@
            }),
    {
        let mut other = texture;
        std::mem::swap(&mut self.held.normal_texture, &mut other);
        self.held.generation = self.held.generation + 1;
        other
    }

    /// Sets the metallic-roughness texture, handing back the one it replaces.
    pub fn set_metallic_roughness_texture(&mut self, texture: Option<TextureHandle>) -> (replaced: Option<
        TextureHandle,
    >)
        requires
            old(self)@.generation < u64::MAX,
        ensures
            replaced == old(self)@.metallic_roughness_texture,
            final(self)@ == (FaceMaterialParts {
                metallic_roughness_texture: texture,
                generation: (old(self)@.generation + 1) as u64,
                ..old(self)@
            }),
    {
        let mut other = texture;
        std::mem::swap(&mut self.held.metallic_roughness_texture, &mut other);
        self.held.generation = self.held.generation + 1;
        other
    }
}

/// How line segments are shaded.
///
/// What it is made of is read by [`parts`](LineMaterial::parts) and changed by setters, each
/// of which counts the change.
#[derive(Debug)]
pub struct LineMaterial {
    held: LineMaterialParts,
}

/// What a [`LineMaterial`] is made of.
#[derive(Debug)]
pub struct LineMaterialParts {
    pub id: LineMaterialId,
    /// Grows with every change, so that mirrored copies know when to follow.
    pub generation: u64,
    pub color: RgbaColor,
    pub alpha_mode: AlphaMode,
    pub base_color_texture: Option<TextureHandle>,
}

impl Sealed for LineMaterial {

}

impl SceneResource for LineMaterial {
    open spec fn kind_spec() -> ResourceKind {
        ResourceKind::LineMaterial
    }

    fn kind() -> (kind: ResourceKind) {
        ResourceKind::LineMaterial
    }
}

impl View for LineMaterial {
    type V = LineMaterialParts;

    closed spec fn view(&self) -> LineMaterialParts {
        self.held
    }
}

impl LineMaterialParts {
    /// The texture handles this material owns.
    pub open spec fn handles(self) -> Seq<Handle> {
        opt_seq(self.base_color_texture)
    }

    /// What selects the shader variant and pipeline for this material.
    pub open spec fn properties_spec(self) -> MaterialProperties {
        MaterialProperties {
            alpha_mode: self.alpha_mode.resolved(self.color.a),
            base_color_texture: self.base_color_texture is Some,
            ..MaterialProperties::unlit_opaque_spec()
        }
    }

    /// An untextured material of the given color.
    pub open spec fn colored(id: LineMaterialId, color: RgbaColor) -> LineMaterialParts {
        LineMaterialParts {
            id,
            generation: 1,
            color,
            alpha_mode: AlphaMode::Auto,
            base_color_texture: None,
        }
    }
}

impl LineMaterial {
    /// An untextured material of the given color.
    pub fn new(id: LineMaterialId, color: RgbaColor) -> (material: Self)
        ensures
            material@ == LineMaterialParts::colored(id, color),
    {
        LineMaterial {
            held: LineMaterialParts {
                id,
                generation: initial_generation(),
                color,
                alpha_mode: AlphaMode::Auto,
                base_color_texture: None,
            },
        }
    }

    /// What this material is made of.
    pub fn parts(&self) -> (parts: &LineMaterialParts)
        ensures
            *parts == self@,
    {
        &self.held
    }

    /// Takes this material apart.
    pub(crate) fn into_parts(self) -> (parts: LineMaterialParts)
        ensures
            parts == self@,
    {
        self.held
    }

    /// Puts a material together.
    pub(crate) fn from_parts(parts: LineMaterialParts) -> (material: Self)
        ensures
            material@ == parts,
    {
        LineMaterial { held: parts }
    }

    /// The id of this material.
    pub fn id(&self) -> (id: LineMaterialId)
        ensures
            id == self@.id,
    {
        self.held.id
    }

    /// Counts changes to this material.
    pub fn generation(&self) -> (generation: u64)
        ensures
            generation == self@.generation,
    {
        self.held.generation
    }

    /// What selects the shader variant and pipeline for this material.
    pub fn properties(&self) -> (props: MaterialProperties)
        ensures
            props == self@.properties_spec(),
            props.alpha_mode != AlphaMode::Auto,
    {
        let mut props = MaterialProperties::unlit_opaque();
        props.alpha_mode = self.held.alpha_mode.resolve(self.held.color.a);
        props.base_color_texture = self.held.base_color_texture.is_some();
        props
    }

    /// Sets the color, and counts the change.
    pub fn set_color(&mut self, color: RgbaColor)
        requires
            old(self)@.generation < u64::MAX,
        ensures
            final(self)@ == (LineMaterialParts {
                color,
                generation: (old(self)@.generation + 1) as u64,
                ..old(self)@
            }),
    {
        self.held.color = color;
        self.held.generation = self.held.generation + 1;
    }

    /// Sets the alpha mode, and counts the change.
    pub fn set_alpha_mode(&mut self, mode: AlphaMode)
        requires
            old(self)@.generation < u64::MAX,
        ensures
            final(self)@ == (LineMaterialParts {
                alpha_mode: mode,
                generation: (old(self)@.generation + 1) as u64,
                ..old(self)@
            }),
    {
        self.held.alpha_mode = mode;
        self.held.generation = self.held.generation + 1;
    }

    /// Sets the base-color texture, handing back the one it replaces.
    pub fn set_base_color_texture(&mut self, texture: Option<TextureHandle>) -> (replaced: Option<
        TextureHandle,
    >)
        requires
            old(self)@.generation < u64::MAX,
        ensures
            replaced == old(self)@.base_color_texture,
            final(self)@ == (LineMaterialParts {
                base_color_texture: texture,
                generation: (old(self)@.generation + 1) as u64,
                ..old(self)@
            }),
    {
        let mut other = texture;
        std::mem::swap(&mut self.held.base_color_texture, &mut other);
        self.held.generation = self.held.generation + 1;
        other
    }
}

/// How points are shaded.
///
/// What it is made of is read by [`parts`](PointMaterial::parts) and changed by setters, each
/// of which counts the change.
#[derive(Debug)]
pub struct PointMaterial {
    held: PointMaterialParts,
}

/// What a [`PointMaterial`] is made of.
#[derive(Debug)]
pub struct PointMaterialParts {
    pub id: PointMaterialId,
    /// Grows with every change, so that mirrored copies know when to follow.
    pub generation: u64,
    pub color: RgbaColor,
    pub alpha_mode: AlphaMode,
    pub base_color_texture: Option<TextureHandle>,
}

impl Sealed for PointMaterial {

}

impl SceneResource for PointMaterial {
    open spec fn kind_spec() -> ResourceKind {
        ResourceKind::PointMaterial
    }

    fn kind() -> (kind: ResourceKind) {
        ResourceKind::PointMaterial
    }
}

impl View for PointMaterial {
    type V = PointMaterialParts;

    closed spec fn view(&self) -> PointMaterialParts {
        self.held
    }
}

impl PointMaterialParts {
    /// The texture handles this material owns.
    pub open spec fn handles(self) -> Seq<Handle> {
        opt_seq(self.base_color_texture)
    }

    /// What selects the shader variant and pipeline for this material.
    pub open spec fn properties_spec(self) -> MaterialProperties {
        MaterialProperties {
            alpha_mode: self.alpha_mode.resolved(self.color.a),
            base_color_texture: self.base_color_texture is Some,
            ..MaterialProperties::unlit_opaque_spec()
        }
    }

    /// An untextured material of the given color.
    pub open spec fn colored(id: PointMaterialId, color: RgbaColor) -> PointMaterialParts {
        PointMaterialParts {
            id,
            generation: 1,
            color,
            alpha_mode: AlphaMode::Auto,
            base_color_texture: None,
        }
    }
}

impl PointMaterial {
    /// An untextured material of the given color.
    pub fn new(id: PointMaterialId, color: RgbaColor) -> (material: Self)
        ensures
            material@ == PointMaterialParts::colored(id, color),
    {
        PointMaterial {
            held: PointMaterialParts {
                id,
                generation: initial_generation(),
                color,
                alpha_mode: AlphaMode::Auto,
                base_color_texture: None,
            },
        }
    }

    /// What this material is made of.
    pub fn parts(&self) -> (parts: &PointMaterialParts)
        ensures
            *parts == self@,
    {
        &self.held
    }

    /// Takes this material apart.
    pub(crate) fn into_parts(self) -> (parts: PointMaterialParts)
        ensures
            parts == self@,
    {
        self.held
    }

    /// Puts a material together.
    pub(crate) fn from_parts(parts: PointMaterialParts) -> (material: Self)
        ensures
            material@ == parts,
    {
        PointMaterial { held: parts }
    }

    /// The id of this material.
    pub fn id(&self) -> (id: PointMaterialId)
        ensures
            id == self@.id,
    {
        self.held.id
    }

    /// Counts changes to this material.
    pub fn generation(&self) -> (generation: u64)
        ensures
            generation == self@.generation,
    {
        self.held.generation
    }

    /// What selects the shader variant and pipeline for this material.
    pub fn properties(&self) -> (props: MaterialProperties)
        ensures
            props == self@.properties_spec(),
            props.alpha_mode != AlphaMode::Auto,
    {
        let mut props = MaterialProperties::unlit_opaque();
        props.alpha_mode = self.held.alpha_mode.resolve(self.held.color.a);
        props.base_color_texture = self.held.base_color_texture.is_some();
        props
    }

    /// Sets the color, and counts the change.
    pub fn set_color(&mut self, color: RgbaColor)
        requires
            old(self)@.generation < u64::MAX,
        ensures
            final(self)@ == (PointMaterialParts {
                color,
                generation: (old(self)@.generation + 1) as u64,
                ..old(self)@
            }),
    {
        self.held.color = color;
        self.held.generation = self.held.generation + 1;
    }

    /// Sets the alpha mode, and counts the change.
    pub fn set_alpha_mode(&mut self, mode: AlphaMode)
        requires
            old(self)@.generation < u64::MAX,
        ensures
            final(self)@ == (PointMaterialParts {
                alpha_mode: mode,
                generation: (old(self)@.generation + 1) as u64,
                ..old(self)@
            }),
    {
        self.held.alpha_mode = mode;
        self.held.generation = self.held.generation + 1;
    }

    /// Sets the base-color texture, handing back the one it replaces.
    pub fn set_base_color_texture(&mut self, texture: Option<TextureHandle>) -> (replaced: Option<
        TextureHandle,
    >)
        requires
            old(self)@.generation < u64::MAX,
        ensures
            replaced == old(self)@.base_color_texture,
            final(self)@ == (PointMaterialParts {
                base_color_texture: texture,
                generation: (old(self)@.generation + 1) as u64,
                ..old(self)@
            }),
    {
        let mut other = texture;
        std::mem::swap(&mut self.held.base_color_texture, &mut other);
        self.held.generation = self.held.generation + 1;
        other
    }
}

/// An optional value as a sequence of at most one element.
pub open spec fn opt_seq<T>(value: Option<T>) -> Seq<T> {
    match value {
        Some(v) => seq![v],
        None => Seq::empty(),
    }
}

/// Flags are set one by one: two of them are set together if and only if each is.
pub proof fn flags_are_set_one_by_one(flags: MaterialFlags, a: u32, b: u32)
    ensures
        flags.has(a | b) <==> flags.has(a) && flags.has(b),
        flags.has(flags.bits),
        (MaterialFlags { bits: 0 }).has(a) ==> a == 0,
{
    let bits = flags.bits;
    assert(bits & (a | b) == (a | b) <==> bits & a == a && bits & b == b) by (bit_vector);
    assert(bits & bits == bits) by (bit_vector);
    assert(0u32 & a == a ==> a == 0) by (bit_vector);
}

/// How a face material is shaded: lit unless its flag says otherwise, on both sides if its
/// flag says so, blended as its alpha mode and the alpha of its color ask for, and with the
/// base color texture if it has one. The textures that shape lighting count only where
/// there is any.
pub proof fn faces_are_shaded_as_their_material_asks(material: FaceMaterialParts)
    ensures
        ({
            let props = material.properties_spec();
            let lit = !material.flags.has(4);
            &&& props.has_lighting == lit
            &&& props.double_sided == material.flags.has(2)
            &&& props.alpha_mode == AlphaMode::Blend <==> material.alpha_mode == AlphaMode::Blend
                || (material.alpha_mode == AlphaMode::Auto && scalar_lt_spec(
                material.base_color_factor.a,
                0x3f80_0000,
            ))
            &&& props.alpha_mode == AlphaMode::Mask <==> material.alpha_mode == AlphaMode::Mask
            &&& props.alpha_mode != AlphaMode::Auto
            &&& props.base_color_texture <==> material.base_color_texture is Some
            &&& props.normal_texture <==> lit && material.normal_texture is Some
            &&& props.metallic_roughness_texture <==> lit
                && material.metallic_roughness_texture is Some
        }),
{
}

/// Lines are never lit, and shaded by nothing but their color, the alpha mode and the
/// texture.
pub proof fn lines_are_shaded_without_light(material: LineMaterialParts)
    ensures
        ({
            let props = material.properties_spec();
            &&& !props.has_lighting
            &&& !props.double_sided
            &&& !props.normal_texture
            &&& !props.metallic_roughness_texture
            &&& props.base_color_texture <==> material.base_color_texture is Some
            &&& props.alpha_mode == AlphaMode::Blend <==> material.alpha_mode == AlphaMode::Blend
                || (material.alpha_mode == AlphaMode::Auto && scalar_lt_spec(
                material.color.a,
                0x3f80_0000,
            ))
            &&& props.alpha_mode == AlphaMode::Mask <==> material.alpha_mode == AlphaMode::Mask
            &&& props.alpha_mode != AlphaMode::Auto
        }),
{
}

/// Points are never lit, and shaded by nothing but their color, the alpha mode and the
/// texture.
pub proof fn points_are_shaded_without_light(material: PointMaterialParts)
    ensures
        ({
            let props = material.properties_spec();
            &&& !props.has_lighting
            &&& !props.double_sided
            &&& !props.normal_texture
            &&& !props.metallic_roughness_texture
            &&& props.base_color_texture <==> material.base_color_texture is Some
            &&& props.alpha_mode == AlphaMode::Blend <==> material.alpha_mode == AlphaMode::Blend
                || (material.alpha_mode == AlphaMode::Auto && scalar_lt_spec(
                material.color.a,
                0x3f80_0000,
            ))
            &&& props.alpha_mode == AlphaMode::Mask <==> material.alpha_mode == AlphaMode::Mask
            &&& props.alpha_mode != AlphaMode::Auto
        }),
{
}

/// A material that nothing was said of is opaque, white, lit and without textures; lines and
/// points have the color that they were given; and what is drawn without a material of its
/// own is unlit and opaque.
pub proof fn new_materials_are_plain(id: u64, color: RgbaColor)
    ensures
        ({
            let face = FaceMaterialParts::blank(id);
            let props = face.properties_spec();
            let one = 0x3f80_0000u32;
            &&& face.id == id
            &&& face.base_color_factor == (RgbaColor { r: one, g: one, b: one, a: one })
            &&& face.base_color_texture is None && face.normal_texture is None
                && face.metallic_roughness_texture is None
            &&& face.flags.bits == 0
            &&& face.metallic == 0
            &&& face.roughness == 0x3f00_0000
            &&& face.normal_scale == one
            &&& face.alpha_cutoff == 0x3f00_0000
            &&& props.has_lighting && !props.double_sided
            &&& props.alpha_mode == AlphaMode::Opaque
        }),
        ({
            let line = LineMaterialParts::colored(id, color);
            let point = PointMaterialParts::colored(id, color);
            &&& line.id == id && line.color == color && line.base_color_texture is None
            &&& point.id == id && point.color == color && point.base_color_texture is None
            &&& scalar_lt_spec(color.a, 0x3f80_0000) <==> line.properties_spec().alpha_mode
                == AlphaMode::Blend
            &&& scalar_lt_spec(color.a, 0x3f80_0000) <==> point.properties_spec().alpha_mode
                == AlphaMode::Blend
        }),
        ({
            let props = MaterialProperties::unlit_opaque_spec();
            &&& !props.has_lighting && !props.double_sided
            &&& props.alpha_mode == AlphaMode::Opaque
            &&& !props.base_color_texture && !props.normal_texture
                && !props.metallic_roughness_texture
        }),
{
    assert(0u32 & 4u32 != 4u32) by (bit_vector);
    assert(0u32 & 2u32 != 2u32) by (bit_vector);
}

} // verus!
