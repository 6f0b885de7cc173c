//! Outlines around highlighted geometry.

use super::attachments::{
    AuxKind, AuxName, AuxTarget, ColorLoad, ColorTarget, DepthLoad, DepthTarget, PassPlan,
    PlanModel, TargetFeatures,
};
use super::flat_color::color_words;
use super::program::{
    fits, lemma_draws_fit, Binding, OwnGroup, OwnGroupModel, Program, ProgramModel, Resource, Stages,
};
use crate::common::{scalar_lt, scalar_lt_spec, RgbaColor, Scalar, ONE, ZERO};
use crate::renderer::abi::GROUP_CAMERA;
use crate::renderer::draw_data::HighlightConfig;
use crate::renderer::pass_context::{draws_of, BatchList, Group, Pipeline, SceneFrame, Step};
use crate::renderer::pipeline::{
    ColorWrites, DepthBias, DepthState, DepthTest, Geometry, PipelineState, TargetFormat,
};
use crate::renderer::uniform::{bytes_of_words, laid_out};
use crate::resource::mesh::PrimitiveType;
use vstd::prelude::*;

verus! {

/// One channel per highlight tier: red for primary, green for secondary.
pub const MASK_CHANNELS: u32 = 2;

/// Widest outline that the composite shader searches for, in pixels: the bit pattern of
/// `4.0`.
pub const MAX_OUTLINE_WIDTH: u32 = 0x4080_0000;

/// How wide outlines are before the first frame, in pixels: the bit pattern of `2.0`.
pub const INITIAL_WIDTH: u32 = 0x4000_0000;

/// How far the composite shader searches, in texels: one past the widest band that it
/// must draw.
pub const MAX_SEARCH_RADIUS: u32 = 5;

/// The mask that both outline passes share, declared identically by each: the mask pass
/// writes it, the composite pass samples it.
pub open spec fn outline_mask() -> AuxTarget {
    AuxTarget {
        name: AuxName::OutlineMask,
        kind: AuxKind::Mask { channels: MASK_CHANNELS },
        multisampled: false,
        resolved: true,
        sampled: true,
    }
}

/// The mask that both outline passes share.
pub fn mask_target() -> (target: AuxTarget)
    ensures
        target == outline_mask(),
{
    AuxTarget {
        name: AuxName::OutlineMask,
        kind: AuxKind::Mask { channels: MASK_CHANNELS },
        multisampled: false,
        resolved: true,
        sampled: true,
    }
}

/// What the outline shader reads.
#[derive(Clone, Copy, PartialEq, Eq, Debug, Structural)]
pub struct OutlineUniform {
    pub primary_color: RgbaColor,
    pub secondary_color: RgbaColor,
    /// In pixels; zero disables the tier.
    pub primary_width: Scalar,
    /// In pixels; zero disables the tier.
    pub secondary_width: Scalar,
    pub screen_width: Scalar,
    pub screen_height: Scalar,
}

/// The color of a tier: nothing when it is not outlined.
pub open spec fn tier_color(config: Option<HighlightConfig>) -> RgbaColor {
    match config {
        Some(c) => c.color,
        None => RgbaColor { r: ZERO, g: ZERO, b: ZERO, a: ZERO },
    }
}

/// The width of a tier: what was asked for, within what the shader can do.
pub open spec fn tier_width(config: Option<HighlightConfig>) -> Scalar {
    match config {
        Some(c) => if scalar_lt_spec(c.width_pixels, ZERO) {
            ZERO
        } else if scalar_lt_spec(MAX_OUTLINE_WIDTH, c.width_pixels) {
            MAX_OUTLINE_WIDTH
        } else {
            c.width_pixels
        },
        None => ZERO,
    }
}

fn color_of(config: Option<HighlightConfig>) -> (color: RgbaColor)
    ensures
        color == tier_color(config),
{
    match config {
        Some(c) => c.color,
        None => RgbaColor { r: ZERO, g: ZERO, b: ZERO, a: ZERO },
    }
}

fn width_of(config: Option<HighlightConfig>) -> (width: Scalar)
    ensures
        width == tier_width(config),
{
    match config {
        Some(c) => if scalar_lt(c.width_pixels, ZERO) {
            ZERO
        } else if scalar_lt(MAX_OUTLINE_WIDTH, c.width_pixels) {
            MAX_OUTLINE_WIDTH
        } else {
            c.width_pixels
        },
        None => ZERO,
    }
}

/// No outline is wider than the shader can draw, and none has a negative width.
pub proof fn outlines_fit_the_search(config: Option<HighlightConfig>)
    ensures
        !scalar_lt_spec(MAX_OUTLINE_WIDTH, tier_width(config)),
        !scalar_lt_spec(tier_width(config), ZERO),
{
}

impl OutlineUniform {
    /// What the uniform holds before the first frame: colors, and no widths yet.
    pub fn initial() -> (uniform: Self)
        ensures
            uniform == (OutlineUniform {
                primary_color: RgbaColor { r: ONE, g: 0x3f19_999a, b: ZERO, a: ONE },
                secondary_color: RgbaColor { r: 0x3f33_3333, g: 0x3eb3_3333, b: ZERO, a: ONE },
                primary_width: ZERO,
                secondary_width: ZERO,
                screen_width: ZERO,
                screen_height: ZERO,
            }),
    {
        OutlineUniform {
            primary_color: RgbaColor { r: ONE, g: 0x3f19_999a, b: ZERO, a: ONE },
            secondary_color: RgbaColor { r: 0x3f33_3333, g: 0x3eb3_3333, b: ZERO, a: ONE },
            primary_width: ZERO,
            secondary_width: ZERO,
            screen_width: ZERO,
            screen_height: ZERO,
        }
    }

    /// What the uniform holds for a frame.
    pub open spec fn of_frame(
        frame: &SceneFrame<'_>,
        screen_width: Scalar,
        screen_height: Scalar,
    ) -> OutlineUniform {
        OutlineUniform {
            primary_color: tier_color(frame.draw@.config),
            secondary_color: tier_color(frame.draw@.secondary_config),
            primary_width: tier_width(frame.draw@.config),
            secondary_width: tier_width(frame.draw@.secondary_config),
            screen_width,
            screen_height,
        }
    }

    /// The numbers of the uniform, in the order in which the shader declares them.
    pub open spec fn words(self) -> Seq<u32> {
        color_words(self.primary_color) + color_words(self.secondary_color) + seq![
            self.primary_width,
            self.secondary_width,
            self.screen_width,
            self.screen_height,
        ]
    }

    /// The bytes of the uniform, as the shader reads them.
    pub fn bytes(&self) -> (bytes: Vec<u8>)
        ensures
            laid_out(bytes@, self.words()),
    {
        let p = self.primary_color;
        let s = self.secondary_color;
        let words: Vec<u32> = vec![
            p.r,
            p.g,
            p.b,
            p.a,
            s.r,
            s.g,
            s.b,
            s.a,
            self.primary_width,
            self.secondary_width,
            self.screen_width,
            self.screen_height,
        ];
        assert(words@ =~= self.words());
        bytes_of_words(&words)
    }
}

/// Whether at least one tier has triangles to mask.
pub open spec fn maskable(frame: &SceneFrame<'_>) -> bool {
    frame.has_kind(BatchList::Highlighted, PrimitiveType::TriangleList) || frame.has_kind(
        BatchList::SecondaryHighlighted,
        PrimitiveType::TriangleList,
    )
}

/// Whether at least one tier has triangles to mask. Both passes skip themselves together
/// on this, so the composite never reads a stale mask.
fn has_maskable_geometry(frame: &SceneFrame<'_>) -> (yes: bool)
    ensures
        yes == maskable(frame),
{
    frame.any_of_kind(BatchList::Highlighted, PrimitiveType::TriangleList) || frame.any_of_kind(
        BatchList::SecondaryHighlighted,
        PrimitiveType::TriangleList,
    )
}

/// The commands that draw the triangles of a tier: its pipeline, unless there are none,
/// then the batches whose mesh is there.
pub open spec fn tier_steps(
    frame: &SceneFrame<'_>,
    list: BatchList,
    pipeline: Pipeline,
) -> Seq<Step> {
    if frame.has_kind(list, PrimitiveType::TriangleList) {
        seq![Step::Pipeline(pipeline)] + draws_of(
            list,
            frame.draw@.list(list),
            frame.drawable(PrimitiveType::TriangleList),
        )
    } else {
        Seq::empty()
    }
}

fn draw_tier(frame: &SceneFrame<'_>, list: BatchList, pipeline: Pipeline, steps: &mut Vec<Step>)
    ensures
        final(steps)@ == old(steps)@ + tier_steps(frame, list, pipeline),
{
    let ghost start = steps@;
    if frame.any_of_kind(list, PrimitiveType::TriangleList) {
        steps.push(Step::Pipeline(pipeline));
        frame.draw_kind(list, PrimitiveType::TriangleList, steps);
    }
    proof {
        assert(steps@ =~= start + tier_steps(frame, list, pipeline));
    }
}

/// Renders highlighted triangles into the two channels of the outline mask (red for the
/// primary tier, green for the secondary), depth-tested against the scene, so that
/// occluded geometry is not outlined.
///
/// Belongs between the face and line geometry passes: the mask must depth-test against
/// faces only, since lines write depth that would punch holes in it.
#[derive(Clone, Copy, PartialEq, Eq, Debug, Structural)]
pub struct OutlineMaskPass {
    samples: u32,
}

impl OutlineMaskPass {
    /// Samples per pixel that the pipelines were made for.
    pub closed spec fn samples(self) -> u32 {
        self.samples
    }

    /// A pass for targets with this number of samples per pixel.
    pub fn new(samples: u32) -> (pass: Self)
        ensures
            pass.samples() == samples,
    {
        OutlineMaskPass { samples }
    }

    /// The pipeline of a tier: it differs in the channel that it writes. Nothing is
    /// culled, since back faces of double-sided materials are drawn too.
    pub open spec fn pipeline_spec(self, primary: bool) -> PipelineState {
        PipelineState {
            geometry: Geometry::Meshes(PrimitiveType::TriangleList),
            cull: None,
            depth: Some(
                DepthState {
                    write: false,
                    test: DepthTest::LessEqual,
                    bias: DepthBias { constant: 0, slope_scale: ZERO, clamp: ZERO },
                },
            ),
            target: TargetFormat::Mask { channels: MASK_CHANNELS },
            blends: false,
            writes: if primary {
                ColorWrites::Red
            } else {
                ColorWrites::Green
            },
            samples: self.samples(),
        }
    }

    /// The pipeline of a tier.
    pub fn pipeline(&self, primary: bool) -> (pipeline: PipelineState)
        ensures
            pipeline == self.pipeline_spec(primary),
    {
        PipelineState {
            geometry: Geometry::Meshes(PrimitiveType::TriangleList),
            cull: None,
            depth: Some(
                DepthState {
                    write: false,
                    test: DepthTest::LessEqual,
                    bias: DepthBias { constant: 0, slope_scale: ZERO, clamp: ZERO },
                },
            ),
            target: TargetFormat::Mask { channels: MASK_CHANNELS },
            blends: false,
            writes: if primary {
                ColorWrites::Red
            } else {
                ColorWrites::Green
            },
            samples: self.samples,
        }
    }

    /// What the pipeline of a tier runs.
    pub open spec fn program_spec(primary: bool) -> ProgramModel {
        ProgramModel {
            label: if primary {
                "Outline Mask Pipeline (primary)"@
            } else {
                "Outline Mask Pipeline (secondary)"@
            },
            layout_label: "Outline Mask Pipeline Layout"@,
            vertex: "vs_mask"@,
            fragment: "fs_mask"@,
            groups: seq![Group::Camera],
            constant: None,
        }
    }

    /// What the pipeline of a tier runs.
    pub fn program(&self, primary: bool) -> (program: Program)
        ensures
            program@ == OutlineMaskPass::program_spec(primary),
    {
        let program = Program {
            label: if primary {
                "Outline Mask Pipeline (primary)"
            } else {
                "Outline Mask Pipeline (secondary)"
            },
            layout_label: "Outline Mask Pipeline Layout",
            vertex: "vs_mask",
            fragment: "fs_mask",
            groups: vec![Group::Camera],
            constant: None,
        };
        assert(program@ =~= OutlineMaskPass::program_spec(primary));
        program
    }

    /// The attachments that the pass asks for.
    pub fn target_features(&self) -> (features: TargetFeatures)
        ensures
            features == (TargetFeatures {
                depth: true,
                sampled_depth: false,
                aux: Some(outline_mask()),
            }),
    {
        TargetFeatures { depth: true, sampled_depth: false, aux: Some(mask_target()) }
    }

    /// Whether the pass runs: at least one tier has triangles to mask.
    pub fn is_active(&self, frame: &SceneFrame<'_>) -> (active: bool)
        ensures
            active == maskable(frame),
    {
        has_maskable_geometry(frame)
    }

    /// What the pass does, when the mask is there. `resolves` says whether the mask has
    /// several samples per pixel and is resolved, in which case only the result is kept.
    pub open spec fn planned(self, frame: &SceneFrame<'_>, resolves: bool) -> PlanModel {
        PlanModel {
            label: "Highlight Mask Pass"@,
            color: ColorTarget::Aux(AuxName::OutlineMask),
            color_load: ColorLoad::Clear(RgbaColor { r: ZERO, g: ZERO, b: ZERO, a: ONE }),
            color_store: !resolves,
            depth: Some((DepthTarget::Scene, DepthLoad::Load)),
            steps: seq![Step::Bind(GROUP_CAMERA, Group::Camera)] + (
            if frame.draw@.config is Some {
                tier_steps(frame, BatchList::Highlighted, Pipeline::Own)
            } else {
                Seq::empty()
            }) + (if frame.draw@.secondary_config is Some {
                tier_steps(frame, BatchList::SecondaryHighlighted, Pipeline::OwnSecond)
            } else {
                Seq::empty()
            }),
        }
    }

    /// What the pass does: nothing when the mask is missing. `mask` says whether the
    /// mask that is there is resolved.
    pub fn execute(&self, frame: &SceneFrame<'_>, mask: Option<bool>) -> (plan: Option<PassPlan>)
        ensures
            plan is Some == mask is Some,
            plan matches Some(plan) ==> plan@ == self.planned(frame, mask->0),
    {
        let resolves = match mask {
            Some(resolves) => resolves,
            None => {
                return None;
            },
        };
        let mut steps: Vec<Step> = Vec::new();
        steps.push(Step::Bind(GROUP_CAMERA, Group::Camera));
        proof {
            assert(steps@ =~= seq![Step::Bind(GROUP_CAMERA, Group::Camera)]);
        }
        if frame.draw.highlight_config().is_some() {
            draw_tier(frame, BatchList::Highlighted, Pipeline::Own, &mut steps);
        }
        if frame.draw.secondary_highlight_config().is_some() {
            draw_tier(frame, BatchList::SecondaryHighlighted, Pipeline::OwnSecond, &mut steps);
        }
        let plan = PassPlan {
            label: "Highlight Mask Pass",
            color: ColorTarget::Aux(AuxName::OutlineMask),
            color_load: ColorLoad::Clear(RgbaColor { r: ZERO, g: ZERO, b: ZERO, a: ONE }),
            color_store: !resolves,
            depth: Some((DepthTarget::Scene, DepthLoad::Load)),
            steps,
        };
        proof {
            assert(plan@ =~= self.planned(frame, resolves));
        }
        Some(plan)
    }
}

/// Reads the outline mask and composites both tiers' outlines over the scene in a single
/// fullscreen pass.
///
/// Belongs after lines and points, so that nothing cuts the outline band.
#[derive(Clone, Copy, PartialEq, Eq, Debug, Structural)]
pub struct OutlineCompositePass {
    samples: u32,
    bound: bool,
}

/// What one execution of an [`OutlineCompositePass`] does, in the order of the fields.
pub struct CompositePlan {
    /// What is written into the uniform.
    pub uniform: OutlineUniform,
    /// Whether the bind group has to be made, from the mask and the uniform.
    pub rebind: bool,
    /// What is drawn: nothing while there is no mask to bind.
    pub pass: Option<PassPlan>,
}

impl OutlineCompositePass {
    /// Samples per pixel that the pipeline was made for.
    pub closed spec fn samples(self) -> u32 {
        self.samples
    }

    /// Whether the bind group refers to the current mask.
    pub closed spec fn bound(self) -> bool {
        self.bound
    }

    /// A pass for targets with this number of samples per pixel.
    pub fn new(samples: u32) -> (pass: Self)
        ensures
            pass.samples() == samples,
            !pass.bound(),
    {
        OutlineCompositePass { samples, bound: false }
    }

    /// The pipeline of the pass. The mask has one sample per pixel, but the color target
    /// is still the scene's.
    pub open spec fn pipeline_spec(self) -> PipelineState {
        PipelineState {
            geometry: Geometry::Fullscreen,
            cull: None,
            depth: None,
            target: TargetFormat::Frame,
            blends: true,
            writes: ColorWrites::All,
            samples: self.samples(),
        }
    }

    /// The pipeline of the pass.
    pub fn pipeline(&self) -> (pipeline: PipelineState)
        ensures
            pipeline == self.pipeline_spec(),
    {
        PipelineState {
            geometry: Geometry::Fullscreen,
            cull: None,
            depth: None,
            target: TargetFormat::Frame,
            blends: true,
            writes: ColorWrites::All,
            samples: self.samples,
        }
    }

    /// What the pipeline runs. The shader searches one texel past the widest outline.
    pub open spec fn program_spec() -> ProgramModel {
        ProgramModel {
            label: "Outline Composite Pipeline"@,
            layout_label: "Outline Composite Pipeline Layout"@,
            vertex: "vs_fullscreen"@,
            fragment: "fs_outline"@,
            groups: seq![Group::Own],
            constant: Some(("max_search_radius"@, MAX_SEARCH_RADIUS)),
        }
    }

    /// What the pipeline runs.
    pub fn program(&self) -> (program: Program)
        ensures
            program@ == OutlineCompositePass::program_spec(),
    {
        let program = Program {
            label: "Outline Composite Pipeline",
            layout_label: "Outline Composite Pipeline Layout",
            vertex: "vs_fullscreen",
            fragment: "fs_outline",
            groups: vec![Group::Own],
            constant: Some(("max_search_radius", MAX_SEARCH_RADIUS)),
        };
        assert(program@ =~= OutlineCompositePass::program_spec());
        program
    }

    /// The bind group of the pass: the mask, and the uniform.
    pub fn own_group(&self) -> (group: OwnGroup)
        ensures
            group@ == (OwnGroupModel {
                layout_label: "Outline Composite Bind Group Layout"@,
                group_label: "Outline Composite Bind Group"@,
                buffer_label: "Outline Uniform Buffer"@,
                texture: Binding {
                    binding: 0,
                    stages: Stages::Fragment,
                    resource: Resource::Texels,
                },
                uniform: Binding {
                    binding: 2,
                    stages: Stages::VertexAndFragment,
                    resource: Resource::Uniform,
                },
            }),
    {
        OwnGroup {
            layout_label: "Outline Composite Bind Group Layout",
            group_label: "Outline Composite Bind Group",
            buffer_label: "Outline Uniform Buffer",
            texture: Binding {
                binding: 0,
                stages: Stages::Fragment,
                resource: Resource::Texels,
            },
            uniform: Binding {
                binding: 2,
                stages: Stages::VertexAndFragment,
                resource: Resource::Uniform,
            },
        }
    }

    /// The attachments that the pass asks for.
    pub fn target_features(&self) -> (features: TargetFeatures)
        ensures
            features == (TargetFeatures {
                depth: false,
                sampled_depth: false,
                aux: Some(outline_mask()),
            }),
    {
        TargetFeatures { depth: false, sampled_depth: false, aux: Some(mask_target()) }
    }

    /// Whether the pass runs: at least one tier has triangles to mask.
    pub fn is_active(&self, frame: &SceneFrame<'_>) -> (active: bool)
        ensures
            active == maskable(frame),
    {
        has_maskable_geometry(frame)
    }

    /// The mask was allocated anew. The bind group is made again when it is next needed,
    /// so that a resize costs nothing for a frame that draws no outline.
    pub fn resize(&mut self)
        ensures
            !final(self).bound(),
            final(self).samples() == old(self).samples(),
    {
        self.bound = false;
    }

    /// What the pass draws.
    pub open spec fn planned() -> PlanModel {
        PlanModel {
            label: "Outline Composite Pass"@,
            color: ColorTarget::Frame,
            color_load: ColorLoad::Load,
            color_store: true,
            depth: None,
            steps: seq![
                Step::Pipeline(Pipeline::Own),
                Step::Bind(0, Group::Own),
                Step::Fullscreen,
            ],
        }
    }

    /// What the pass does. `has_mask` says whether the mask is there.
    pub fn execute(
        &mut self,
        frame: &SceneFrame<'_>,
        has_mask: bool,
        screen_width: Scalar,
        screen_height: Scalar,
    ) -> (plan: CompositePlan)
        ensures
            plan.uniform == OutlineUniform::of_frame(frame, screen_width, screen_height),
            plan.rebind == (!old(self).bound() && has_mask),
            plan.pass is Some == (old(self).bound() || has_mask),
            plan.pass matches Some(pass) ==> pass@ == OutlineCompositePass::planned(),
            final(self).bound() == (old(self).bound() || has_mask),
            final(self).samples() == old(self).samples(),
    {
        let primary = frame.draw.highlight_config();
        let secondary = frame.draw.secondary_highlight_config();
        let uniform = OutlineUniform {
            primary_color: color_of(primary),
            secondary_color: color_of(secondary),
            primary_width: width_of(primary),
            secondary_width: width_of(secondary),
            screen_width,
            screen_height,
        };
        let rebind = !self.bound && has_mask;
        if rebind {
            self.bound = true;
        }
        if !self.bound {
            return CompositePlan { uniform, rebind, pass: None };
        }
        let mut steps: Vec<Step> = Vec::new();
        steps.push(Step::Pipeline(Pipeline::Own));
        steps.push(Step::Bind(0, Group::Own));
        steps.push(Step::Fullscreen);
        let pass = PassPlan {
            label: "Outline Composite Pass",
            color: ColorTarget::Frame,
            color_load: ColorLoad::Load,
            color_store: true,
            depth: None,
            steps,
        };
        proof {
            assert(pass@ =~= OutlineCompositePass::planned());
        }
        CompositePlan { uniform, rebind, pass: Some(pass) }
    }
}

/// Whatever the outline passes bind is what their pipelines expect there.
pub proof fn outline_bindings_fit(mask: OutlineMaskPass, frame: &SceneFrame<'_>, resolves: bool)
    ensures
        fits(
            mask.planned(frame, resolves).steps,
            OutlineMaskPass::program_spec(true).groups,
        ),
        fits(
            mask.planned(frame, resolves).steps,
            OutlineMaskPass::program_spec(false).groups,
        ),
        fits(OutlineCompositePass::planned().steps, OutlineCompositePass::program_spec().groups),
{
    let drawable = frame.drawable(PrimitiveType::TriangleList);
    let groups = seq![Group::Camera];
    lemma_draws_fit(
        BatchList::Highlighted,
        frame.draw@.list(BatchList::Highlighted),
        drawable,
        groups,
    );
    lemma_draws_fit(
        BatchList::SecondaryHighlighted,
        frame.draw@.list(BatchList::SecondaryHighlighted),
        drawable,
        groups,
    );
    assert(OutlineMaskPass::program_spec(true).groups =~= groups);
    assert(OutlineMaskPass::program_spec(false).groups =~= groups);
}

/// Both outline passes, and what the uniform between them holds at first.
pub struct OutlinePasses {
    pub mask: OutlineMaskPass,
    pub composite: OutlineCompositePass,
    pub uniform: OutlineUniform,
}

/// The mask and composite passes for targets with this number of samples per pixel. They
/// share one mask, so they come together: the composite only makes sense after a mask
/// pass that wrote what it samples. Until the first frame, both outlines are two pixels
/// wide.
pub fn outline_passes(
    samples: u32,
    screen_width: Scalar,
    screen_height: Scalar,
) -> (passes: OutlinePasses)
    ensures
        passes.mask.samples() == samples,
        passes.composite.samples() == samples,
        !passes.composite.bound(),
        passes.uniform == (OutlineUniform {
            primary_color: RgbaColor { r: ONE, g: 0x3f19_999a, b: ZERO, a: ONE },
            secondary_color: RgbaColor { r: 0x3f33_3333, g: 0x3eb3_3333, b: ZERO, a: ONE },
            primary_width: INITIAL_WIDTH,
            secondary_width: INITIAL_WIDTH,
            screen_width,
            screen_height,
        }),
{
    let mut uniform = OutlineUniform::initial();
    uniform.primary_width = INITIAL_WIDTH;
    uniform.secondary_width = INITIAL_WIDTH;
    uniform.screen_width = screen_width;
    uniform.screen_height = screen_height;
    OutlinePasses {
        mask: OutlineMaskPass::new(samples),
        composite: OutlineCompositePass::new(samples),
        uniform,
    }
}

} // verus!
