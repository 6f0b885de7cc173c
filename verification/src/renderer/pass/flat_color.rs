//! Drawing geometry in one color.

use super::attachments::{
    ColorLoad, ColorTarget, DepthLoad, DepthTarget, PassPlan, PlanModel, TargetFeatures,
};
use super::program::{fits, lemma_draws_fit, Program, ProgramModel};
use crate::common::RgbaColor;
use crate::renderer::abi::{GROUP_CAMERA, GROUP_LIGHTS, GROUP_MATERIAL};
use crate::renderer::pass_context::{draws_of, BatchList, Group, Pipeline, SceneFrame, Step};
use crate::renderer::pipeline::{
    ColorWrites, DepthBias, DepthState, DepthTest, Face, Geometry, PipelineState, TargetFormat,
};
use crate::renderer::uniform::{bytes_of_words, laid_out};
use crate::resource::mesh::PrimitiveType;
use vstd::prelude::*;

verus! {

/// What distinguishes one [`FlatColorPass`] from another.
#[derive(Clone, Copy, Debug)]
pub struct FlatColorPassDesc {
    pub label: &'static str,
    pub cull_mode: Option<Face>,
    pub depth_compare: DepthTest,
    pub depth_write: bool,
    pub depth_bias: DepthBias,
    /// Clear color and depth first, the color to this.
    pub clear_color: Option<RgbaColor>,
    /// Only batches with this kind of primitive are drawn.
    pub primitive_filter: PrimitiveType,
    pub color: RgbaColor,
}

/// The numbers of a color, in the order of its channels.
pub open spec fn color_words(color: RgbaColor) -> Seq<u32> {
    seq![color.r, color.g, color.b, color.a]
}

/// The bytes of a color, as shaders read it.
pub fn color_bytes(color: RgbaColor) -> (bytes: Vec<u8>)
    ensures
        laid_out(bytes@, color_words(color)),
{
    let words: Vec<u32> = vec![color.r, color.g, color.b, color.a];
    assert(words@ =~= color_words(color));
    bytes_of_words(&words)
}

/// A geometry pass that draws in one color.
pub struct FlatColorPass {
    desc: FlatColorPassDesc,
    samples: u32,
}

impl FlatColorPass {
    /// What the pass was made from.
    pub closed spec fn desc(self) -> FlatColorPassDesc {
        self.desc
    }

    /// Samples per pixel that the pipeline was made for.
    pub closed spec fn samples(self) -> u32 {
        self.samples
    }

    /// A pass for targets with this number of samples per pixel.
    pub fn new(samples: u32, desc: FlatColorPassDesc) -> (pass: Self)
        ensures
            pass.desc() == desc,
            pass.samples() == samples,
    {
        FlatColorPass { desc, samples }
    }

    /// The label of the pass.
    pub fn label(&self) -> (label: &'static str)
        ensures
            label@ == self.desc().label@,
    {
        self.desc.label
    }

    /// The color that the pass draws in.
    pub fn color(&self) -> (color: RgbaColor)
        ensures
            color == self.desc().color,
    {
        self.desc.color
    }

    /// Recolors the pass, with no pipeline rebuild, and returns the bytes to write.
    pub fn set_color(&mut self, color: RgbaColor) -> (bytes: Vec<u8>)
        ensures
            final(self).desc() == (FlatColorPassDesc { color, ..old(self).desc() }),
            final(self).samples() == old(self).samples(),
            laid_out(bytes@, color_words(color)),
    {
        self.desc.color = color;
        color_bytes(color)
    }

    /// The color that the pass clears its color attachment to, if it clears.
    pub fn set_clear_color(&mut self, clear_color: Option<RgbaColor>)
        ensures
            final(self).desc() == (FlatColorPassDesc { clear_color, ..old(self).desc() }),
            final(self).samples() == old(self).samples(),
    {
        self.desc.clear_color = clear_color;
    }

    /// The pipeline of the pass.
    pub open spec fn pipeline_spec(self) -> PipelineState {
        PipelineState {
            geometry: Geometry::Meshes(self.desc().primitive_filter),
            cull: self.desc().cull_mode,
            depth: Some(
                DepthState {
                    write: self.desc().depth_write,
                    test: self.desc().depth_compare,
                    bias: self.desc().depth_bias,
                },
            ),
            target: TargetFormat::Frame,
            blends: false,
            writes: ColorWrites::All,
            samples: self.samples(),
        }
    }

    /// The pipeline of the pass.
    pub fn pipeline(&self) -> (pipeline: PipelineState)
        ensures
            pipeline == self.pipeline_spec(),
    {
        PipelineState {
            geometry: Geometry::Meshes(self.desc.primitive_filter),
            cull: self.desc.cull_mode,
            depth: Some(
                DepthState {
                    write: self.desc.depth_write,
                    test: self.desc.depth_compare,
                    bias: self.desc.depth_bias,
                },
            ),
            target: TargetFormat::Frame,
            blends: false,
            writes: ColorWrites::All,
            samples: self.samples,
        }
    }

    /// What the pipeline runs: the camera, the lights and the color are bound in turn.
    pub open spec fn program_spec(self) -> ProgramModel {
        ProgramModel {
            label: self.desc().label@,
            layout_label: self.desc().label@,
            vertex: "vs_flat_color"@,
            fragment: "fs_flat_color"@,
            groups: seq![Group::Camera, Group::Lights, Group::Own],
            constant: None,
        }
    }

    /// What the pipeline runs.
    pub fn program(&self) -> (program: Program)
        ensures
            program@ == self.program_spec(),
    {
        let program = Program {
            label: self.desc.label,
            layout_label: self.desc.label,
            vertex: "vs_flat_color",
            fragment: "fs_flat_color",
            groups: vec![Group::Camera, Group::Lights, Group::Own],
            constant: None,
        };
        assert(program@ =~= self.program_spec());
        program
    }

    /// The attachments that the pass asks for.
    pub fn target_features(&self) -> (features: TargetFeatures)
        ensures
            features == (TargetFeatures { depth: true, sampled_depth: false, aux: None }),
    {
        TargetFeatures { depth: true, sampled_depth: false, aux: None }
    }

    /// Whether the pass runs: it clears, which it must do even with nothing to draw, or
    /// there is a batch with its kind of primitive.
    pub open spec fn runs(self, frame: &SceneFrame<'_>) -> bool {
        self.desc().clear_color is Some || frame.has_kind(
            BatchList::All,
            self.desc().primitive_filter,
        )
    }

    /// Whether the pass runs.
    pub fn is_active(&self, frame: &SceneFrame<'_>) -> (active: bool)
        ensures
            active == self.runs(frame),
    {
        self.desc.clear_color.is_some() || frame.any_of_kind(
            BatchList::All,
            self.desc.primitive_filter,
        )
    }

    /// Follows the target to another number of samples per pixel. Returns whether the
    /// pipeline has to be made again.
    pub fn resize(&mut self, samples: u32) -> (rebuild: bool)
        ensures
            rebuild == (old(self).samples() != samples),
            final(self).samples() == samples,
            final(self).desc() == old(self).desc(),
    {
        let rebuild = self.samples != samples;
        self.samples = samples;
        rebuild
    }

    /// What the pass does.
    pub open spec fn planned(self, frame: &SceneFrame<'_>) -> PlanModel {
        let kind = self.desc().primitive_filter;
        PlanModel {
            label: self.desc().label@,
            color: ColorTarget::Frame,
            color_load: match self.desc().clear_color {
                Some(color) => ColorLoad::Clear(color),
                None => ColorLoad::Load,
            },
            color_store: true,
            depth: Some(
                (
                    DepthTarget::Scene,
                    if self.desc().clear_color is Some {
                        DepthLoad::Clear
                    } else {
                        DepthLoad::Load
                    },
                ),
            ),
            steps: seq![
                Step::Pipeline(Pipeline::Own),
                Step::Bind(GROUP_CAMERA, Group::Camera),
                Step::Bind(GROUP_LIGHTS, Group::Lights),
                Step::Bind(GROUP_MATERIAL, Group::Own),
            ] + draws_of(BatchList::All, frame.draw@.list(BatchList::All), frame.drawable(kind)),
        }
    }

    /// What the pass does.
    pub fn execute(&self, frame: &SceneFrame<'_>) -> (plan: PassPlan)
        ensures
            plan@ == self.planned(frame),
    {
        let mut steps: Vec<Step> = Vec::new();
        steps.push(Step::Pipeline(Pipeline::Own));
        steps.push(Step::Bind(GROUP_CAMERA, Group::Camera));
        steps.push(Step::Bind(GROUP_LIGHTS, Group::Lights));
        steps.push(Step::Bind(GROUP_MATERIAL, Group::Own));
        let ghost head = steps@;
        frame.draw_kind(BatchList::All, self.desc.primitive_filter, &mut steps);
        let (color_load, depth_load) = match self.desc.clear_color {
            Some(color) => (ColorLoad::Clear(color), DepthLoad::Clear),
            None => (ColorLoad::Load, DepthLoad::Load),
        };
        let plan = PassPlan {
            label: self.desc.label,
            color: ColorTarget::Frame,
            color_load,
            color_store: true,
            depth: Some((DepthTarget::Scene, depth_load)),
            steps,
        };
        proof {
            assert(head =~= seq![
                Step::Pipeline(Pipeline::Own),
                Step::Bind(GROUP_CAMERA, Group::Camera),
                Step::Bind(GROUP_LIGHTS, Group::Lights),
                Step::Bind(GROUP_MATERIAL, Group::Own),
            ]);
            assert(plan@ =~= self.planned(frame));
        }
        plan
    }
}

/// Whatever the pass binds is what its pipeline expects there.
pub proof fn flat_color_bindings_fit(pass: FlatColorPass, frame: &SceneFrame<'_>)
    ensures
        fits(pass.planned(frame).steps, pass.program_spec().groups),
{
    lemma_draws_fit(
        BatchList::All,
        frame.draw@.list(BatchList::All),
        frame.drawable(pass.desc().primitive_filter),
        pass.program_spec().groups,
    );
}

} // verus!
