//! Edges at depth discontinuities.

use super::attachments::{ColorLoad, ColorTarget, PassPlan, PlanModel, TargetFeatures};
use super::flat_color::color_words;
use super::program::{
    fits, Binding, OwnGroup, OwnGroupModel, Program, ProgramModel, Resource, Stages,
};
use crate::common::{RgbaColor, Scalar, ONE, ZERO};
use crate::renderer::pass_context::{Group, Pipeline, SceneFrame, Step};
use crate::renderer::pipeline::{ColorWrites, Geometry, PipelineState, TargetFormat};
use crate::renderer::uniform::{bytes_of_words, laid_out};
use vstd::prelude::*;

verus! {

/// The bit pattern of `0.08`.
pub const DEFAULT_THRESHOLD: u32 = 0x3da3_d70a;

/// What the silhouette shader reads.
#[derive(Clone, Copy, PartialEq, Eq, Debug, Structural)]
pub struct SilhouetteUniform {
    pub edge_color: RgbaColor,
    /// How large a depth discontinuity counts as an edge.
    pub threshold: Scalar,
    /// One for a perspective depth curve, zero for a linear (orthographic) one. Selects
    /// how the shader normalizes the depth gradient.
    pub perspective_depth: Scalar,
}

impl Default for SilhouetteUniform {
    fn default() -> (uniform: Self)
        ensures
            uniform == (SilhouetteUniform {
                edge_color: RgbaColor { r: ZERO, g: ZERO, b: ZERO, a: ONE },
                threshold: DEFAULT_THRESHOLD,
                perspective_depth: ONE,
            }),
    {
        SilhouetteUniform {
            edge_color: RgbaColor { r: ZERO, g: ZERO, b: ZERO, a: ONE },
            threshold: DEFAULT_THRESHOLD,
            perspective_depth: ONE,
        }
    }
}

impl SilhouetteUniform {
    /// The numbers of the uniform, in the order in which the shader declares them, padded
    /// to whole vectors.
    pub open spec fn words(self) -> Seq<u32> {
        color_words(self.edge_color) + seq![self.threshold, self.perspective_depth, ZERO, ZERO]
    }

    /// The bytes of the uniform, as the shader reads them.
    pub fn bytes(&self) -> (bytes: Vec<u8>)
        ensures
            laid_out(bytes@, self.words()),
    {
        let c = self.edge_color;
        let words: Vec<u32> = vec![
            c.r,
            c.g,
            c.b,
            c.a,
            self.threshold,
            self.perspective_depth,
            ZERO,
            ZERO,
        ];
        assert(words@ =~= self.words());
        bytes_of_words(&words)
    }
}

/// Silhouette edge detection.
///
/// A fullscreen pass that reads the depth buffer and draws an edge wherever neighboring
/// depths differ by more than a threshold. This gives triangle-only geometry a visible
/// outline even when there are no lines.
///
/// Not every backend can sample a depth texture. Where the adapter cannot, there is no
/// pipeline, and the pass does not run.
#[derive(Clone, Copy, PartialEq, Eq, Debug, Structural)]
pub struct SilhouetteEdgesPass {
    available: bool,
    samples: u32,
    bound: bool,
    uniform: SilhouetteUniform,
}

/// What one execution of a [`SilhouetteEdgesPass`] does, in the order of the fields.
pub struct SilhouettePlan {
    /// Whether the bind group has to be made, from the depth buffer and the uniform.
    pub rebind: bool,
    /// What is written into the uniform, and what is drawn.
    pub pass: Option<(SilhouetteUniform, PassPlan)>,
}

impl SilhouetteEdgesPass {
    /// Whether there is a pipeline.
    pub closed spec fn available(self) -> bool {
        self.available
    }

    /// Samples per pixel that the pipeline was made for.
    pub closed spec fn samples(self) -> u32 {
        self.samples
    }

    /// Whether the bind group refers to the current depth buffer.
    pub closed spec fn bound(self) -> bool {
        self.bound
    }

    /// What the shader reads, but for the projection.
    pub closed spec fn uniform(self) -> SilhouetteUniform {
        self.uniform
    }

    /// A pass for targets with this number of samples per pixel. `samples_depth` says
    /// whether the adapter can sample depth textures.
    pub fn new(samples: u32, samples_depth: bool) -> (pass: Self)
        ensures
            pass.available() == samples_depth,
            pass.samples() == samples,
            !pass.bound(),
            pass.uniform() == (SilhouetteUniform {
                edge_color: RgbaColor { r: ZERO, g: ZERO, b: ZERO, a: ONE },
                threshold: DEFAULT_THRESHOLD,
                perspective_depth: ONE,
            }),
    {
        SilhouetteEdgesPass {
            available: samples_depth,
            samples,
            bound: false,
            uniform: SilhouetteUniform::default(),
        }
    }

    /// The pipeline of the pass, where there is one, and whether it reads a depth buffer
    /// with several samples per pixel.
    pub fn pipeline(&self) -> (pipeline: Option<(PipelineState, bool)>)
        ensures
            pipeline == (if self.available() {
                Some(
                    (
                        PipelineState {
                            geometry: Geometry::Fullscreen,
                            cull: None,
                            depth: None,
                            target: TargetFormat::Frame,
                            blends: true,
                            writes: ColorWrites::All,
                            samples: self.samples(),
                        },
                        self.samples() > 1,
                    ),
                )
            } else {
                None
            }),
    {
        if self.available {
            Some(
                (
                    PipelineState {
                        geometry: Geometry::Fullscreen,
                        cull: None,
                        depth: None,
                        target: TargetFormat::Frame,
                        blends: true,
                        writes: ColorWrites::All,
                        samples: self.samples,
                    },
                    self.samples > 1,
                ),
            )
        } else {
            None
        }
    }

    /// What the pipeline runs.
    pub open spec fn program_spec() -> ProgramModel {
        ProgramModel {
            label: "Silhouette Edges Pipeline"@,
            layout_label: "Silhouette Pipeline Layout"@,
            vertex: "vs_fullscreen"@,
            fragment: "fs_silhouette"@,
            groups: seq![Group::Own],
            constant: None,
        }
    }

    /// What the pipeline runs, where there is one.
    pub fn program(&self) -> (program: Program)
        ensures
            program@ == SilhouetteEdgesPass::program_spec(),
    {
        let program = Program {
            label: "Silhouette Edges Pipeline",
            layout_label: "Silhouette Pipeline Layout",
            vertex: "vs_fullscreen",
            fragment: "fs_silhouette",
            groups: vec![Group::Own],
            constant: None,
        };
        assert(program@ =~= SilhouetteEdgesPass::program_spec());
        program
    }

    /// The bind group of the pass: the depth buffer, and the uniform.
    pub fn own_group(&self) -> (group: OwnGroup)
        ensures
            group@ == (OwnGroupModel {
                layout_label: "Silhouette Bind Group Layout"@,
                group_label: "Silhouette Bind Group"@,
                buffer_label: "Silhouette Uniform Buffer"@,
                texture: Binding {
                    binding: 0,
                    stages: Stages::Fragment,
                    resource: Resource::Depth { multisampled: self.samples() > 1 },
                },
                uniform: Binding {
                    binding: 1,
                    stages: Stages::Fragment,
                    resource: Resource::Uniform,
                },
            }),
    {
        OwnGroup {
            layout_label: "Silhouette Bind Group Layout",
            group_label: "Silhouette Bind Group",
            buffer_label: "Silhouette Uniform Buffer",
            texture: Binding {
                binding: 0,
                stages: Stages::Fragment,
                resource: Resource::Depth { multisampled: self.samples > 1 },
            },
            uniform: Binding {
                binding: 1,
                stages: Stages::Fragment,
                resource: Resource::Uniform,
            },
        }
    }

    /// Sets the color that edges are drawn in.
    pub fn set_edge_color(&mut self, color: RgbaColor)
        ensures
            final(self).uniform() == (SilhouetteUniform {
                edge_color: color,
                ..old(self).uniform()
            }),
            final(self).available() == old(self).available(),
            final(self).samples() == old(self).samples(),
            final(self).bound() == old(self).bound(),
    {
        self.uniform.edge_color = color;
    }

    /// Sets how large a depth discontinuity counts as an edge. Larger values detect fewer
    /// edges.
    pub fn set_threshold(&mut self, threshold: Scalar)
        ensures
            final(self).uniform() == (SilhouetteUniform { threshold, ..old(self).uniform() }),
            final(self).available() == old(self).available(),
            final(self).samples() == old(self).samples(),
            final(self).bound() == old(self).bound(),
    {
        self.uniform.threshold = threshold;
    }

    /// The attachments that the pass asks for.
    pub fn target_features(&self) -> (features: TargetFeatures)
        ensures
            features == (TargetFeatures { depth: false, sampled_depth: true, aux: None }),
    {
        TargetFeatures { depth: false, sampled_depth: true, aux: None }
    }

    /// Whether the pass runs: there is a pipeline.
    pub fn is_active(&self) -> (active: bool)
        ensures
            active == self.available(),
    {
        self.available
    }

    /// The depth buffer was allocated anew.
    pub fn resize(&mut self)
        ensures
            !final(self).bound(),
            final(self).uniform() == old(self).uniform(),
            final(self).available() == old(self).available(),
            final(self).samples() == old(self).samples(),
    {
        self.bound = false;
    }

    /// What the shader reads for a frame: the depth curve changes with the projection, so
    /// the normalization has to follow the camera.
    pub open spec fn uniform_for(self, frame: &SceneFrame<'_>) -> SilhouetteUniform {
        SilhouetteUniform {
            perspective_depth: if frame.projection.ortho {
                ZERO
            } else {
                ONE
            },
            ..self.uniform()
        }
    }

    /// What the pass draws.
    pub open spec fn planned() -> PlanModel {
        PlanModel {
            label: "Silhouette Edges Pass"@,
            color: ColorTarget::Frame,
            color_load: ColorLoad::Load,
            color_store: true,
            depth: None,
            steps: seq![
                Step::Pipeline(Pipeline::Own),
                Step::Bind(0, Group::Own),
                Step::Fullscreen,
            ],
        }
    }

    /// What the pass does. `has_depth` says whether there is a depth buffer to sample.
    pub fn execute(&mut self, frame: &SceneFrame<'_>, has_depth: bool) -> (plan: SilhouettePlan)
        ensures
            plan.rebind == (has_depth && !old(self).bound()),
            plan.pass is Some == (has_depth && old(self).available()),
            plan.pass matches Some(pass) ==> pass.0 == old(self).uniform_for(frame) && pass.1@
                == SilhouetteEdgesPass::planned(),
            final(self).bound() == (old(self).bound() || has_depth),
            final(self).uniform() == old(self).uniform(),
            final(self).available() == old(self).available(),
            final(self).samples() == old(self).samples(),
    {
        if !has_depth {
            return SilhouettePlan { rebind: false, pass: None };
        }
        let rebind = !self.bound;
        self.bound = true;
        if !self.available {
            return SilhouettePlan { rebind, pass: None };
        }
        let uniform = SilhouetteUniform {
            edge_color: self.uniform.edge_color,
            threshold: self.uniform.threshold,
            perspective_depth: if frame.projection.ortho {
                ZERO
            } else {
                ONE
            },
        };
        let mut steps: Vec<Step> = Vec::new();
        steps.push(Step::Pipeline(Pipeline::Own));
        steps.push(Step::Bind(0, Group::Own));
        steps.push(Step::Fullscreen);
        let pass = PassPlan {
            label: "Silhouette Edges Pass",
            color: ColorTarget::Frame,
            color_load: ColorLoad::Load,
            color_store: true,
            depth: None,
            steps,
        };
        proof {
            assert(pass@ =~= SilhouetteEdgesPass::planned());
        }
        SilhouettePlan { rebind, pass: Some((uniform, pass)) }
    }
}

/// Whatever the pass binds is what its pipeline expects there.
pub proof fn silhouette_bindings_fit()
    ensures
        fits(SilhouetteEdgesPass::planned().steps, SilhouetteEdgesPass::program_spec().groups),
{
}

} // verus!
