//! Drawing scene geometry.

use super::attachments::{
    AuxKind, AuxName, AuxTarget, ColorLoad, ColorTarget, DepthLoad, DepthTarget, PassPlan,
    PlanModel, TargetFeatures,
};
use crate::renderer::pass_context::{BatchList, DrawOptions, SceneFrame, Step};
use crate::resource::mesh::PrimitiveType;
use vstd::prelude::*;

verus! {

/// Selects which primitive kinds a geometry pass draws, so that faces and lines and
/// points can be split across separate passes.
#[derive(Clone, Copy, PartialEq, Eq, Debug, Structural)]
pub enum PrimitiveFilter {
    All,
    Faces,
    LinesAndPoints,
}

impl PrimitiveFilter {
    /// Whether primitives of a kind are drawn.
    pub open spec fn accepts_spec(self, primitive_type: PrimitiveType) -> bool {
        match self {
            PrimitiveFilter::All => true,
            PrimitiveFilter::Faces => primitive_type == PrimitiveType::TriangleList,
            PrimitiveFilter::LinesAndPoints => primitive_type != PrimitiveType::TriangleList,
        }
    }

    /// Whether primitives of a kind are drawn.
    pub fn accepts(self, primitive_type: PrimitiveType) -> (yes: bool)
        ensures
            yes == self.accepts_spec(primitive_type),
    {
        match self {
            PrimitiveFilter::All => true,
            PrimitiveFilter::Faces => match primitive_type {
                PrimitiveType::TriangleList => true,
                _ => false,
            },
            PrimitiveFilter::LinesAndPoints => match primitive_type {
                PrimitiveType::LineList | PrimitiveType::PointList => true,
                _ => false,
            },
        }
    }
}

/// Draws scene geometry: binds camera, lights and environment, runs a depth pre-pass for
/// blended materials, then draws the batches that this pass is responsible for.
///
/// The stock shaded workflow uses two of these: [`MainPass::faces`] clears the color and
/// depth attachments and draws triangles, then [`MainPass::lines_and_points`] loads them
/// and draws the rest. The split exists so that the highlight outline mask can be built
/// from a depth buffer that holds faces only: lines write their true depth, which would
/// otherwise punch holes in the mask. Use [`MainPass::all`] where no mask needs that
/// separation.
#[derive(Clone, Copy, PartialEq, Eq, Debug, Structural)]
pub struct MainPass {
    filter: PrimitiveFilter,
    clears: bool,
}

impl MainPass {
    /// Which primitive kinds the pass draws.
    pub closed spec fn filter(self) -> PrimitiveFilter {
        self.filter
    }

    /// Whether the pass clears color and depth; otherwise it loads both.
    pub closed spec fn clears(self) -> bool {
        self.clears
    }

    /// Draws triangles, clearing color and depth first.
    pub fn faces() -> (pass: Self)
        ensures
            pass.filter() == PrimitiveFilter::Faces,
            pass.clears(),
    {
        MainPass { filter: PrimitiveFilter::Faces, clears: true }
    }

    /// Draws lines and points on top of an already-populated color and depth buffer.
    pub fn lines_and_points() -> (pass: Self)
        ensures
            pass.filter() == PrimitiveFilter::LinesAndPoints,
            !pass.clears(),
    {
        MainPass { filter: PrimitiveFilter::LinesAndPoints, clears: false }
    }

    /// Draws every primitive kind in one pass, clearing first.
    ///
    /// The stock shaded workflow splits this in two so that the outline mask sees a
    /// faces-only depth buffer; a workflow with no mask can use this instead.
    pub fn all() -> (pass: Self)
        ensures
            pass.filter() == PrimitiveFilter::All,
            pass.clears(),
    {
        MainPass { filter: PrimitiveFilter::All, clears: true }
    }

    /// The attachments that the pass asks for.
    pub fn target_features(&self) -> (features: TargetFeatures)
        ensures
            features == (TargetFeatures { depth: true, sampled_depth: false, aux: None }),
    {
        TargetFeatures { depth: true, sampled_depth: false, aux: None }
    }

    /// Whether the pass runs: it clears, which it must do even with nothing to draw, or
    /// there is a batch that it is responsible for.
    pub open spec fn runs(self, frame: &SceneFrame<'_>) -> bool {
        self.clears() || exists|i: int|
            0 <= i < frame.draw@.batches.len() && self.filter().accepts_spec(
                (#[trigger] frame.draw@.batches[i]).primitive_type,
            )
    }

    /// Whether the pass runs.
    pub fn is_active(&self, frame: &SceneFrame<'_>) -> (active: bool)
        ensures
            active == self.runs(frame),
    {
        if self.clears {
            return true;
        }
        let batches = frame.draw.all_batches();
        let mut i: usize = 0;
        while i < batches.len()
            invariant
                i <= batches.len(),
                frame.draw@.batches.len() == batches.len(),
                forall|j: int|
                    0 <= j < batches.len() ==> #[trigger] frame.draw@.batches[j] == batches@[j]@,
                forall|j: int|
                    0 <= j < i ==> !self.filter().accepts_spec(
                        (#[trigger] frame.draw@.batches[j]).primitive_type,
                    ),
                !self.clears(),
            decreases batches.len() - i,
        {
            if self.filter.accepts(batches[i].primitive_type) {
                assert(frame.draw@.batches[i as int] == batches@[i as int]@);
                return true;
            }
            i = i + 1;
        }
        false
    }

    /// What the pass does.
    pub open spec fn planned(self, frame: &SceneFrame<'_>) -> PlanModel {
        PlanModel {
            label: if self.clears() {
                "3D Scene Faces Pass"@
            } else {
                "3D Scene Lines & Points Pass"@
            },
            color: ColorTarget::Frame,
            color_load: if self.clears() {
                ColorLoad::Clear(frame.background_color)
            } else {
                ColorLoad::Load
            },
            color_store: true,
            depth: Some(
                (
                    DepthTarget::Scene,
                    if self.clears() {
                        DepthLoad::Clear
                    } else {
                        DepthLoad::Load
                    },
                ),
            ),
            steps: frame.scene_groups() + frame.draw_steps(
                BatchList::All,
                frame.draw@.batches,
                DrawOptions { depth_prepass: true, filter: self.filter() },
            ),
        }
    }

    /// What the pass does. The depth pre-pass runs in both halves of a split: it filters
    /// by primitive kind too, so blended lines and points get theirs.
    pub fn execute(&self, frame: &SceneFrame<'_>) -> (plan: PassPlan)
        ensures
            plan@ == self.planned(frame),
    {
        let mut steps: Vec<Step> = Vec::new();
        frame.bind_scene_groups(&mut steps);
        frame.draw_batches(
            BatchList::All,
            frame.draw.all_batches(),
            DrawOptions { depth_prepass: true, filter: self.filter },
            &mut steps,
        );
        let plan = PassPlan {
            label: if self.clears {
                "3D Scene Faces Pass"
            } else {
                "3D Scene Lines & Points Pass"
            },
            color: ColorTarget::Frame,
            color_load: if self.clears {
                ColorLoad::Clear(frame.background_color)
            } else {
                ColorLoad::Load
            },
            color_store: true,
            depth: Some(
                (
                    DepthTarget::Scene,
                    if self.clears {
                        DepthLoad::Clear
                    } else {
                        DepthLoad::Load
                    },
                ),
            ),
            steps,
        };
        proof {
            assert(plan@ =~= self.planned(frame));
        }
        plan
    }
}

/// Loads the existing color attachment, clears a separate depth buffer, and draws
/// always-on-top geometry, so that it depth-tests among itself but not against the scene.
#[derive(Clone, Copy, PartialEq, Eq, Debug, Structural)]
pub struct OverlayPass {}

impl Default for OverlayPass {
    fn default() -> (pass: Self)
        ensures
            pass == (OverlayPass {  }),
    {
        OverlayPass::new()
    }
}

impl OverlayPass {
    /// The pass holds nothing of its own.
    pub fn new() -> (pass: Self)
        ensures
            pass == (OverlayPass {  }),
    {
        OverlayPass {  }
    }

    /// The attachments that the pass asks for.
    pub fn target_features(&self) -> (features: TargetFeatures)
        ensures
            features == (TargetFeatures {
                depth: false,
                sampled_depth: false,
                aux: Some(
                    AuxTarget {
                        name: AuxName::OverlayDepth,
                        kind: AuxKind::Depth,
                        multisampled: true,
                        resolved: false,
                        sampled: false,
                    },
                ),
            }),
    {
        TargetFeatures {
            depth: false,
            sampled_depth: false,
            aux: Some(
                AuxTarget {
                    name: AuxName::OverlayDepth,
                    kind: AuxKind::Depth,
                    multisampled: true,
                    resolved: false,
                    sampled: false,
                },
            ),
        }
    }

    /// Whether the pass runs: there is overlay geometry.
    pub fn is_active(&self, frame: &SceneFrame<'_>) -> (active: bool)
        ensures
            active == (frame.draw@.overlay.len() > 0),
    {
        frame.draw.has_overlay()
    }

    /// What the pass does, when its depth buffer is there.
    pub open spec fn planned(self, frame: &SceneFrame<'_>, has_depth: bool) -> Option<PlanModel> {
        if has_depth {
            Some(
                PlanModel {
                    label: "Overlay Render Pass"@,
                    color: ColorTarget::Frame,
                    color_load: ColorLoad::Load,
                    color_store: true,
                    depth: Some((DepthTarget::Aux(AuxName::OverlayDepth), DepthLoad::Clear)),
                    steps: frame.scene_groups() + frame.draw_steps(
                        BatchList::Overlay,
                        frame.draw@.overlay,
                        DrawOptions { depth_prepass: false, filter: PrimitiveFilter::All },
                    ),
                },
            )
        } else {
            None
        }
    }

    /// What the pass does: nothing when its depth buffer is missing.
    pub fn execute(&self, frame: &SceneFrame<'_>, has_depth: bool) -> (plan: Option<PassPlan>)
        ensures
            plan is Some == has_depth,
            plan matches Some(plan) ==> Some(plan@) == self.planned(frame, has_depth),
    {
        if !has_depth {
            return None;
        }
        let mut steps: Vec<Step> = Vec::new();
        frame.bind_scene_groups(&mut steps);
        frame.draw_batches(
            BatchList::Overlay,
            frame.draw.overlay_batches(),
            DrawOptions { depth_prepass: false, filter: PrimitiveFilter::All },
            &mut steps,
        );
        let plan = PassPlan {
            label: "Overlay Render Pass",
            color: ColorTarget::Frame,
            color_load: ColorLoad::Load,
            color_store: true,
            depth: Some((DepthTarget::Aux(AuxName::OverlayDepth), DepthLoad::Clear)),
            steps,
        };
        proof {
            assert(plan@ =~= self.planned(frame, has_depth)->0);
        }
        Some(plan)
    }
}

/// The two halves of the split draw every batch once: each kind of primitive is accepted
/// by exactly one of them.
pub proof fn the_split_is_complete(kind: PrimitiveType)
    ensures
        PrimitiveFilter::Faces.accepts_spec(kind) != PrimitiveFilter::LinesAndPoints.accepts_spec(
            kind,
        ),
        PrimitiveFilter::All.accepts_spec(kind),
{
}

} // verus!
