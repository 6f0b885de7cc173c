//! The attachments that passes draw into and read from, and what a pass does with them.

use crate::common::RgbaColor;
use crate::renderer::pass_context::Step;
use vstd::prelude::*;

verus! {

/// Two-channel highlight coverage: red is the primary tier, green the secondary.
pub const OUTLINE_MASK: &'static str = "outline_mask";

/// The always-on-top depth buffer, kept separate from the scene's so that overlay
/// geometry depth-tests among itself but not against the scene.
pub const OVERLAY_DEPTH: &'static str = "overlay_depth";

/// The auxiliary attachments that the built-in passes share.
#[derive(Clone, Copy, PartialEq, Eq, Debug, Structural)]
pub enum AuxName {
    OutlineMask,
    OverlayDepth,
}

impl AuxName {
    /// The name that the attachment is registered under.
    pub fn as_str(self) -> (name: &'static str)
        ensures
            name@ == (match self {
                AuxName::OutlineMask => OUTLINE_MASK@,
                AuxName::OverlayDepth => OVERLAY_DEPTH@,
            }),
    {
        match self {
            AuxName::OutlineMask => OUTLINE_MASK,
            AuxName::OverlayDepth => OVERLAY_DEPTH,
        }
    }
}

/// What an auxiliary attachment holds.
#[derive(Clone, Copy, PartialEq, Eq, Debug, Structural)]
pub enum AuxKind {
    Depth,
    /// Coverage, with this number of channels.
    Mask { channels: u32 },
}

/// An auxiliary attachment that a pass asks for.
#[derive(Clone, Copy, PartialEq, Eq, Debug, Structural)]
pub struct AuxTarget {
    pub name: AuxName,
    pub kind: AuxKind,
    /// It has as many samples as the frame, and is not resolved.
    pub multisampled: bool,
    /// It has as many samples as the frame, and is resolved to one.
    pub resolved: bool,
    /// Shaders read it.
    pub sampled: bool,
}

/// The attachments that a pass asks for, besides the color of the frame.
#[derive(Clone, Copy, PartialEq, Eq, Debug, Structural)]
pub struct TargetFeatures {
    /// The depth buffer of the scene.
    pub depth: bool,
    /// The depth buffer of the scene, readable by shaders.
    pub sampled_depth: bool,
    pub aux: Option<AuxTarget>,
}

/// What color a pass draws into.
#[derive(Clone, Copy, PartialEq, Eq, Debug, Structural)]
pub enum ColorTarget {
    Frame,
    Aux(AuxName),
}

/// What a pass starts from.
#[derive(Clone, Copy, PartialEq, Eq, Debug, Structural)]
pub enum ColorLoad {
    Clear(RgbaColor),
    Load,
}

/// What depth buffer a pass tests against.
#[derive(Clone, Copy, PartialEq, Eq, Debug, Structural)]
pub enum DepthTarget {
    Scene,
    Aux(AuxName),
}

/// What a pass starts from.
#[derive(Clone, Copy, PartialEq, Eq, Debug, Structural)]
pub enum DepthLoad {
    /// Everything is as far as can be.
    Clear,
    Load,
}

/// What one execution of a pass does.
pub struct PassPlan {
    pub label: &'static str,
    pub color: ColorTarget,
    pub color_load: ColorLoad,
    /// Keep what was drawn. Otherwise only what it resolves to is kept.
    pub color_store: bool,
    pub depth: Option<(DepthTarget, DepthLoad)>,
    pub steps: Vec<Step>,
}

/// What a [`PassPlan`] says.
#[verifier::ext_equal]
pub struct PlanModel {
    pub label: Seq<char>,
    pub color: ColorTarget,
    pub color_load: ColorLoad,
    pub color_store: bool,
    pub depth: Option<(DepthTarget, DepthLoad)>,
    pub steps: Seq<Step>,
}

impl View for PassPlan {
    type V = PlanModel;

    open spec fn view(&self) -> PlanModel {
        PlanModel {
            label: self.label@,
            color: self.color,
            color_load: self.color_load,
            color_store: self.color_store,
            depth: self.depth,
            steps: self.steps@,
        }
    }
}

} // verus!
