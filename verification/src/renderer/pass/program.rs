//! The programs that the pipelines of the built-in passes run, and what they read.

use crate::renderer::pass_context::{draws_of, BatchList, Group, Step};
use crate::renderer::batching::DrawBatchModel;
use vstd::prelude::*;

verus! {

/// What a pipeline runs: the two entry points of its shader, and the groups that they
/// read.
pub struct Program {
    /// The label of the pipeline.
    pub label: &'static str,
    /// The label of the pipeline's layout.
    pub layout_label: &'static str,
    /// Entry point of the vertex stage.
    pub vertex: &'static str,
    /// Entry point of the fragment stage.
    pub fragment: &'static str,
    /// What is bound to each slot.
    pub groups: Vec<Group>,
    /// A constant of the shader that the pipeline sets, in both stages: only the stage
    /// that uses it needs it, but either may come to.
    pub constant: Option<(&'static str, u32)>,
}

/// What a [`Program`] says.
#[verifier::ext_equal]
pub struct ProgramModel {
    pub label: Seq<char>,
    pub layout_label: Seq<char>,
    pub vertex: Seq<char>,
    pub fragment: Seq<char>,
    pub groups: Seq<Group>,
    pub constant: Option<(Seq<char>, u32)>,
}

impl View for Program {
    type V = ProgramModel;

    open spec fn view(&self) -> ProgramModel {
        ProgramModel {
            label: self.label@,
            layout_label: self.layout_label@,
            vertex: self.vertex@,
            fragment: self.fragment@,
            groups: self.groups@,
            constant: match self.constant {
                Some((name, value)) => Some((name@, value)),
                None => None,
            },
        }
    }
}

/// The stages that read a resource.
#[derive(Clone, Copy, PartialEq, Eq, Debug, Structural)]
pub enum Stages {
    Fragment,
    VertexAndFragment,
}

/// A kind of resource that a shader reads.
#[derive(Clone, Copy, PartialEq, Eq, Debug, Structural)]
pub enum Resource {
    /// A uniform buffer.
    Uniform,
    /// A texture that is read texel by texel, without a filter.
    Texels,
    /// A depth texture, with several samples per texel or one.
    Depth { multisampled: bool },
}

/// A resource of a bind group.
#[derive(Clone, Copy, PartialEq, Eq, Debug, Structural)]
pub struct Binding {
    pub binding: u32,
    pub stages: Stages,
    pub resource: Resource,
}

/// The bind group that a pass has for itself: a texture, and a uniform buffer.
pub struct OwnGroup {
    pub layout_label: &'static str,
    pub group_label: &'static str,
    pub buffer_label: &'static str,
    pub texture: Binding,
    pub uniform: Binding,
}

/// What an [`OwnGroup`] says.
#[verifier::ext_equal]
pub struct OwnGroupModel {
    pub layout_label: Seq<char>,
    pub group_label: Seq<char>,
    pub buffer_label: Seq<char>,
    pub texture: Binding,
    pub uniform: Binding,
}

impl View for OwnGroup {
    type V = OwnGroupModel;

    open spec fn view(&self) -> OwnGroupModel {
        OwnGroupModel {
            layout_label: self.layout_label@,
            group_label: self.group_label@,
            buffer_label: self.buffer_label@,
            texture: self.texture,
            uniform: self.uniform,
        }
    }
}

/// Whether every group that the commands bind is one that the pipeline expects in that
/// slot.
pub open spec fn fits(steps: Seq<Step>, groups: Seq<Group>) -> bool {
    forall|i: int|
        0 <= i < steps.len() ==> (#[trigger] steps[i] matches Step::Bind(slot, group) ==> slot
            < groups.len() && groups[slot as int] == group)
}

/// Draws bind nothing.
pub proof fn lemma_draws_fit(
    list: BatchList,
    batches: Seq<DrawBatchModel>,
    p: spec_fn(DrawBatchModel) -> bool,
    groups: Seq<Group>,
)
    ensures
        fits(draws_of(list, batches, p), groups),
    decreases batches.len(),
{
    if batches.len() > 0 {
        lemma_draws_fit(list, batches.drop_last(), p, groups);
    }
}

} // verus!
