//! What the pipelines of the built-in passes are made of.

use crate::common::Scalar;
use crate::resource::mesh::PrimitiveType;
use vstd::prelude::*;

verus! {

/// The faces that are not drawn.
#[derive(Clone, Copy, PartialEq, Eq, Debug, Structural)]
pub enum Face {
    Front,
    Back,
}

/// Which depths pass the depth test, compared with what is in the buffer.
#[derive(Clone, Copy, PartialEq, Eq, Debug, Structural)]
pub enum DepthTest {
    Less,
    LessEqual,
    Greater,
}

/// What is added to depths before they are tested.
#[derive(Clone, Copy, PartialEq, Eq, Debug, Structural)]
pub struct DepthBias {
    pub constant: i32,
    pub slope_scale: Scalar,
    pub clamp: Scalar,
}

/// How a pipeline uses the depth buffer.
#[derive(Clone, Copy, PartialEq, Eq, Debug, Structural)]
pub struct DepthState {
    pub write: bool,
    pub test: DepthTest,
    pub bias: DepthBias,
}

/// What a pipeline writes into.
#[derive(Clone, Copy, PartialEq, Eq, Debug, Structural)]
pub enum TargetFormat {
    /// The color of the frame.
    Frame,
    /// A mask with this number of channels.
    Mask { channels: u32 },
}

/// Which channels a pipeline writes.
#[derive(Clone, Copy, PartialEq, Eq, Debug, Structural)]
pub enum ColorWrites {
    Red,
    Green,
    All,
}

/// What is drawn: meshes with instances, or one triangle without any buffers.
#[derive(Clone, Copy, PartialEq, Eq, Debug, Structural)]
pub enum Geometry {
    Meshes(PrimitiveType),
    Fullscreen,
}

/// A pipeline of a built-in pass, besides its label and shader.
#[derive(Clone, Copy, PartialEq, Eq, Debug, Structural)]
pub struct PipelineState {
    pub geometry: Geometry,
    pub cull: Option<Face>,
    pub depth: Option<DepthState>,
    pub target: TargetFormat,
    /// Blend with what is there, by alpha.
    pub blends: bool,
    pub writes: ColorWrites,
    /// Samples per pixel.
    pub samples: u32,
}

} // verus!
