//! What can go wrong.

use crate::resource::handle::{InstanceId, NodeId};
use vstd::prelude::*;

verus! {

/// Why a scene operation was refused.
#[derive(Debug, Clone, Copy, PartialEq, Eq, Structural)]
pub enum SceneError {
    /// The node that the operation is about is not in the scene.
    NodeNotFound(NodeId),
    /// The named parent is not in the scene.
    ParentNotFound(NodeId),
    /// Putting the node under the parent would make it its own ancestor.
    Cycle { node: NodeId, parent: NodeId },
    /// The node carries no instance.
    NoInstance(NodeId),
    /// The instance that the node carries is not in the scene.
    InstanceNotFound(InstanceId),
}

/// Why a frame could not be handed out as an image.
#[derive(Debug, Clone, Copy, PartialEq, Eq, Structural)]
pub enum RenderError {
    /// There are fewer bytes than the size of the image asks for.
    IncompleteImage,
}

} // verus!
