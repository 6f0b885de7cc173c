//! The bind group slots that shaders rely on.

use vstd::prelude::*;

verus! {

/// View and projection of the camera, and its position.
pub const GROUP_CAMERA: u32 = 0;

/// The lights.
pub const GROUP_LIGHTS: u32 = 1;

/// What the material binds.
pub const GROUP_MATERIAL: u32 = 2;

/// The processed environment map.
pub const GROUP_IBL: u32 = 3;

} // verus!
