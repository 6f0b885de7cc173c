//! The names that the stock workflows register their passes under.
//!
//! Use these to address a built-in pass: insert next to one, swap one out, or reach in
//! and retune it.

use vstd::prelude::*;

verus! {

/// What a pass is addressed by within a workflow.
pub type PassId = &'static str;

pub const FACES: &'static str = "faces";

pub const OUTLINE_MASK: &'static str = "outline_mask";

pub const LINES_AND_POINTS: &'static str = "lines_and_points";

pub const OUTLINE_COMPOSITE: &'static str = "outline_composite";

pub const OVERLAY: &'static str = "overlay";

pub const SUB_GEOM_HIGHLIGHT: &'static str = "sub_geom_highlight";

pub const SOLID: &'static str = "solid";

pub const SILHOUETTE: &'static str = "silhouette";

pub const OCCLUDED_LINES: &'static str = "occluded_lines";

pub const VISIBLE_LINES: &'static str = "visible_lines";

} // verus!
