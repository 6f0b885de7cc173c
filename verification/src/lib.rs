//! A verified scene graph and the rendering decisions made over it.
//!
//! The crate holds the part of a small CAD renderer that is worth proving: the
//! scene container with its reference-counted resources and its node tree, the
//! cached queries over that tree, the spatial index used for picking, and the
//! planning a frame needs before any graphics device is involved.
//!
//! Coordinates, colors and matrices are carried as the bit patterns of IEEE 754
//! single-precision numbers. The crate stores, compares and hands them on; the
//! arithmetic on them is supplied by the caller.

#![allow(unused_imports)]

pub mod cad;
pub mod camera;
pub mod common;
pub mod data;
pub mod error;
pub mod geom_query;
pub mod id_map;
pub mod id_set;
pub mod light;
pub mod numeric;
pub mod renderer;
pub mod resource;
pub mod shaders;
pub mod view;
use vstd::prelude::*;

verus! {

/// The generation that newly created resources start from. It is above zero, so
/// that a copy that has never been synchronized is always behind.
pub fn initial_generation() -> (generation: u64)
    ensures
        generation == 1,
{
    1
}

} // verus!
