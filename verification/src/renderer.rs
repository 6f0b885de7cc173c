//! What of a scene is drawn, in which order, and with which pipelines.
//!
//! Everything here is decided from scene data alone; no graphics device is involved.

pub mod abi;
pub mod batching;
pub mod batching_laws;
pub mod draw_data;
pub mod draw_laws;
pub mod frame;
pub mod frame_laws;
pub mod lights;
pub mod pass;
pub mod pass_context;
pub mod pass_laws;
pub mod pipeline;
pub mod resources;
pub mod target;
pub mod transparency;
pub mod uniform;
pub mod workflow;
