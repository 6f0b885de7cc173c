//! The scene's owned resources.
//!
//! Everything here is addressed by an id, stored in a
//! [`SceneData`](crate::data::SceneData) collection, and owned by
//! reference-counted [`Handle`](handle::Handle)s: the seven types that implement
//! [`SceneResource`](handle::SceneResource), plus the handle machinery itself.

pub mod display;
pub mod handle;
pub mod instance;
pub mod material;
pub mod mesh;
pub mod node;
pub mod texture;
