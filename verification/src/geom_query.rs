//! Geometry queries against a scene: picking, and what speeds it up.
//!
//! [`pick_query`] walks the scene tree with any query that implements
//! [`PickQuery`](pick_query::PickQuery); [`spatial_index`] narrows a query against
//! one mesh down to the primitives that can matter; [`volume_picking`] holds the
//! query for everything that touches a convex volume.

pub mod bvh;
pub mod pick_laws;
pub mod pick_query;
pub mod ray_laws;
pub mod spatial_index;
pub mod volume_picking;
