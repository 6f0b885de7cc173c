//! The cameras of a scene, with their pose.

use super::forest::{lemma_same_climbs, lemma_same_descends, same_shape};
use super::model::SceneModel;
use super::nodes::{ancestors, lemma_edits_keep_shape, subtree};
use super::tree::{climb_ends, climbs, descends, descent_ends};
use super::world::{transform_of, warmed, Compose};
use super::SceneData;
use crate::camera::{CameraProjection, PositionedCamera};
use crate::common::{Matrix4, Scalar, Transform};
use crate::numeric::{apply1, apply3, definite1, definite2, definite3, value1, value2, value3};
use crate::resource::handle::NodeId;
use crate::resource::node::{NodeModel, NodePayload};
use vstd::prelude::*;

verus! {

/// Positions a camera: from its projection, its world transform and the aspect ratio
/// of the viewport.
pub type Positioned = spec_fn(CameraProjection, Matrix4, Scalar) -> PositionedCamera;

impl SceneModel {
    /// The projection of a camera node.
    pub open spec fn camera_of(self, id: NodeId) -> Option<CameraProjection> {
        if self.nodes.contains_key(id) {
            match self.nodes[id].payload {
                NodePayload::Camera(projection) => Some(projection),
                _ => None,
            }
        } else {
            None
        }
    }

    /// The camera of a node, with its pose.
    pub open spec fn positioned_camera(
        self,
        id: NodeId,
        aspect: Scalar,
        compose: Compose,
        position: Positioned,
    ) -> Option<PositionedCamera> {
        match self.camera_of(id) {
            None => None,
            Some(projection) => match transform_of(self.nodes, id, compose) {
                None => None,
                Some(world) => Some(position(projection, world, aspect)),
            },
        }
    }

    /// After asking for the camera of a node.
    pub open spec fn camera_asked(self, id: NodeId, compose: Compose) -> SceneModel {
        match self.camera_of(id) {
            None => self,
            Some(_) => self.with_nodes(warmed(self.nodes, id, compose)),
        }
    }

    /// After writing a camera to the given node.
    pub open spec fn camera_written(
        self,
        id: NodeId,
        transform: Transform,
        projection: CameraProjection,
    ) -> SceneModel {
        self.set_node_transform(id, transform).set_node_payload(
            id,
            NodePayload::Camera(projection),
        )
    }

    /// After writing a camera to the active camera node.
    pub open spec fn set_camera(
        self,
        camera: PositionedCamera,
        pose: spec_fn(PositionedCamera) -> Transform,
    ) -> SceneModel {
        match self.active_camera {
            None => self,
            Some(id) => self.camera_written(id, pose(camera), camera.projection),
        }
    }

    /// After reading the active camera and writing back what a change makes of it, if there
    /// is one to read.
    pub open spec fn camera_changed(
        self,
        aspect: Scalar,
        change: spec_fn(PositionedCamera) -> PositionedCamera,
        compose: Compose,
        position: Positioned,
        pose: spec_fn(PositionedCamera) -> Transform,
    ) -> SceneModel {
        match self.active_camera {
            None => self,
            Some(id) => {
                let asked = self.camera_asked(id, compose);
                match self.positioned_camera(id, aspect, compose, position) {
                    None => asked,
                    Some(camera) => asked.set_camera(change(camera), pose),
                }
            },
        }
    }
}

impl SceneData {
    /// Constructs a [`PositionedCamera`] from any node carrying a camera payload,
    /// using its world transform and the given viewport aspect ratio.
    ///
    /// Returns `None` if the node does not exist, lacks a camera payload, or its
    /// world transform cannot be resolved (incomplete tree).
    pub fn positioned_camera_for_node<
        F: Fn(Matrix4, Transform) -> Matrix4,
        P: Fn(CameraProjection, Matrix4, Scalar) -> PositionedCamera,
    >(&mut self, id: NodeId, aspect: Scalar, compose: &F, position: &P) -> (camera: Option<
        PositionedCamera,
    >)
        requires
            climb_ends(old(self)@.nodes, id),
            definite2(*compose),
            definite3(*position),
        ensures
            camera == old(self)@.positioned_camera(
                id,
                aspect,
                value2(*compose),
                value3(*position),
            ),
            final(self)@ == old(self)@.camera_asked(id, value2(*compose)),
            old(self)@.sound() ==> final(self)@.sound(),
    {
        let projection = match self.nodes.get(id) {
            None => {
                return None;
            },
            Some(node) => match &node.payload {
                NodePayload::Camera(projection) => *projection,
                _ => {
                    return None;
                },
            },
        };
        match self.nodes_transform(id, compose) {
            None => None,
            Some(world) => Some(apply3(position, projection, world, aspect)),
        }
    }

    /// Constructs a [`PositionedCamera`] from the active camera node's world
    /// transform, its projection, and the given viewport aspect ratio.
    ///
    /// Returns `None` if there is no active camera or the node lacks a camera
    /// payload.
    pub fn active_camera_positioned<
        F: Fn(Matrix4, Transform) -> Matrix4,
        P: Fn(CameraProjection, Matrix4, Scalar) -> PositionedCamera,
    >(&mut self, aspect: Scalar, compose: &F, position: &P) -> (camera: Option<PositionedCamera>)
        requires
            old(self)@.active_camera matches Some(id) ==> climb_ends(old(self)@.nodes, id),
            definite2(*compose),
            definite3(*position),
        ensures
            match old(self)@.active_camera {
                None => camera is None && final(self)@ == old(self)@,
                Some(id) => {
                    &&& camera == old(self)@.positioned_camera(
                        id,
                        aspect,
                        value2(*compose),
                        value3(*position),
                    )
                    &&& final(self)@ == old(self)@.camera_asked(id, value2(*compose))
                },
            },
            old(self)@.sound() ==> final(self)@.sound(),
    {
        match self.active_camera {
            None => None,
            Some(id) => self.positioned_camera_for_node(id, aspect, compose, position),
        }
    }

    /// Writes a pose and a projection to a node.
    fn write_camera(&mut self, id: NodeId, transform: Transform, projection: CameraProjection)
        requires
            old(self)@.wf(),
            climb_ends(old(self)@.nodes, id),
            descent_ends(old(self)@.nodes, id),
            old(self)@.node_generation + 2 <= u64::MAX,
        ensures
            final(self)@ == old(self)@.camera_written(id, transform, projection),
            final(self)@.wf(),
            old(self)@.sound() ==> final(self)@.sound(),
    {
        let ghost m = self@;
        self.set_node_transform(id, transform);
        proof {
            let mid = self@;
            if m.nodes.contains_key(id) {
                let edited = m.nodes.insert(id, NodeModel { transform, ..m.nodes[id] });
                assert(edited.dom() =~= m.nodes.dom());
                let moved = super::nodes::dirty_transforms(edited, subtree(m.nodes, id));
                lemma_edits_keep_shape(edited, subtree(m.nodes, id));
                lemma_edits_keep_shape(moved, ancestors(m.nodes, id));
                assert(same_shape(m.nodes, mid.nodes));
            }
            let n = choose|n: nat| climbs(m.nodes, id, n);
            if m.nodes.contains_key(id) {
                lemma_same_climbs(m.nodes, mid.nodes, id, n);
            }
            assert(climbs(mid.nodes, id, n));
            if m.sound() {
                let none = crate::resource::material::opt_seq(
                    NodePayload::Camera(projection).handle(),
                );
                assert forall|c: u64| #[trigger] mid.refs(c)
                    + crate::resource::handle::count_core(none, c) <= mid.ledger.strong(c) by {
                    assert(mid.refs(c) <= mid.ledger.strong(c));
                }
            }
        }
        self.set_node_payload(id, NodePayload::Camera(projection));
    }

    /// Writes a camera back to the active camera node (pose and projection).
    ///
    /// Does nothing if the scene has no active camera.
    pub fn set_camera<T: Fn(PositionedCamera) -> Transform>(
        &mut self,
        camera: PositionedCamera,
        pose: &T,
    )
        requires
            old(self)@.wf(),
            old(self)@.active_camera matches Some(id) ==> climb_ends(old(self)@.nodes, id)
                && descent_ends(old(self)@.nodes, id),
            old(self)@.node_generation + 2 <= u64::MAX,
            definite1(*pose),
        ensures
            final(self)@ == old(self)@.set_camera(camera, value1(*pose)),
            final(self)@.wf(),
            old(self)@.sound() ==> final(self)@.sound(),
    {
        if let Some(id) = self.active_camera {
            let transform = apply1(pose, camera);
            self.write_camera(id, transform, camera.projection);
        }
    }

    /// Reads the active camera, passes it to `f`, and writes back what `f` makes of
    /// it. Does nothing if there is no active camera to read.
    pub fn with_camera_mut<
        F: Fn(Matrix4, Transform) -> Matrix4,
        P: Fn(CameraProjection, Matrix4, Scalar) -> PositionedCamera,
        T: Fn(PositionedCamera) -> Transform,
        G: Fn(PositionedCamera) -> PositionedCamera,
    >(&mut self, aspect: Scalar, f: &G, compose: &F, position: &P, pose: &T)
        requires
            old(self)@.wf(),
            old(self)@.active_camera matches Some(id) ==> climb_ends(old(self)@.nodes, id)
                && descent_ends(old(self)@.nodes, id),
            old(self)@.node_generation + 2 <= u64::MAX,
            definite2(*compose),
            definite3(*position),
            definite1(*pose),
            definite1(*f),
        ensures
            final(self)@ == old(self)@.camera_changed(
                aspect,
                value1(*f),
                value2(*compose),
                value3(*position),
                value1(*pose),
            ),
            final(self)@.wf(),
            old(self)@.sound() ==> final(self)@.sound(),
    {
        let ghost m = self@;
        let id: NodeId = match self.active_camera {
            None => {
                return ;
            },
            Some(id) => id,
        };
        let found = self.positioned_camera_for_node(id, aspect, compose, position);
        proof {
            let mid = self@;
            assert(same_shape(m.nodes, mid.nodes)) by {
                super::world::lemma_warmed_filled(m.nodes, id, value2(*compose));
            }
            let n = choose|n: nat| climbs(m.nodes, id, n);
            lemma_same_climbs(m.nodes, mid.nodes, id, n);
            assert(climbs(mid.nodes, id, n));
            let d = choose|d: nat| descends(m.nodes, id, d);
            lemma_same_descends(m.nodes, mid.nodes, id, d);
            assert(mid.nodes.dom() =~= m.nodes.dom());
            assert forall|k: u64| #[trigger] mid.nodes.contains_key(k) implies mid.nodes[k].id
                == k by {
                assert(m.nodes.contains_key(k));
                super::world::lemma_warmed_filled(m.nodes, id, value2(*compose));
            }
        }
        if let Some(camera) = found {
            let changed = apply1(f, camera);
            let transform = apply1(pose, changed);
            self.write_camera(id, transform, changed.projection);
        }
    }
}

} // verus!
