//! Named camera states.

use crate::camera::{CameraProjection, PositionedCamera};
use crate::common::{is_nan, scalar_lt_spec, scalar_max, scalar_max_spec, Point3, Scalar};
use crate::numeric::{apply2, apply3, definite2, definite3, value2, value3};
use vstd::prelude::*;

verus! {

/// Identifies a saved view.
pub type ViewId = u64;

/// The bit pattern of `0.001`: the closest that a target gets.
pub const MIN_ORBIT: u32 = 0x3a83_126f;

/// A named camera state that can be saved and restored.
///
/// A view is a complete camera snapshot under a human-readable name: a vantage point like
/// "Front" or "Isometric". Restore one by using its camera directly, or via
/// [`apply_to`](SavedView::apply_to) to keep an existing camera's calibration.
#[derive(Debug)]
pub struct SavedView {
    /// Unique identifier for this view.
    pub id: ViewId,
    /// Human-readable name (e.g. "Front", "Isometric").
    pub name: String,
    /// The saved camera configuration.
    pub camera: PositionedCamera,
}

/// A camera that takes the pose of a saved one at the orbit distance of another, and all
/// else from the other.
pub open spec fn restored(
    saved: PositionedCamera,
    reference: PositionedCamera,
    distance: spec_fn(Point3, Point3) -> Scalar,
    ahead: spec_fn(Point3, Point3, Scalar) -> Point3,
) -> PositionedCamera {
    PositionedCamera {
        eye: saved.eye,
        target: ahead(
            saved.eye,
            saved.target,
            scalar_max_spec(distance(reference.eye, reference.target), MIN_ORBIT),
        ),
        up: saved.up,
        aspect: reference.aspect,
        projection: CameraProjection {
            ortho: saved.projection.ortho,
            ..reference.projection
        },
    }
}

/// A restored view stands where it was saved, upright as it was saved and with the kind of
/// projection that was saved. It looks where it looked, at a target that is as far away as
/// that of the reference, yet never too near; and the fields of view, the clipping planes
/// and the aspect stay those of the reference, whatever was saved.
pub proof fn restoring_keeps_the_calibration(
    saved: PositionedCamera,
    reference: PositionedCamera,
    distance: spec_fn(Point3, Point3) -> Scalar,
    ahead: spec_fn(Point3, Point3, Scalar) -> Point3,
)
    ensures
        ({
            let camera = restored(saved, reference, distance, ahead);
            let orbit = distance(reference.eye, reference.target);
            &&& camera.eye == saved.eye
            &&& camera.up == saved.up
            &&& camera.projection.ortho == saved.projection.ortho
            &&& camera.aspect == reference.aspect
            &&& camera.projection.fovy == reference.projection.fovy
            &&& camera.projection.znear == reference.projection.znear
            &&& camera.projection.zfar == reference.projection.zfar
            &&& scalar_lt_spec(0x3a83_126f, orbit) ==> camera.target == ahead(
                saved.eye,
                saved.target,
                orbit,
            )
            &&& scalar_lt_spec(orbit, 0x3a83_126f) || is_nan(orbit) ==> camera.target == ahead(
                saved.eye,
                saved.target,
                0x3a83_126f,
            )
        }),
{
}

impl SavedView {
    /// A view from an id, a name, and a camera snapshot.
    pub fn new(id: ViewId, name: String, camera: PositionedCamera) -> (view: Self)
        ensures
            view.id == id,
            view.name@ == name@,
            view.camera == camera,
    {
        SavedView { id, name, camera }
    }

    /// The view's human-readable name.
    pub fn name(&self) -> (name: &str)
        ensures
            name@ == self.name@,
    {
        self.name.as_str()
    }

    /// The saved camera snapshot.
    pub fn camera(&self) -> (camera: &PositionedCamera)
        ensures
            *camera == self.camera,
    {
        &self.camera
    }

    /// A camera for rendering that blends this view's pose into `reference`.
    ///
    /// Takes the eye, the view direction, the upper side, and the kind of projection from
    /// the stored camera; the target is placed along that direction at `reference`'s orbit
    /// distance. All other fields come from `reference`, which is expected to be already
    /// calibrated for the scene. `distance` gives the distance between two points, and
    /// `ahead` the point at a distance from one point toward another.
    pub fn apply_to<L: Fn(Point3, Point3) -> Scalar, A: Fn(Point3, Point3, Scalar) -> Point3>(
        &self,
        reference: &PositionedCamera,
        distance: &L,
        ahead: &A,
    ) -> (camera: PositionedCamera)
        requires
            definite2(*distance),
            definite3(*ahead),
        ensures
            camera == restored(self.camera, *reference, value2(*distance), value3(*ahead)),
    {
        let orbit = scalar_max(apply2(distance, reference.eye, reference.target), MIN_ORBIT);
        PositionedCamera {
            eye: self.camera.eye,
            target: apply3(ahead, self.camera.eye, self.camera.target, orbit),
            up: self.camera.up,
            aspect: reference.aspect,
            projection: CameraProjection {
                fovy: reference.projection.fovy,
                znear: reference.projection.znear,
                zfar: reference.projection.zfar,
                ortho: self.camera.projection.ortho,
            },
        }
    }
}

} // verus!
