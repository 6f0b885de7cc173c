//! Cameras: where they are, and how they follow what they look at.

use crate::common::{
    is_nan, negate, negated, scalar_ge, scalar_ge_spec, scalar_lt, scalar_lt_spec, scalar_max,
    scalar_max_is_largest, scalar_max_spec, Aabb, Point3, Quaternion, Scalar, Vector3, ONE, ZERO,
};
use crate::light::MINUS_ONE;
use crate::numeric::{
    apply1, apply2, apply3, definite1, definite2, definite3, value1, value2, value3,
};
use vstd::prelude::*;

verus! {

/// The projection of a camera, without its pose.
#[derive(Debug, Clone, Copy, PartialEq, Eq, Structural)]
pub struct CameraProjection {
    /// Vertical field of view in degrees.
    pub fovy: Scalar,
    /// Distance to the near clipping plane.
    pub znear: Scalar,
    /// Distance to the far clipping plane.
    pub zfar: Scalar,
    /// Use orthographic projection instead of perspective.
    pub ortho: bool,
}

/// A fully-positioned camera combining a projection with a world-space pose.
#[derive(Debug, Clone, Copy, PartialEq, Eq, Structural)]
pub struct PositionedCamera {
    /// The position of the camera in world space.
    pub eye: Point3,
    /// The point the camera is looking at in world space.
    pub target: Point3,
    /// The up direction vector.
    pub up: Vector3,
    /// The aspect ratio of the viewport (width / height).
    pub aspect: Scalar,
    /// The projection.
    pub projection: CameraProjection,
}

/// The bit pattern of `0.001`: the nearest that the near plane gets.
pub const MIN_ZNEAR: u32 = 0x3a83_126f;

/// The bit pattern of `1e-6`: a look vector that is shorter has no direction.
pub const MIN_LOOK: u32 = 0x3586_37bd;

/// The arithmetic that fitting a camera to a box needs, as functions.
pub struct FitMath<C, R, V, H, L, D, B, N, F> {
    /// The center of a box.
    pub center: C,
    /// Half the diagonal of a box.
    pub radius: R,
    /// The distance from which a sphere fits a vertical field of view: radius and angle.
    pub vertical: V,
    /// The same for the horizontal field of view: radius, vertical angle and aspect.
    pub horizontal: H,
    /// The distance between two points.
    pub distance: L,
    /// The direction from one point to another.
    pub direction: D,
    /// Steps back from a point against a direction.
    pub step_back: B,
    /// The near plane for a distance.
    pub near: N,
    /// The far plane for a distance and a radius.
    pub far: F,
}

impl<
    C: Fn(Aabb) -> Point3,
    R: Fn(Aabb) -> Scalar,
    V: Fn(Scalar, Scalar) -> Scalar,
    H: Fn(Scalar, Scalar, Scalar) -> Scalar,
    L: Fn(Point3, Point3) -> Scalar,
    D: Fn(Point3, Point3) -> Vector3,
    B: Fn(Point3, Vector3, Scalar) -> Point3,
    N: Fn(Scalar) -> Scalar,
    F: Fn(Scalar, Scalar) -> Scalar,
> FitMath<C, R, V, H, L, D, B, N, F> {
    /// Every function accepts every argument and is a function of it.
    pub open spec fn definite(&self) -> bool {
        &&& definite1(self.center)
        &&& definite1(self.radius)
        &&& definite2(self.vertical)
        &&& definite3(self.horizontal)
        &&& definite2(self.distance)
        &&& definite2(self.direction)
        &&& definite3(self.step_back)
        &&& definite1(self.near)
        &&& definite2(self.far)
    }

    /// A camera fitted to a box: it keeps its direction, looks at the center, and is as
    /// far away as the narrower field of view needs. A camera without a direction looks
    /// along the negative Z-axis.
    pub open spec fn fitted(&self, camera: PositionedCamera, bounds: Aabb) -> PositionedCamera {
        let center = value1(self.center)(bounds);
        let radius = value1(self.radius)(bounds);
        let distance = scalar_max_spec(
            value2(self.vertical)(radius, camera.projection.fovy),
            value3(self.horizontal)(radius, camera.projection.fovy, camera.aspect),
        );
        let direction = if scalar_lt_spec(
            value2(self.distance)(camera.eye, camera.target),
            MIN_LOOK,
        ) {
            Vector3 { x: ZERO, y: ZERO, z: MINUS_ONE }
        } else {
            value2(self.direction)(camera.eye, camera.target)
        };
        PositionedCamera {
            eye: value3(self.step_back)(center, direction, distance),
            target: center,
            projection: CameraProjection {
                znear: scalar_max_spec(value1(self.near)(distance), MIN_ZNEAR),
                zfar: value2(self.far)(distance, radius),
                ..camera.projection
            },
            ..camera
        }
    }

    /// Whether a distance is enough for both fields of view to hold the bounding sphere
    /// of a box, and no more than the more demanding of the two asks for.
    pub open spec fn holds_the_box(
        &self,
        camera: PositionedCamera,
        bounds: Aabb,
        distance: Scalar,
    ) -> bool {
        let radius = value1(self.radius)(bounds);
        let up_and_down = value2(self.vertical)(radius, camera.projection.fovy);
        let side_to_side = value3(self.horizontal)(radius, camera.projection.fovy, camera.aspect);
        &&& !scalar_lt_spec(distance, up_and_down)
        &&& !scalar_lt_spec(distance, side_to_side)
        &&& distance == up_and_down || distance == side_to_side
        &&& is_nan(distance) ==> is_nan(up_and_down) && is_nan(side_to_side)
    }

    /// A fitted camera looks at the center of the box, from a distance at which both
    /// fields of view hold its bounding sphere, and against the direction in which it
    /// looked before, or along the negative Z-axis where it had none. The near plane
    /// is never too near, both planes go by that distance, and everything else of the
    /// camera stays.
    pub proof fn fitting_shows_the_whole_box(&self, camera: PositionedCamera, bounds: Aabb)
        ensures
            self.fitted(camera, bounds).target == value1(self.center)(bounds),
            exists|distance: Scalar| #[trigger]
                self.holds_the_box(camera, bounds, distance) && {
                    let fitted = self.fitted(camera, bounds);
                    &&& !scalar_lt_spec(value2(self.distance)(camera.eye, camera.target), 0x3586_37bd)
                        ==> fitted.eye == value3(self.step_back)(
                        value1(self.center)(bounds),
                        value2(self.direction)(camera.eye, camera.target),
                        distance,
                    )
                    &&& scalar_lt_spec(value2(self.distance)(camera.eye, camera.target), 0x3586_37bd)
                        ==> fitted.eye == value3(self.step_back)(
                        value1(self.center)(bounds),
                        Vector3 { x: 0, y: 0, z: 0xbf80_0000 },
                        distance,
                    )
                    &&& !scalar_lt_spec(fitted.projection.znear, 0x3a83_126f)
                    &&& !scalar_lt_spec(fitted.projection.znear, value1(self.near)(distance))
                    &&& fitted.projection.znear == 0x3a83_126f || fitted.projection.znear == value1(
                        self.near,
                    )(distance)
                    &&& fitted.projection.zfar == value2(self.far)(
                        distance,
                        value1(self.radius)(bounds),
                    )
                },
            self.fitted(camera, bounds).up == camera.up,
            self.fitted(camera, bounds).aspect == camera.aspect,
            self.fitted(camera, bounds).projection.fovy == camera.projection.fovy,
            self.fitted(camera, bounds).projection.ortho == camera.projection.ortho,
    {
        let radius = value1(self.radius)(bounds);
        let up_and_down = value2(self.vertical)(radius, camera.projection.fovy);
        let side_to_side = value3(self.horizontal)(radius, camera.projection.fovy, camera.aspect);
        let distance = scalar_max_spec(up_and_down, side_to_side);
        scalar_max_is_largest(up_and_down, side_to_side);
        scalar_max_is_largest(value1(self.near)(distance), MIN_ZNEAR);
        assert(self.holds_the_box(camera, bounds, distance));
    }

    /// Where a camera ends up depends on the box, the direction in which it looks and its
    /// fields of view, and on nothing else: fitting undoes any move along that direction.
    pub proof fn fitting_forgets_the_position(
        &self,
        a: PositionedCamera,
        b: PositionedCamera,
        bounds: Aabb,
    )
        requires
            !scalar_lt_spec(value2(self.distance)(a.eye, a.target), MIN_LOOK),
            !scalar_lt_spec(value2(self.distance)(b.eye, b.target), MIN_LOOK),
            value2(self.direction)(a.eye, a.target) == value2(self.direction)(b.eye, b.target),
            a.projection.fovy == b.projection.fovy,
            a.aspect == b.aspect,
        ensures
            self.fitted(a, bounds).eye == self.fitted(b, bounds).eye,
            self.fitted(a, bounds).target == self.fitted(b, bounds).target,
            self.fitted(a, bounds).projection.znear == self.fitted(b, bounds).projection.znear,
            self.fitted(a, bounds).projection.zfar == self.fitted(b, bounds).projection.zfar,
    {
    }
}

/// The arithmetic that blending two cameras needs, as functions.
pub struct BlendMath<O, D, S, L, P, E, F, U, B> {
    /// The orientation of a camera.
    pub orientation: O,
    /// The dot product of two orientations.
    pub dot: D,
    /// The orientation part of the way from one to another.
    pub slerp: S,
    /// The number part of the way from one to another.
    pub lerp: L,
    /// The point part of the way from one to another.
    pub lerp_point: P,
    /// The distance between two points.
    pub distance: E,
    /// Where an orientation looks.
    pub forward: F,
    /// Where an orientation has its upper side.
    pub up: U,
    /// Steps back from a point against a direction.
    pub step_back: B,
}

/// The orientation with all components negated, which is the same orientation.
pub open spec fn opposite(q: Quaternion) -> Quaternion {
    Quaternion {
        s: negated(q.s),
        v: Vector3 { x: negated(q.v.x), y: negated(q.v.y), z: negated(q.v.z) },
    }
}

impl<
    O: Fn(PositionedCamera) -> Quaternion,
    D: Fn(Quaternion, Quaternion) -> Scalar,
    S: Fn(Quaternion, Quaternion, Scalar) -> Quaternion,
    L: Fn(Scalar, Scalar, Scalar) -> Scalar,
    P: Fn(Point3, Point3, Scalar) -> Point3,
    E: Fn(Point3, Point3) -> Scalar,
    F: Fn(Quaternion) -> Vector3,
    U: Fn(Quaternion) -> Vector3,
    B: Fn(Point3, Vector3, Scalar) -> Point3,
> BlendMath<O, D, S, L, P, E, F, U, B> {
    /// Every function accepts every argument and is a function of it.
    pub open spec fn definite(&self) -> bool {
        &&& definite1(self.orientation)
        &&& definite2(self.dot)
        &&& definite3(self.slerp)
        &&& definite3(self.lerp)
        &&& definite3(self.lerp_point)
        &&& definite2(self.distance)
        &&& definite1(self.forward)
        &&& definite1(self.up)
        &&& definite3(self.step_back)
    }

    /// The orientation part of the way between those of two cameras, along the shorter
    /// arc.
    pub open spec fn turned(&self, a: PositionedCamera, b: PositionedCamera, t: Scalar) -> Quaternion {
        let from = value1(self.orientation)(a);
        let to = value1(self.orientation)(b);
        value3(self.slerp)(
            from,
            if scalar_lt_spec(value2(self.dot)(from, to), ZERO) {
                opposite(to)
            } else {
                to
            },
            t,
        )
    }

    /// The camera part of the way from one to another. What cannot be blended switches
    /// at the end.
    pub open spec fn blended(&self, a: PositionedCamera, b: PositionedCamera, t: Scalar) -> PositionedCamera {
        let rotation = self.turned(a, b, t);
        let target = value3(self.lerp_point)(a.target, b.target, t);
        let distance = value3(self.lerp)(
            value2(self.distance)(a.eye, a.target),
            value2(self.distance)(b.eye, b.target),
            t,
        );
        let last = if scalar_ge_spec(t, ONE) {
            b
        } else {
            a
        };
        PositionedCamera {
            eye: value3(self.step_back)(target, value1(self.forward)(rotation), distance),
            target,
            up: value1(self.up)(rotation),
            aspect: last.aspect,
            projection: CameraProjection {
                fovy: value3(self.lerp)(a.projection.fovy, b.projection.fovy, t),
                znear: value3(self.lerp)(a.projection.znear, b.projection.znear, t),
                zfar: value3(self.lerp)(a.projection.zfar, b.projection.zfar, t),
                ortho: last.projection.ortho,
            },
        }
    }

    /// The orientation turns along the shorter of the two arcs between those of the
    /// cameras: it goes to that one of the two quaternions of the second orientation
    /// that does not point away from the first.
    pub proof fn blending_turns_the_shorter_way(
        &self,
        a: PositionedCamera,
        b: PositionedCamera,
        t: Scalar,
    )
        requires
            forall|p: Quaternion, q: Quaternion|
                value2(self.dot)(p, #[trigger] opposite(q)) == negated(
                    #[trigger] value2(self.dot)(p, q),
                ),
        ensures
            exists|to: Quaternion|
                #![trigger value3(self.slerp)(value1(self.orientation)(a), to, t)]
                {
                    let from = value1(self.orientation)(a);
                    &&& to == value1(self.orientation)(b) || to == opposite(
                        value1(self.orientation)(b),
                    )
                    &&& !scalar_lt_spec(value2(self.dot)(from, to), ZERO)
                    &&& self.blended(a, b, t).up == value1(self.up)(
                        value3(self.slerp)(from, to, t),
                    )
                    &&& self.blended(a, b, t).eye == value3(self.step_back)(
                        self.blended(a, b, t).target,
                        value1(self.forward)(value3(self.slerp)(from, to, t)),
                        value3(self.lerp)(
                            value2(self.distance)(a.eye, a.target),
                            value2(self.distance)(b.eye, b.target),
                            t,
                        ),
                    )
                },
    {
        let from = value1(self.orientation)(a);
        let there = value1(self.orientation)(b);
        if scalar_lt_spec(value2(self.dot)(from, there), ZERO) {
            let to = opposite(there);
            assert(value2(self.dot)(from, to) == negated(value2(self.dot)(from, there)));
            assert(self.turned(a, b, t) == value3(self.slerp)(from, to, t));
        } else {
            assert(self.turned(a, b, t) == value3(self.slerp)(from, there, t));
        }
    }

    /// Blending starts at the first camera: where the arithmetic gives back what it starts
    /// from, and an orientation stands for the pose it was taken from, the camera before
    /// the end is the first one.
    pub proof fn blending_starts_at_the_first(
        &self,
        a: PositionedCamera,
        b: PositionedCamera,
        t: Scalar,
    )
        requires
            scalar_lt_spec(t, ONE),
            forall|p: Quaternion, q: Quaternion| #[trigger] value3(self.slerp)(p, q, t) == p,
            forall|x: Scalar, y: Scalar| #[trigger] value3(self.lerp)(x, y, t) == x,
            forall|p: Point3, q: Point3| #[trigger] value3(self.lerp_point)(p, q, t) == p,
            value1(self.up)(value1(self.orientation)(a)) == a.up,
            value3(self.step_back)(
                a.target,
                value1(self.forward)(value1(self.orientation)(a)),
                value2(self.distance)(a.eye, a.target),
            ) == a.eye,
        ensures
            self.blended(a, b, t) == a,
    {
    }

    /// Blending ends at the second camera.
    pub proof fn blending_ends_at_the_second(
        &self,
        a: PositionedCamera,
        b: PositionedCamera,
        t: Scalar,
    )
        requires
            scalar_ge_spec(t, ONE),
            forall|p: Quaternion, q: Quaternion| #[trigger] value3(self.slerp)(p, q, t) == q,
            forall|x: Scalar, y: Scalar| #[trigger] value3(self.lerp)(x, y, t) == y,
            forall|p: Point3, q: Point3| #[trigger] value3(self.lerp_point)(p, q, t) == q,
            forall|q: Quaternion|
                value1(self.up)(#[trigger] opposite(q)) == value1(self.up)(q) && value1(
                    self.forward,
                )(opposite(q)) == value1(self.forward)(q),
            value1(self.up)(value1(self.orientation)(b)) == b.up,
            value3(self.step_back)(
                b.target,
                value1(self.forward)(value1(self.orientation)(b)),
                value2(self.distance)(b.eye, b.target),
            ) == b.eye,
        ensures
            self.blended(a, b, t) == b,
    {
    }

    /// On the way, each parameter is as far along as `t` says, between those of the two
    /// cameras; what cannot be blended is the first camera's until the end.
    pub proof fn blending_goes_along(&self, a: PositionedCamera, b: PositionedCamera, t: Scalar)
        requires
            scalar_lt_spec(t, ONE),
        ensures
            self.blended(a, b, t).target == value3(self.lerp_point)(a.target, b.target, t),
            self.blended(a, b, t).projection.fovy == value3(self.lerp)(
                a.projection.fovy,
                b.projection.fovy,
                t,
            ),
            self.blended(a, b, t).projection.znear == value3(self.lerp)(
                a.projection.znear,
                b.projection.znear,
                t,
            ),
            self.blended(a, b, t).projection.zfar == value3(self.lerp)(
                a.projection.zfar,
                b.projection.zfar,
                t,
            ),
            self.blended(a, b, t).aspect == a.aspect,
            self.blended(a, b, t).projection.ortho == a.projection.ortho,
    {
    }
}

impl PositionedCamera {
    /// World-space size of one pixel at the given depth from the camera.
    ///
    /// For perspective, pixel size grows with depth. For orthographic, depth is ignored
    /// and the camera distance is used instead (pixel size is constant). `distance` gives
    /// the distance between two points, and `size` the size of a pixel from a depth, the
    /// field of view and the height of the viewport.
    pub fn world_size_per_pixel<
        L: Fn(Point3, Point3) -> Scalar,
        S: Fn(Scalar, Scalar, u32) -> Scalar,
    >(&self, depth: Scalar, viewport_height: u32, distance: &L, size: &S) -> (world: Scalar)
        requires
            definite2(*distance),
            definite3(*size),
        ensures
            world == value3(*size)(
                if self.projection.ortho {
                    value2(*distance)(self.eye, self.target)
                } else {
                    depth
                },
                self.projection.fovy,
                viewport_height,
            ),
    {
        let effective = if self.projection.ortho {
            apply2(distance, self.eye, self.target)
        } else {
            depth
        };
        apply3(size, effective, self.projection.fovy, viewport_height)
    }

    /// Adjusts the camera to fit a bounding box in view.
    ///
    /// Positions the camera so that the entire box is visible while maintaining the
    /// current view direction. The camera is moved along this direction to ensure that
    /// the bounds fit within the field of view.
    pub fn fit_to_bounds<
        C: Fn(Aabb) -> Point3,
        R: Fn(Aabb) -> Scalar,
        V: Fn(Scalar, Scalar) -> Scalar,
        H: Fn(Scalar, Scalar, Scalar) -> Scalar,
        L: Fn(Point3, Point3) -> Scalar,
        D: Fn(Point3, Point3) -> Vector3,
        B: Fn(Point3, Vector3, Scalar) -> Point3,
        N: Fn(Scalar) -> Scalar,
        F: Fn(Scalar, Scalar) -> Scalar,
    >(&mut self, bounds: Aabb, math: &FitMath<C, R, V, H, L, D, B, N, F>)
        requires
            math.definite(),
        ensures
            *final(self) == math.fitted(*old(self), bounds),
            exists|distance: Scalar, look: Vector3|
                math.holds_the_box(*old(self), bounds, distance) && final(self).eye
                    == #[trigger] value3(math.step_back)(final(self).target, look, distance),
    {
        let ghost camera = *self;
        let center = apply1(&math.center, bounds);
        let radius = apply1(&math.radius, bounds);
        let vertical = apply2(&math.vertical, radius, self.projection.fovy);
        let horizontal = apply3(&math.horizontal, radius, self.projection.fovy, self.aspect);
        let distance = scalar_max(vertical, horizontal);
        let direction = if scalar_lt(apply2(&math.distance, self.eye, self.target), MIN_LOOK) {
            Vector3 { x: ZERO, y: ZERO, z: MINUS_ONE }
        } else {
            apply2(&math.direction, self.eye, self.target)
        };
        self.target = center;
        self.eye = apply3(&math.step_back, center, direction, distance);
        self.projection.znear = scalar_max(apply1(&math.near, distance), MIN_ZNEAR);
        self.projection.zfar = apply2(&math.far, distance, radius);
        proof {
            scalar_max_is_largest(vertical, horizontal);
            assert(math.holds_the_box(camera, bounds, distance));
            assert(self.eye == value3(math.step_back)(self.target, direction, distance));
        }
    }

    /// Pose blended toward `other` at `t` between zero and one: the orientation follows
    /// the shortest arc while the target, distance, and projection parameters blend
    /// linearly, keeping the eye on an orbit arc rather than a straight chord. The aspect
    /// and the kind of projection cannot be blended and switch from this camera's values
    /// to the other's at the end.
    pub fn interpolated<
        O: Fn(PositionedCamera) -> Quaternion,
        D: Fn(Quaternion, Quaternion) -> Scalar,
        S: Fn(Quaternion, Quaternion, Scalar) -> Quaternion,
        L: Fn(Scalar, Scalar, Scalar) -> Scalar,
        P: Fn(Point3, Point3, Scalar) -> Point3,
        E: Fn(Point3, Point3) -> Scalar,
        F: Fn(Quaternion) -> Vector3,
        U: Fn(Quaternion) -> Vector3,
        B: Fn(Point3, Vector3, Scalar) -> Point3,
    >(
        &self,
        other: &PositionedCamera,
        t: Scalar,
        math: &BlendMath<O, D, S, L, P, E, F, U, B>,
    ) -> (camera: PositionedCamera)
        requires
            math.definite(),
        ensures
            camera == math.blended(*self, *other, t),
    {
        let from = apply1(&math.orientation, *self);
        let mut to = apply1(&math.orientation, *other);
        // A quaternion and its opposite encode the same orientation.
        if scalar_lt(apply2(&math.dot, from, to), ZERO) {
            to = Quaternion {
                s: negate(to.s),
                v: Vector3 { x: negate(to.v.x), y: negate(to.v.y), z: negate(to.v.z) },
            };
        }
        let rotation = apply3(&math.slerp, from, to, t);
        let target = apply3(&math.lerp_point, self.target, other.target, t);
        let near = apply2(&math.distance, self.eye, self.target);
        let far = apply2(&math.distance, other.eye, other.target);
        let distance = apply3(&math.lerp, near, far, t);
        let forward = apply1(&math.forward, rotation);
        let done = scalar_ge(t, ONE);
        PositionedCamera {
            eye: apply3(&math.step_back, target, forward, distance),
            target,
            up: apply1(&math.up, rotation),
            aspect: if done {
                other.aspect
            } else {
                self.aspect
            },
            projection: CameraProjection {
                fovy: apply3(&math.lerp, self.projection.fovy, other.projection.fovy, t),
                znear: apply3(&math.lerp, self.projection.znear, other.projection.znear, t),
                zfar: apply3(&math.lerp, self.projection.zfar, other.projection.zfar, t),
                ortho: if done {
                    other.projection.ortho
                } else {
                    self.projection.ortho
                },
            },
        }
    }
}

} // verus!
