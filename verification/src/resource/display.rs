//! Per-node render-presentation behavior.
//!
//! [`DisplayBehavior`] groups the placement and presentation modifiers that affect
//! *how* a node's geometry is drawn. They inherit down the subtree: a layer or a
//! screen-space flag set on a group root applies to all descendants unless a
//! descendant overrides it.

use crate::camera::PositionedCamera;
use crate::common::{
    negate, negated, scalar_lt, scalar_lt_spec, scalar_max, scalar_max_is_largest,
    scalar_max_spec, Matrix4, Point3, Scalar, Vector3, Vector4, ONE, ZERO,
};
use crate::numeric::{apply1, apply2, definite1, definite2, definite3, value1, value2, value3};
use vstd::prelude::*;

verus! {

/// Which render layer a node's geometry draws in.
#[derive(Debug, Clone, Copy, PartialEq, Eq, Structural)]
pub enum RenderLayer {
    /// Ordinary scene geometry, depth-tested against the rest of the scene.
    Scene,
    /// Drawn on top of the scene in a separate pass with its own depth buffer, so
    /// it depth-tests among itself but not against scene geometry.
    Overlay,
}

impl Default for RenderLayer {
    fn default() -> (layer: Self)
        ensures
            layer == RenderLayer::Scene,
    {
        RenderLayer::Scene
    }
}

/// How a node's geometry is presented at render time.
#[derive(Debug, Clone, Copy, PartialEq, Eq, Structural)]
pub struct DisplayBehavior {
    /// `Some(px)` asks for a constant on-screen size of `px` pixels for the
    /// geometry's unit extent; `None` leaves it at its authored world size.
    pub screen_size: Option<Scalar>,
    /// Orient the geometry to face the camera.
    pub screen_facing: bool,
    /// Which render layer this node draws in.
    pub layer: RenderLayer,
}

impl DisplayBehavior {
    /// Ordinary scene geometry.
    pub open spec fn ordinary() -> DisplayBehavior {
        DisplayBehavior { screen_size: None, screen_facing: false, layer: RenderLayer::Scene }
    }

    /// Whether the behavior depends on the camera.
    pub open spec fn screen_space(self) -> bool {
        self.screen_size is Some || self.screen_facing
    }

    /// What a node with behavior `node` shows under a parent that shows `parent`.
    pub open spec fn inherited(parent: DisplayBehavior, node: DisplayBehavior) -> DisplayBehavior {
        DisplayBehavior {
            screen_size: if node.screen_size is Some {
                node.screen_size
            } else {
                parent.screen_size
            },
            screen_facing: parent.screen_facing || node.screen_facing,
            layer: if node.layer != RenderLayer::Scene {
                node.layer
            } else {
                parent.layer
            },
        }
    }

    /// Whether this behavior needs a camera-dependent transform (screen-sizing
    /// and/or billboarding). Ordinary geometry returns `false`.
    pub fn is_screen_space(&self) -> (yes: bool)
        ensures
            yes == self.screen_space(),
    {
        self.screen_size.is_some() || self.screen_facing
    }

    /// Resolves a node's own behavior against the inherited one: a non-`Scene`
    /// layer or a set screen-space flag overrides downward, otherwise the parent's
    /// value is carried.
    pub fn inherit(parent: DisplayBehavior, node: DisplayBehavior) -> (shown: DisplayBehavior)
        ensures
            shown == DisplayBehavior::inherited(parent, node),
    {
        DisplayBehavior {
            screen_size: if node.screen_size.is_some() {
                node.screen_size
            } else {
                parent.screen_size
            },
            screen_facing: parent.screen_facing || node.screen_facing,
            layer: if node.layer != RenderLayer::Scene {
                node.layer
            } else {
                parent.layer
            },
        }
    }
}

impl Default for DisplayBehavior {
    fn default() -> (behavior: Self)
        ensures
            behavior == DisplayBehavior::ordinary(),
    {
        DisplayBehavior { screen_size: None, screen_facing: false, layer: RenderLayer::Scene }
    }
}

/// The bit pattern of the difference between one and the next larger number: a vector
/// whose squared length is no more than that has no direction.
pub const SMALL: u32 = 0x3400_0000;

/// The arithmetic that placing screen-space geometry needs, as functions.
pub struct DisplayMath<T, A, Q, L, U, X, S, D, E, P, M> {
    /// The vector from one point to another.
    pub toward: T,
    /// Where a camera looks, as a vector of length one.
    pub ahead: A,
    /// The squared length of a vector.
    pub length2: Q,
    /// The length of a vector.
    pub length: L,
    /// The vector of length one in the same direction.
    pub unit: U,
    /// The cross product of two vectors.
    pub cross: X,
    /// A vector times a number.
    pub scaled: S,
    /// How far a point is in front of a camera.
    pub depth: D,
    /// The distance between two points.
    pub distance: E,
    /// The size of a pixel from a depth, a field of view and the height of a viewport.
    pub pixel: P,
    /// The product of two numbers.
    pub times: M,
}

/// The translation of a matrix.
pub open spec fn origin_of(world: Matrix4) -> Point3 {
    Point3 { x: world.w.x, y: world.w.y, z: world.w.z }
}

/// A column of a matrix, without its last component.
pub open spec fn axis(column: Vector4) -> Vector3 {
    Vector3 { x: column.x, y: column.y, z: column.z }
}

/// A direction as a column of a matrix.
pub open spec fn column(v: Vector3) -> Vector4 {
    Vector4 { x: v.x, y: v.y, z: v.z, w: ZERO }
}

fn axis_of(column: &Vector4) -> (v: Vector3)
    ensures
        v == axis(*column),
{
    Vector3 { x: column.x, y: column.y, z: column.z }
}

fn column_of(v: Vector3) -> (c: Vector4)
    ensures
        c == column(v),
{
    Vector4 { x: v.x, y: v.y, z: v.z, w: ZERO }
}

impl<
    T: Fn(Point3, Point3) -> Vector3,
    A: Fn(PositionedCamera) -> Vector3,
    Q: Fn(Vector3) -> Scalar,
    L: Fn(Vector3) -> Scalar,
    U: Fn(Vector3) -> Vector3,
    X: Fn(Vector3, Vector3) -> Vector3,
    S: Fn(Vector3, Scalar) -> Vector3,
    D: Fn(Point3, PositionedCamera) -> Scalar,
    E: Fn(Point3, Point3) -> Scalar,
    P: Fn(Scalar, Scalar, u32) -> Scalar,
    M: Fn(Scalar, Scalar) -> Scalar,
> DisplayMath<T, A, Q, L, U, X, S, D, E, P, M> {
    /// Every function accepts every argument and is a function of it.
    pub open spec fn definite(&self) -> bool {
        &&& definite2(self.toward)
        &&& definite1(self.ahead)
        &&& definite1(self.length2)
        &&& definite1(self.length)
        &&& definite1(self.unit)
        &&& definite2(self.cross)
        &&& definite2(self.scaled)
        &&& definite2(self.depth)
        &&& definite2(self.distance)
        &&& definite3(self.pixel)
        &&& definite2(self.times)
    }

    /// The direction of a vector, or `fallback` when it is (nearly) without length.
    pub open spec fn direction(&self, v: Vector3, fallback: Vector3) -> Vector3 {
        if scalar_lt_spec(SMALL, value1(self.length2)(v)) {
            value1(self.unit)(v)
        } else {
            fallback
        }
    }

    /// The axes that face a camera from a point. A point at the eye faces against the
    /// camera's direction.
    pub open spec fn facing(&self, p: Point3, camera: PositionedCamera) -> (
        Vector3,
        Vector3,
        Vector3,
    ) {
        let ahead = value1(self.ahead)(camera);
        let forward = self.direction(
            value2(self.toward)(p, camera.eye),
            Vector3 { x: negated(ahead.x), y: negated(ahead.y), z: negated(ahead.z) },
        );
        let right = value1(self.unit)(value2(self.cross)(camera.up, forward));
        (right, value2(self.cross)(forward, right), forward)
    }

    /// The axes that a matrix has, without their lengths.
    pub open spec fn authored(&self, world: Matrix4) -> (Vector3, Vector3, Vector3) {
        (
            self.direction(axis(world.x), Vector3 { x: ONE, y: ZERO, z: ZERO }),
            self.direction(axis(world.y), Vector3 { x: ZERO, y: ONE, z: ZERO }),
            self.direction(axis(world.z), Vector3 { x: ZERO, y: ZERO, z: ONE }),
        )
    }

    /// The scale at which a unit extent at a point spans a number of pixels, whatever the
    /// distance of the camera. What is nearer than the near plane counts as on it.
    pub open spec fn pixel_scale(
        &self,
        p: Point3,
        pixels: Scalar,
        camera: PositionedCamera,
        viewport_height: u32,
    ) -> Scalar {
        let depth = scalar_max_spec(value2(self.depth)(p, camera), camera.projection.znear);
        let effective = if camera.projection.ortho {
            value2(self.distance)(camera.eye, camera.target)
        } else {
            depth
        };
        value2(self.times)(
            value3(self.pixel)(effective, camera.projection.fovy, viewport_height),
            pixels,
        )
    }

    /// Where geometry with a behavior is drawn.
    pub open spec fn placed(
        &self,
        behavior: DisplayBehavior,
        world: Matrix4,
        camera: PositionedCamera,
        viewport_height: u32,
    ) -> Matrix4 {
        if !behavior.screen_space() {
            world
        } else {
            let p = origin_of(world);
            let (right, up, forward) = if behavior.screen_facing {
                self.facing(p, camera)
            } else {
                self.authored(world)
            };
            let (x, y, z) = match behavior.screen_size {
                Some(pixels) => {
                    let s = self.pixel_scale(p, pixels, camera, viewport_height);
                    (s, s, s)
                },
                None => (
                    value1(self.length)(axis(world.x)),
                    value1(self.length)(axis(world.y)),
                    value1(self.length)(axis(world.z)),
                ),
            };
            Matrix4 {
                x: column(value2(self.scaled)(right, x)),
                y: column(value2(self.scaled)(up, y)),
                z: column(value2(self.scaled)(forward, z)),
                w: Vector4 { x: p.x, y: p.y, z: p.z, w: ONE },
            }
        }
    }

    /// The origin of geometry stays in place whatever its behavior, and ordinary geometry
    /// is drawn where it was put.
    pub proof fn placing_keeps_the_origin(
        &self,
        behavior: DisplayBehavior,
        world: Matrix4,
        camera: PositionedCamera,
        viewport_height: u32,
    )
        ensures
            origin_of(self.placed(behavior, world, camera, viewport_height)) == origin_of(world),
            !behavior.screen_space() ==> self.placed(behavior, world, camera, viewport_height)
                == world,
    {
    }

    /// The axes of geometry that faces the camera: forward is toward the eye, or against
    /// where the camera looks for what is at the eye; right is at right angles to that and
    /// to the upper side of the camera, and up to both.
    pub open spec fn faces(
        &self,
        p: Point3,
        camera: PositionedCamera,
        right: Vector3,
        up: Vector3,
        forward: Vector3,
    ) -> bool {
        let to_eye = value2(self.toward)(p, camera.eye);
        let ahead = value1(self.ahead)(camera);
        &&& scalar_lt_spec(0x3400_0000, value1(self.length2)(to_eye)) ==> forward == value1(
            self.unit,
        )(to_eye)
        &&& !scalar_lt_spec(0x3400_0000, value1(self.length2)(to_eye)) ==> negated(forward.x)
            == ahead.x && negated(forward.y) == ahead.y && negated(forward.z) == ahead.z
        &&& right == value1(self.unit)(value2(self.cross)(camera.up, forward))
        &&& up == value2(self.cross)(forward, right)
    }

    /// Geometry that faces the camera has its axes turned to the camera, whatever axes it
    /// had; along them it is scaled to its size in pixels, or as it was where it has none.
    pub proof fn facing_geometry_is_turned_to_the_camera(
        &self,
        behavior: DisplayBehavior,
        world: Matrix4,
        camera: PositionedCamera,
        viewport_height: u32,
    )
        requires
            behavior.screen_facing,
        ensures
            exists|right: Vector3, up: Vector3, forward: Vector3|
                {
                    let after = self.placed(behavior, world, camera, viewport_height);
                    &&& #[trigger] self.faces(
                        Point3 { x: world.w.x, y: world.w.y, z: world.w.z },
                        camera,
                        right,
                        up,
                        forward,
                    )
                    &&& exists|x: Scalar, y: Scalar, z: Scalar|
                        #![trigger
                            value2(self.scaled)(right, x),
                            value2(self.scaled)(up, y),
                            value2(self.scaled)(forward, z)
                        ]
                        {
                            &&& after.x == column(value2(self.scaled)(right, x))
                            &&& after.y == column(value2(self.scaled)(up, y))
                            &&& after.z == column(value2(self.scaled)(forward, z))
                            &&& behavior.screen_size is Some ==> x == y && y == z
                            &&& behavior.screen_size is None ==> x == value1(self.length)(
                                Vector3 { x: world.x.x, y: world.x.y, z: world.x.z },
                            ) && y == value1(self.length)(
                                Vector3 { x: world.y.x, y: world.y.y, z: world.y.z },
                            ) && z == value1(self.length)(
                                Vector3 { x: world.z.x, y: world.z.y, z: world.z.z },
                            )
                        }
                },
    {
        let p = origin_of(world);
        let (right, up, forward) = self.facing(p, camera);
        assert(self.faces(p, camera, right, up, forward));
        let after = self.placed(behavior, world, camera, viewport_height);
        match behavior.screen_size {
            Some(pixels) => {
                let s = self.pixel_scale(p, pixels, camera, viewport_height);
                assert(after.x == column(value2(self.scaled)(right, s)));
                assert(after.y == column(value2(self.scaled)(up, s)));
                assert(after.z == column(value2(self.scaled)(forward, s)));
            },
            None => {
                let x = value1(self.length)(axis(world.x));
                let y = value1(self.length)(axis(world.y));
                let z = value1(self.length)(axis(world.z));
                assert(after.x == column(value2(self.scaled)(right, x)));
                assert(after.y == column(value2(self.scaled)(up, y)));
                assert(after.z == column(value2(self.scaled)(forward, z)));
            },
        }
    }

    /// Geometry of a size in pixels has that size whatever its own scale is: two transforms
    /// with the same origin, and with axes of the same directions unless it faces the camera
    /// anyhow, place it alike.
    pub proof fn sized_geometry_forgets_its_scale(
        &self,
        behavior: DisplayBehavior,
        a: Matrix4,
        b: Matrix4,
        camera: PositionedCamera,
        viewport_height: u32,
    )
        requires
            behavior.screen_size is Some,
            a.w.x == b.w.x && a.w.y == b.w.y && a.w.z == b.w.z,
            behavior.screen_facing || self.authored(a) == self.authored(b),
        ensures
            self.placed(behavior, a, camera, viewport_height) == self.placed(
                behavior,
                b,
                camera,
                viewport_height,
            ),
    {
    }

    /// The scale of geometry of a size in pixels: that many times the size of one pixel
    /// where the geometry is, or on the near plane for what is nearer; for a parallel
    /// projection as far away as the target, wherever the geometry is.
    pub proof fn sizes_are_counted_in_pixels(
        &self,
        p: Point3,
        pixels: Scalar,
        camera: PositionedCamera,
        viewport_height: u32,
    )
        ensures
            exists|away: Scalar|
                {
                    let in_front = value2(self.depth)(p, camera);
                    let near = camera.projection.znear;
                    &&& self.pixel_scale(p, pixels, camera, viewport_height) == value2(self.times)(
                        #[trigger] value3(self.pixel)(
                            away,
                            camera.projection.fovy,
                            viewport_height,
                        ),
                        pixels,
                    )
                    &&& camera.projection.ortho ==> away == value2(self.distance)(
                        camera.eye,
                        camera.target,
                    )
                    &&& !camera.projection.ortho ==> (away == in_front || away == near)
                        && !scalar_lt_spec(away, in_front) && !scalar_lt_spec(away, near)
                },
    {
        let in_front = value2(self.depth)(p, camera);
        scalar_max_is_largest(in_front, camera.projection.znear);
        let away = if camera.projection.ortho {
            value2(self.distance)(camera.eye, camera.target)
        } else {
            scalar_max_spec(in_front, camera.projection.znear)
        };
        assert(self.pixel_scale(p, pixels, camera, viewport_height) == value2(self.times)(
            value3(self.pixel)(away, camera.projection.fovy, viewport_height),
            pixels,
        ));
    }

    /// Geometry that keeps its axes keeps their directions, and of an axis that has none
    /// that of the world.
    pub proof fn unturned_geometry_keeps_its_axes(
        &self,
        behavior: DisplayBehavior,
        world: Matrix4,
        camera: PositionedCamera,
        viewport_height: u32,
    )
        requires
            !behavior.screen_facing,
            behavior.screen_size is Some,
            scalar_lt_spec(0x3400_0000, value1(self.length2)(axis(world.x))),
            scalar_lt_spec(0x3400_0000, value1(self.length2)(axis(world.y))),
            scalar_lt_spec(0x3400_0000, value1(self.length2)(axis(world.z))),
        ensures
            ({
                let after = self.placed(behavior, world, camera, viewport_height);
                let s = self.pixel_scale(
                    Point3 { x: world.w.x, y: world.w.y, z: world.w.z },
                    behavior.screen_size->0,
                    camera,
                    viewport_height,
                );
                &&& after.x == column(value2(self.scaled)(value1(self.unit)(axis(world.x)), s))
                &&& after.y == column(value2(self.scaled)(value1(self.unit)(axis(world.y)), s))
                &&& after.z == column(value2(self.scaled)(value1(self.unit)(axis(world.z)), s))
            }),
    {
    }

    fn direction_or(&self, v: Vector3, fallback: Vector3) -> (unit: Vector3)
        requires
            self.definite(),
        ensures
            unit == self.direction(v, fallback),
    {
        if scalar_lt(SMALL, apply1(&self.length2, v)) {
            apply1(&self.unit, v)
        } else {
            fallback
        }
    }

    fn screen_size_scale(
        &self,
        p: Point3,
        pixels: Scalar,
        camera: &PositionedCamera,
        viewport_height: u32,
    ) -> (scale: Scalar)
        requires
            self.definite(),
        ensures
            scale == self.pixel_scale(p, pixels, *camera, viewport_height),
    {
        let depth = scalar_max(apply2(&self.depth, p, *camera), camera.projection.znear);
        let size = camera.world_size_per_pixel(depth, viewport_height, &self.distance, &self.pixel);
        apply2(&self.times, size, pixels)
    }
}

impl DisplayBehavior {
    /// Camera-dependent model matrix for a node with this behavior.
    ///
    /// Billboarding replaces the rotation basis with one that faces the camera;
    /// screen-sizing replaces the per-axis scale with a uniform constant-pixel-size scale.
    /// The node origin is always preserved. Ordinary behavior returns `world` unchanged.
    pub fn effective_transform<
        T: Fn(Point3, Point3) -> Vector3,
        A: Fn(PositionedCamera) -> Vector3,
        Q: Fn(Vector3) -> Scalar,
        L: Fn(Vector3) -> Scalar,
        U: Fn(Vector3) -> Vector3,
        X: Fn(Vector3, Vector3) -> Vector3,
        S: Fn(Vector3, Scalar) -> Vector3,
        D: Fn(Point3, PositionedCamera) -> Scalar,
        E: Fn(Point3, Point3) -> Scalar,
        P: Fn(Scalar, Scalar, u32) -> Scalar,
        M: Fn(Scalar, Scalar) -> Scalar,
    >(
        &self,
        world: Matrix4,
        camera: &PositionedCamera,
        viewport_height: u32,
        math: &DisplayMath<T, A, Q, L, U, X, S, D, E, P, M>,
    ) -> (placed: Matrix4)
        requires
            math.definite(),
        ensures
            placed == math.placed(*self, world, *camera, viewport_height),
    {
        if !self.is_screen_space() {
            return world;
        }
        let p = Point3 { x: world.w.x, y: world.w.y, z: world.w.z };
        let (right, up, forward) = if self.screen_facing {
            let ahead = apply1(&math.ahead, *camera);
            let back = Vector3 { x: negate(ahead.x), y: negate(ahead.y), z: negate(ahead.z) };
            let forward = math.direction_or(apply2(&math.toward, p, camera.eye), back);
            let right = apply1(&math.unit, apply2(&math.cross, camera.up, forward));
            (right, apply2(&math.cross, forward, right), forward)
        } else {
            (
                math.direction_or(axis_of(&world.x), Vector3 { x: ONE, y: ZERO, z: ZERO }),
                math.direction_or(axis_of(&world.y), Vector3 { x: ZERO, y: ONE, z: ZERO }),
                math.direction_or(axis_of(&world.z), Vector3 { x: ZERO, y: ZERO, z: ONE }),
            )
        };
        let (x, y, z): (Scalar, Scalar, Scalar) = match self.screen_size {
            // The scale of the parents is discarded on purpose.
            Some(pixels) => {
                let s = math.screen_size_scale(p, pixels, camera, viewport_height);
                (s, s, s)
            },
            None => (
                apply1(&math.length, axis_of(&world.x)),
                apply1(&math.length, axis_of(&world.y)),
                apply1(&math.length, axis_of(&world.z)),
            ),
        };
        Matrix4 {
            x: column_of(apply2(&math.scaled, right, x)),
            y: column_of(apply2(&math.scaled, up, y)),
            z: column_of(apply2(&math.scaled, forward, z)),
            w: Vector4 { x: p.x, y: p.y, z: p.z, w: ONE },
        }
    }
}

/// A node with ordinary behavior shows exactly what its parent shows, and under an
/// ordinary parent every node shows its own behavior.
pub proof fn inherit_identity(behavior: DisplayBehavior)
    ensures
        DisplayBehavior::inherited(behavior, DisplayBehavior::ordinary()) == behavior,
        DisplayBehavior::inherited(DisplayBehavior::ordinary(), behavior) == behavior,
{
}

/// Resolving behaviors down a chain of nodes does not depend on how the chain is
/// grouped, so a traversal may carry the resolved behavior of the node above.
pub proof fn inherit_associative(a: DisplayBehavior, b: DisplayBehavior, c: DisplayBehavior)
    ensures
        DisplayBehavior::inherited(DisplayBehavior::inherited(a, b), c)
            == DisplayBehavior::inherited(a, DisplayBehavior::inherited(b, c)),
{
}

/// A screen-space or overlay parent makes every descendant so.
pub proof fn inherit_carries_down(parent: DisplayBehavior, node: DisplayBehavior)
    ensures
        parent.screen_space() || node.screen_space() <==> DisplayBehavior::inherited(
            parent,
            node,
        ).screen_space(),
        parent.layer == RenderLayer::Overlay || node.layer == RenderLayer::Overlay
            <==> DisplayBehavior::inherited(parent, node).layer == RenderLayer::Overlay,
{
}

} // verus!
