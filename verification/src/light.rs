//! Light sources and their poses.

use crate::common::{
    negate, negated, scalar_lt, scalar_lt_spec, Matrix4, RgbaColor, Scalar, Transform, Vector3, ZERO,
};
use crate::numeric::{apply1, definite1, value1};
use crate::resource::handle::NodeId;
use vstd::prelude::*;

verus! {

/// Maximum number of lights supported in the scene.
pub const MAX_LIGHTS: usize = 8;

/// Light type identifiers.
#[derive(Debug, Copy, Clone, PartialEq, Eq, Structural)]
pub enum LightType {
    /// Point light (radiates in all directions from a position).
    Point,
    /// Directional light (parallel rays, like sunlight).
    Directional,
    /// Spotlight (cone of light from a position in a direction).
    Spot,
    /// Hemisphere light (ambient gradient between a sky and a ground color).
    Hemisphere,
}

impl LightType {
    /// The number that shaders know this type by.
    pub open spec fn code_spec(self) -> u32 {
        match self {
            LightType::Point => 0,
            LightType::Directional => 1,
            LightType::Spot => 2,
            LightType::Hemisphere => 3,
        }
    }

    /// The number that shaders know this type by.
    pub fn code(self) -> (code: u32)
        ensures
            code == self.code_spec(),
    {
        match self {
            LightType::Point => 0,
            LightType::Directional => 1,
            LightType::Spot => 2,
            LightType::Hemisphere => 3,
        }
    }
}

/// No two light types share a number.
pub proof fn light_codes_are_distinct(a: LightType, b: LightType)
    ensures
        a.code_spec() == b.code_spec() ==> a == b,
{
}

/// The photometric properties of a light source.
///
/// Position and direction are not stored here; pair this with a pose in a
/// [`PositionedLight`].
#[derive(Debug, Clone, Copy, PartialEq, Eq, Structural)]
pub enum Light {
    /// Point light that radiates in all directions.
    Point { color: RgbaColor, intensity: Scalar, range: Scalar },
    /// Directional light with parallel rays (like sunlight).
    Directional { color: RgbaColor, intensity: Scalar },
    /// Spotlight with a cone of light. Angles are in radians.
    Spot {
        color: RgbaColor,
        intensity: Scalar,
        range: Scalar,
        inner_cone_angle: Scalar,
        outer_cone_angle: Scalar,
    },
    /// Ambient light graded between a sky and a ground color along an axis.
    Hemisphere { sky_color: RgbaColor, ground_color: RgbaColor, intensity: Scalar },
}

/// The bit pattern of `-1.0`.
pub const MINUS_ONE: u32 = 0xbf80_0000;

/// Where a light with the given world transform is: its translation.
pub open spec fn light_position(world: Matrix4) -> Vector3 {
    Vector3 { x: world.w.x, y: world.w.y, z: world.w.z }
}

/// Where a light with the given world transform points: against its Z-axis, or
/// against the world's when that has no length.
pub open spec fn light_direction(
    world: Matrix4,
    length2: spec_fn(Vector3) -> Scalar,
    unit: spec_fn(Vector3) -> Vector3,
) -> Vector3 {
    let back = Vector3 {
        x: negated(world.z.x),
        y: negated(world.z.y),
        z: negated(world.z.z),
    };
    if scalar_lt_spec(ZERO, length2(back)) {
        unit(back)
    } else {
        Vector3 { x: ZERO, y: ZERO, z: MINUS_ONE }
    }
}

/// A light is at the translation of its transform, whatever else the transform does, and
/// points against its Z-axis, wherever the transform puts it; a transform without a Z-axis
/// leaves it pointing against that of the world.
pub proof fn lights_follow_their_transform(
    world: Matrix4,
    length2: spec_fn(Vector3) -> Scalar,
    unit: spec_fn(Vector3) -> Vector3,
)
    ensures
        light_position(world).x == world.w.x,
        light_position(world).y == world.w.y,
        light_position(world).z == world.w.z,
        exists|ahead: Vector3|
            negated(ahead.x) == world.z.x && negated(ahead.y) == world.z.y && negated(ahead.z)
                == world.z.z && (scalar_lt_spec(0, #[trigger] length2(ahead)) ==> light_direction(
                world,
                length2,
                unit,
            ) == unit(ahead)) && (!scalar_lt_spec(0, length2(ahead)) ==> light_direction(
                world,
                length2,
                unit,
            ) == (Vector3 { x: 0, y: 0, z: 0xbf80_0000 })),
{
    let ahead = Vector3 {
        x: negated(world.z.x),
        y: negated(world.z.y),
        z: negated(world.z.z),
    };
    assert(scalar_lt_spec(0, length2(ahead)) == scalar_lt_spec(ZERO, length2(ahead)));
}

impl Light {
    /// A point light of infinite range.
    pub fn point(color: RgbaColor, intensity: Scalar) -> (light: Self)
        ensures
            light == (Light::Point { color, intensity, range: ZERO }),
    {
        Light::Point { color, intensity, range: ZERO }
    }

    /// A point light with explicit range.
    pub fn point_with_range(color: RgbaColor, intensity: Scalar, range: Scalar) -> (light: Self)
        ensures
            light == (Light::Point { color, intensity, range }),
    {
        Light::Point { color, intensity, range }
    }

    /// A directional light.
    pub fn directional(color: RgbaColor, intensity: Scalar) -> (light: Self)
        ensures
            light == (Light::Directional { color, intensity }),
    {
        Light::Directional { color, intensity }
    }

    /// A spotlight of infinite range.
    pub fn spot(
        color: RgbaColor,
        intensity: Scalar,
        inner_cone_angle: Scalar,
        outer_cone_angle: Scalar,
    ) -> (light: Self)
        ensures
            light == (Light::Spot {
                color,
                intensity,
                range: ZERO,
                inner_cone_angle,
                outer_cone_angle,
            }),
    {
        Light::Spot { color, intensity, range: ZERO, inner_cone_angle, outer_cone_angle }
    }

    /// A spotlight with explicit range.
    pub fn spot_with_range(
        color: RgbaColor,
        intensity: Scalar,
        range: Scalar,
        inner_cone_angle: Scalar,
        outer_cone_angle: Scalar,
    ) -> (light: Self)
        ensures
            light == (Light::Spot { color, intensity, range, inner_cone_angle, outer_cone_angle }),
    {
        Light::Spot { color, intensity, range, inner_cone_angle, outer_cone_angle }
    }

    /// A hemisphere light.
    pub fn hemisphere(
        sky_color: RgbaColor,
        ground_color: RgbaColor,
        intensity: Scalar,
    ) -> (light: Self)
        ensures
            light == (Light::Hemisphere { sky_color, ground_color, intensity }),
    {
        Light::Hemisphere { sky_color, ground_color, intensity }
    }

    /// Extracts world-space position and direction from a resolved world transform.
    ///
    /// - Position: translation column (W) of the matrix. Relevant for point and spot
    ///   lights.
    /// - Direction: negative Z-axis of the matrix. Relevant for directional and spot
    ///   lights.
    ///
    /// The direction is normalized; falls back to -Z for a degenerate matrix.
    /// `length2` gives the squared length of a vector, `unit` the vector of length one
    /// in the same direction.
    pub fn world_position_and_direction<L: Fn(Vector3) -> Scalar, U: Fn(Vector3) -> Vector3>(
        world_transform: &Matrix4,
        length2: &L,
        unit: &U,
    ) -> (pose: (Vector3, Vector3))
        requires
            definite1(*length2),
            definite1(*unit),
        ensures
            pose.0 == light_position(*world_transform),
            pose.1 == light_direction(*world_transform, value1(*length2), value1(*unit)),
    {
        let position = Vector3 {
            x: world_transform.w.x,
            y: world_transform.w.y,
            z: world_transform.w.z,
        };
        let back = Vector3 {
            x: negate(world_transform.z.x),
            y: negate(world_transform.z.y),
            z: negate(world_transform.z.z),
        };
        let direction = if scalar_lt(ZERO, apply1(length2, back)) {
            apply1(unit, back)
        } else {
            Vector3 { x: ZERO, y: ZERO, z: MINUS_ONE }
        };
        (position, direction)
    }

    /// The type identifier for this light.
    pub fn light_type(&self) -> (kind: LightType)
        ensures
            kind == LightType::Point <==> self is Point,
            kind == LightType::Directional <==> self is Directional,
            kind == LightType::Spot <==> self is Spot,
            kind == LightType::Hemisphere <==> self is Hemisphere,
    {
        match self {
            Light::Point { .. } => LightType::Point,
            Light::Directional { .. } => LightType::Directional,
            Light::Spot { .. } => LightType::Spot,
            Light::Hemisphere { .. } => LightType::Hemisphere,
        }
    }
}

/// What a [`PositionedLight`]'s transform is relative to.
#[derive(Debug, Clone, Copy, PartialEq, Eq, Structural)]
pub enum LightSpace {
    /// World space.
    World,
    /// The pose of the camera the light is rendered with, so the light travels with
    /// the viewpoint.
    Camera,
    /// A scene node's world transform, so the light follows that node through the
    /// hierarchy.
    Node(NodeId),
}

/// A [`Light`] with a pose, in the space named by `space`.
///
/// The transform follows the same conventions everywhere: its translation is the
/// light position and its -Z axis is the light direction.
#[derive(Debug, Clone, Copy, PartialEq, Eq, Structural)]
pub struct PositionedLight {
    pub light: Light,
    pub transform: Transform,
    pub space: LightSpace,
}

impl PositionedLight {
    /// A light posed in world space.
    pub fn world(light: Light, transform: Transform) -> (posed: Self)
        ensures
            posed == (PositionedLight { light, transform, space: LightSpace::World }),
    {
        PositionedLight { light, transform, space: LightSpace::World }
    }

    /// A light posed relative to the camera it is rendered with.
    pub fn camera(light: Light, transform: Transform) -> (posed: Self)
        ensures
            posed == (PositionedLight { light, transform, space: LightSpace::Camera }),
    {
        PositionedLight { light, transform, space: LightSpace::Camera }
    }

    /// A light posed relative to `node`'s world transform.
    pub fn node(node: NodeId, light: Light, transform: Transform) -> (posed: Self)
        ensures
            posed == (PositionedLight { light, transform, space: LightSpace::Node(node) }),
    {
        PositionedLight { light, transform, space: LightSpace::Node(node) }
    }
}

} // verus!
