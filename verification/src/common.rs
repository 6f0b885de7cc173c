//! Plain values shared by the whole crate.
//!
//! A [`Scalar`] is the bit pattern of an IEEE 754 single-precision number. Every
//! geometric value here is a fixed set of scalars, so values can be stored,
//! copied and compared bit for bit without any floating-point arithmetic.

use vstd::prelude::*;

verus! {

/// The bit pattern of an IEEE 754 single-precision number.
pub type Scalar = u32;

/// The bit pattern of `0.0`.
pub const ZERO: u32 = 0;

/// The bit pattern of `1.0`.
pub const ONE: u32 = 0x3f80_0000;

/// The bit pattern of positive infinity; the patterns between it and the sign
/// bit are the positive not-a-number patterns.
pub const INFINITY: u32 = 0x7f80_0000;

/// The bit pattern of `-0.0`: the sign bit alone.
pub const SIGN_BIT: u32 = 0x8000_0000;

/// The bit pattern of negative infinity; the patterns above it are the negative
/// not-a-number patterns.
pub const NEG_INFINITY: u32 = 0xff80_0000;

/// True of the bit patterns that stand for no number at all.
pub open spec fn is_nan(bits: Scalar) -> bool {
    INFINITY < bits < SIGN_BIT || NEG_INFINITY < bits
}

/// The numeric order of two scalars that are numbers, as an integer key.
///
/// Patterns without the sign bit order as unsigned integers; with the sign bit
/// set they order the other way round and below all of the former. Both zeros
/// share the key 0.
pub open spec fn order_key(bits: Scalar) -> int {
    if bits < SIGN_BIT {
        bits as int
    } else {
        SIGN_BIT as int - bits as int
    }
}

/// `a < b` of the numbers that two scalars stand for. A comparison with a
/// not-a-number pattern is false.
pub open spec fn scalar_lt_spec(a: Scalar, b: Scalar) -> bool {
    !is_nan(a) && !is_nan(b) && order_key(a) < order_key(b)
}

/// Decides `a < b` of the numbers that two scalars stand for.
pub fn scalar_lt(a: Scalar, b: Scalar) -> (less: bool)
    ensures
        less == scalar_lt_spec(a, b),
{
    let a_nan = (INFINITY < a && a < SIGN_BIT) || NEG_INFINITY < a;
    let b_nan = (INFINITY < b && b < SIGN_BIT) || NEG_INFINITY < b;
    if a_nan || b_nan {
        false
    } else if a < SIGN_BIT {
        b < SIGN_BIT && a < b
    } else if b < SIGN_BIT {
        b != 0 || a != SIGN_BIT
    } else {
        b < a
    }
}

/// `a >= b` of the numbers that two scalars stand for. A comparison with a
/// not-a-number pattern is false.
pub open spec fn scalar_ge_spec(a: Scalar, b: Scalar) -> bool {
    !is_nan(a) && !is_nan(b) && order_key(a) >= order_key(b)
}

/// Decides `a >= b` of the numbers that two scalars stand for.
pub fn scalar_ge(a: Scalar, b: Scalar) -> (at_least: bool)
    ensures
        at_least == scalar_ge_spec(a, b),
{
    let a_nan = (INFINITY < a && a < SIGN_BIT) || NEG_INFINITY < a;
    let b_nan = (INFINITY < b && b < SIGN_BIT) || NEG_INFINITY < b;
    !a_nan && !b_nan && !scalar_lt(a, b)
}

/// The larger of the numbers that two scalars stand for; of a number and a pattern that
/// is none, the number.
pub open spec fn scalar_max_spec(a: Scalar, b: Scalar) -> Scalar {
    if is_nan(a) || scalar_lt_spec(a, b) {
        b
    } else {
        a
    }
}

/// The larger of the numbers that two scalars stand for.
pub fn scalar_max(a: Scalar, b: Scalar) -> (larger: Scalar)
    ensures
        larger == scalar_max_spec(a, b),
{
    let a_nan = (INFINITY < a && a < SIGN_BIT) || NEG_INFINITY < a;
    if a_nan || scalar_lt(a, b) {
        b
    } else {
        a
    }
}

/// The larger of two scalars is one of them, and neither is above it.
pub proof fn scalar_max_is_largest(a: Scalar, b: Scalar)
    ensures
        scalar_max_spec(a, b) == a || scalar_max_spec(a, b) == b,
        !scalar_lt_spec(scalar_max_spec(a, b), a),
        !scalar_lt_spec(scalar_max_spec(a, b), b),
        !is_nan(a) || !is_nan(b) ==> !is_nan(scalar_max_spec(a, b)),
{
}

/// The place of a bit pattern in the total order of all bit patterns: negative ones
/// before positive ones, each ordered by magnitude, with the not-a-number patterns
/// at the ends and `-0.0` before `0.0`.
pub open spec fn total_key_spec(bits: Scalar) -> u32 {
    if bits < SIGN_BIT {
        (bits + SIGN_BIT) as u32
    } else {
        (u32::MAX - bits) as u32
    }
}

/// The place of a bit pattern in the total order of all bit patterns.
pub fn total_key(bits: Scalar) -> (key: u32)
    ensures
        key == total_key_spec(bits),
{
    if bits < SIGN_BIT {
        bits + SIGN_BIT
    } else {
        u32::MAX - bits
    }
}

/// The total order refines the numeric one.
pub proof fn total_order_refines(a: Scalar, b: Scalar)
    ensures
        scalar_lt_spec(a, b) ==> total_key_spec(a) < total_key_spec(b),
        total_key_spec(a) == total_key_spec(b) ==> a == b,
{
}

/// The order of scalars is irreflexive, transitive and asymmetric.
pub proof fn scalar_order_is_strict(a: Scalar, b: Scalar, c: Scalar)
    ensures
        !scalar_lt_spec(a, a),
        scalar_lt_spec(a, b) && scalar_lt_spec(b, c) ==> scalar_lt_spec(a, c),
        !(scalar_lt_spec(a, b) && scalar_lt_spec(b, a)),
{
}

/// The bit pattern of the number with the opposite sign.
pub open spec fn negated(bits: Scalar) -> Scalar {
    if bits < SIGN_BIT {
        (bits + SIGN_BIT) as u32
    } else {
        (bits - SIGN_BIT) as u32
    }
}

/// The bit pattern of the number with the opposite sign.
pub fn negate(bits: Scalar) -> (opposite: Scalar)
    ensures
        opposite == negated(bits),
{
    if bits < SIGN_BIT {
        bits + SIGN_BIT
    } else {
        bits - SIGN_BIT
    }
}

/// Negating twice changes nothing.
pub proof fn negation_undoes_itself(bits: Scalar)
    ensures
        negated(negated(bits)) == bits,
{
}

/// Negating two numbers turns their order round, and the two zeros are one number.
pub proof fn negation_turns_the_order_round(a: Scalar, b: Scalar)
    ensures
        scalar_lt_spec(a, b) <==> scalar_lt_spec(negated(b), negated(a)),
        scalar_lt_spec(ZERO, a) ==> scalar_lt_spec(negated(a), a),
        !scalar_lt_spec(negated(ZERO), ZERO),
        !scalar_lt_spec(ZERO, negated(ZERO)),
        scalar_ge_spec(a, b) <==> !is_nan(a) && !is_nan(b) && !scalar_lt_spec(a, b),
{
}

/// A point in space.
#[derive(Clone, Copy, Debug, PartialEq, Eq, Structural)]
pub struct Point3 {
    pub x: Scalar,
    pub y: Scalar,
    pub z: Scalar,
}

/// A direction or a scale along the three axes.
#[derive(Clone, Copy, Debug, PartialEq, Eq, Structural)]
pub struct Vector3 {
    pub x: Scalar,
    pub y: Scalar,
    pub z: Scalar,
}

/// A column of a [`Matrix4`].
#[derive(Clone, Copy, Debug, PartialEq, Eq, Structural)]
pub struct Vector4 {
    pub x: Scalar,
    pub y: Scalar,
    pub z: Scalar,
    pub w: Scalar,
}

/// A rotation: scalar part `s`, vector part `v`.
#[derive(Clone, Copy, Debug, PartialEq, Eq, Structural)]
pub struct Quaternion {
    pub s: Scalar,
    pub v: Vector3,
}

/// A column-major 4x4 matrix.
#[derive(Clone, Copy, Debug, PartialEq, Eq, Structural)]
pub struct Matrix4 {
    pub x: Vector4,
    pub y: Vector4,
    pub z: Vector4,
    pub w: Vector4,
}

/// The identity matrix.
pub open spec fn identity_matrix() -> Matrix4 {
    Matrix4 {
        x: Vector4 { x: ONE, y: ZERO, z: ZERO, w: ZERO },
        y: Vector4 { x: ZERO, y: ONE, z: ZERO, w: ZERO },
        z: Vector4 { x: ZERO, y: ZERO, z: ONE, w: ZERO },
        w: Vector4 { x: ZERO, y: ZERO, z: ZERO, w: ONE },
    }
}

impl Matrix4 {
    /// The identity matrix.
    pub fn identity() -> (m: Self)
        ensures
            m == identity_matrix(),
    {
        Matrix4 {
            x: Vector4 { x: ONE, y: ZERO, z: ZERO, w: ZERO },
            y: Vector4 { x: ZERO, y: ONE, z: ZERO, w: ZERO },
            z: Vector4 { x: ZERO, y: ZERO, z: ONE, w: ZERO },
            w: Vector4 { x: ZERO, y: ZERO, z: ZERO, w: ONE },
        }
    }
}

/// A column-major 3x3 matrix.
#[derive(Clone, Copy, Debug, PartialEq, Eq, Structural)]
pub struct Matrix3 {
    pub x: Vector3,
    pub y: Vector3,
    pub z: Vector3,
}

/// A local pose: scale first, then rotation, then translation.
#[derive(Clone, Copy, Debug, PartialEq, Eq, Structural)]
pub struct Transform {
    pub position: Point3,
    pub rotation: Quaternion,
    pub scale: Vector3,
}

/// The transform that changes nothing.
pub open spec fn identity_transform() -> Transform {
    Transform {
        position: Point3 { x: ZERO, y: ZERO, z: ZERO },
        rotation: Quaternion { s: ONE, v: Vector3 { x: ZERO, y: ZERO, z: ZERO } },
        scale: Vector3 { x: ONE, y: ONE, z: ONE },
    }
}

impl Transform {
    /// The transform that changes nothing.
    pub fn identity() -> (t: Self)
        ensures
            t == identity_transform(),
    {
        Transform {
            position: Point3 { x: ZERO, y: ZERO, z: ZERO },
            rotation: Quaternion { s: ONE, v: Vector3 { x: ZERO, y: ZERO, z: ZERO } },
            scale: Vector3 { x: ONE, y: ONE, z: ONE },
        }
    }

    /// A pure translation.
    pub fn from_position(position: Point3) -> (t: Self)
        ensures
            t == (Transform { position, ..identity_transform() }),
    {
        let mut t = Transform::identity();
        t.position = position;
        t
    }
}

/// An axis-aligned bounding box.
#[derive(Clone, Copy, Debug, PartialEq, Eq, Structural)]
pub struct Aabb {
    pub min: Point3,
    pub max: Point3,
}

/// A color with an alpha channel.
#[derive(Clone, Copy, Debug, PartialEq, Eq, Structural)]
pub struct RgbaColor {
    pub r: Scalar,
    pub g: Scalar,
    pub b: Scalar,
    pub a: Scalar,
}

impl RgbaColor {
    /// Opaque white.
    pub fn white() -> (c: Self)
        ensures
            c == (RgbaColor { r: ONE, g: ONE, b: ONE, a: ONE }),
    {
        RgbaColor { r: ONE, g: ONE, b: ONE, a: ONE }
    }

    /// Opaque black.
    pub fn black() -> (c: Self)
        ensures
            c == (RgbaColor { r: ZERO, g: ZERO, b: ZERO, a: ONE }),
    {
        RgbaColor { r: ZERO, g: ZERO, b: ZERO, a: ONE }
    }
}

/// The identity has ones on its diagonal and zeros elsewhere, and the transform that changes
/// nothing neither moves, turns nor scales.
pub proof fn identities_change_nothing()
    ensures
        ({
            let m = identity_matrix();
            let one = 0x3f80_0000u32;
            &&& m.x.x == one && m.x.y == 0 && m.x.z == 0 && m.x.w == 0
            &&& m.y.x == 0 && m.y.y == one && m.y.z == 0 && m.y.w == 0
            &&& m.z.x == 0 && m.z.y == 0 && m.z.z == one && m.z.w == 0
            &&& m.w.x == 0 && m.w.y == 0 && m.w.z == 0 && m.w.w == one
        }),
        ({
            let t = identity_transform();
            let one = 0x3f80_0000u32;
            &&& t.position == (Point3 { x: 0, y: 0, z: 0 })
            &&& t.rotation.s == one && t.rotation.v == (Vector3 { x: 0, y: 0, z: 0 })
            &&& t.scale == (Vector3 { x: one, y: one, z: one })
        }),
{
}

} // verus!
