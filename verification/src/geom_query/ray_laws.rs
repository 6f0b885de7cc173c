//! What searching a mesh along a ray is for: with the index it finds what it would find
//! without, by testing every triangle or segment.

use super::bvh::{is_containment, BoxModel};
use super::spatial_index::{
    hit_of, index_finds_every_hit, index_finds_every_segment, inflated, meets_inflated,
    nearest_is_nearest, MeshSpatialIndex, SegmentApproach, TriangleHit, TriangleMeshHit,
};
use crate::common::{is_nan, scalar_ge_spec, scalar_lt_spec, Aabb, Point3, Scalar};
use crate::resource::mesh::{triangles_are_counted, MeshModel, Segment, Triangle};
use vstd::prelude::*;

verus! {

/// Whether a hit of a mesh is where a ray meets its `k`-th triangle.
pub open spec fn hit_at(
    m: MeshModel,
    k: u32,
    hit: spec_fn(Triangle) -> Option<TriangleHit>,
    h: TriangleMeshHit,
) -> bool {
    &&& m.triangle(k as nat) is Some
    &&& hit(m.triangle(k as nat)->0) matches Some(x) && h.distance == x.distance && h.hit_point
        == x.hit_point && h.barycentric == x.barycentric
    &&& h.triangle_index == k
}

proof fn lemma_hit_at(
    m: MeshModel,
    k: u32,
    hit: spec_fn(Triangle) -> Option<TriangleHit>,
    h: TriangleMeshHit,
)
    ensures
        hit_at(m, k, hit, h) <==> hit_of(m, k, hit) == Some(h),
{
}

/// All hits of a mesh are found, and nothing else: a hit is found if and only if the ray
/// meets a triangle of the mesh there. Provided the ray meets the box of every triangle
/// that it meets, and every box around a box that it meets.
pub proof fn all_hits_are_found(
    index: MeshSpatialIndex,
    m: MeshModel,
    wrap_triangle: spec_fn(Triangle) -> Aabb,
    wrap_segment: spec_fn(Segment) -> Aabb,
    math: BoxModel,
    within: spec_fn(Aabb, Aabb) -> bool,
    entry: spec_fn(Aabb) -> Option<Scalar>,
    hit: spec_fn(Triangle) -> Option<TriangleHit>,
    minus: spec_fn(Scalar, Scalar) -> Scalar,
    plus: spec_fn(Scalar, Scalar) -> Scalar,
    h: TriangleMeshHit,
)
    requires
        index.indexes(m, wrap_triangle, wrap_segment, math),
        m.triangle_count() <= u32::MAX,
        is_containment(within, math.merge),
        forall|a: Aabb, b: Aabb| #[trigger] within(a, b) && entry(a) is Some ==> entry(b) is Some,
        forall|t: Triangle| #[trigger] hit(t) is Some ==> entry(wrap_triangle(t)) is Some,
    ensures
        index.found_hits(m, entry, hit, minus, plus).contains(h) <==> exists|k: u32|
            k < m.triangle_count() && #[trigger] hit_at(m, k, hit, h),
{
    let enter = meets_inflated(entry, 0, minus, plus);
    assert forall|b: Aabb| #[trigger] enter(b) == (entry(b) is Some) by {
        assert(inflated(b, 0, minus, plus) == b);
    }
    assert forall|a: Aabb, b: Aabb| #[trigger] within(a, b) && enter(a) implies enter(b) by {
        assert(enter(a) == (entry(a) is Some));
        assert(enter(b) == (entry(b) is Some));
    }
    assert forall|t: Triangle| #[trigger] hit(t) is Some implies enter(wrap_triangle(t)) by {
        assert(enter(wrap_triangle(t)) == (entry(wrap_triangle(t)) is Some));
    }
    index_finds_every_hit(index, m, wrap_triangle, wrap_segment, math, within, enter, hit, h);
    if index.found_hits(m, entry, hit, minus, plus).contains(h) {
        let k = choose|k: u32| k < m.triangle_count() && #[trigger] hit_of(m, k, hit) == Some(h);
        lemma_hit_at(m, k, hit, h);
        assert(hit_at(m, k, hit, h));
    }
    if exists|k: u32| k < m.triangle_count() && #[trigger] hit_at(m, k, hit, h) {
        let k = choose|k: u32| k < m.triangle_count() && #[trigger] hit_at(m, k, hit, h);
        lemma_hit_at(m, k, hit, h);
        assert(hit_of(m, k, hit) == Some(h));
    }
}

/// The nearest hit is one of the hits of the mesh, and none is nearer; where there is no
/// nearest, no triangle is met at a finite distance. Provided the ray enters every box no
/// later than it meets a triangle in it.
pub proof fn the_nearest_hit_is_found(
    index: MeshSpatialIndex,
    m: MeshModel,
    wrap_triangle: spec_fn(Triangle) -> Aabb,
    wrap_segment: spec_fn(Segment) -> Aabb,
    math: BoxModel,
    within: spec_fn(Aabb, Aabb) -> bool,
    entry: spec_fn(Aabb) -> Option<Scalar>,
    hit: spec_fn(Triangle) -> Option<TriangleHit>,
    k: u32,
)
    requires
        index.indexes(m, wrap_triangle, wrap_segment, math),
        m.triangle_count() <= u32::MAX,
        is_containment(within, math.merge),
        forall|t: Triangle, b: Aabb| #[trigger]
            within(wrap_triangle(t), b) && hit(t) is Some ==> (entry(b) matches Some(e) && !is_nan(e)
                && !scalar_lt_spec(hit(t)->0.distance, e)),
        k < m.triangle_count(),
    ensures
        index.closest_hit(m, entry, hit) matches Some(h) ==> hit_at(m, h.triangle_index, hit, h),
        ({
            let met = hit(m.triangle(k as nat)->0);
            &&& index.closest_hit(m, entry, hit) is Some && met is Some ==> !scalar_lt_spec(
                met->0.distance,
                index.closest_hit(m, entry, hit)->0.distance,
            )
            &&& index.closest_hit(m, entry, hit) is None && met is Some ==> !scalar_lt_spec(
                met->0.distance,
                0x7f80_0000,
            )
        }),
{
    nearest_is_nearest(index, m, wrap_triangle, wrap_segment, math, within, entry, hit, k);
    triangles_are_counted(m, k as nat);
}

/// A box made larger by an amount on all sides.
pub open spec fn widened(
    b: Aabb,
    amount: Scalar,
    minus: spec_fn(Scalar, Scalar) -> Scalar,
    plus: spec_fn(Scalar, Scalar) -> Scalar,
) -> Aabb {
    Aabb {
        min: Point3 {
            x: minus(b.min.x, amount),
            y: minus(b.min.y, amount),
            z: minus(b.min.z, amount),
        },
        max: Point3 {
            x: plus(b.max.x, amount),
            y: plus(b.max.y, amount),
            z: plus(b.max.z, amount),
        },
    }
}

/// Every segment that the ray passes within the tolerance is found, once, and nothing else.
/// Provided the ray meets the widened box of every segment that it passes so, and the
/// widened box around every box whose widened box it meets.
pub proof fn all_near_segments_are_found<D>(
    index: MeshSpatialIndex,
    m: MeshModel,
    wrap_triangle: spec_fn(Triangle) -> Aabb,
    wrap_segment: spec_fn(Segment) -> Aabb,
    math: BoxModel,
    within: spec_fn(Aabb, Aabb) -> bool,
    tolerance: Scalar,
    entry: spec_fn(Aabb) -> Option<Scalar>,
    approach: spec_fn(Segment) -> Option<SegmentApproach<D>>,
    minus: spec_fn(Scalar, Scalar) -> Scalar,
    plus: spec_fn(Scalar, Scalar) -> Scalar,
    k: u32,
    near: SegmentApproach<D>,
)
    requires
        index.indexes(m, wrap_triangle, wrap_segment, math),
        m.segment_count() <= u32::MAX,
        is_containment(within, math.merge),
        tolerance != 0 && tolerance != 0x8000_0000,
        forall|a: Aabb, b: Aabb| #[trigger]
            within(a, b) && entry(widened(a, tolerance, minus, plus)) is Some ==> entry(
                widened(b, tolerance, minus, plus),
            ) is Some,
        forall|s: Segment|
            (#[trigger] approach(s) matches Some(x) && !is_nan(tolerance) && !is_nan(x.distance)
                && !scalar_lt_spec(tolerance, x.distance)) ==> entry(
                widened(wrap_segment(s), tolerance, minus, plus),
            ) is Some,
    ensures
        ({
            let found = index.found_segments(m, tolerance, entry, approach, minus, plus);
            &&& found.contains((k, near)) <==> {
                &&& k < m.segment_count()
                &&& m.segment(k as nat) is Some
                &&& approach(m.segment(k as nat)->0) == Some(near)
                &&& !is_nan(tolerance) && !is_nan(near.distance)
                &&& !scalar_lt_spec(tolerance, near.distance)
            }
            &&& forall|i: int, j: int|
                #![trigger found[i], found[j]]
                0 <= i < j < found.len() ==> found[i].0 != found[j].0
        }),
{
    let enter = meets_inflated(entry, tolerance, minus, plus);
    assert forall|b: Aabb| #[trigger] enter(b) == (entry(
        widened(b, tolerance, minus, plus),
    ) is Some) by {
        assert(inflated(b, tolerance, minus, plus) == widened(b, tolerance, minus, plus));
    }
    assert forall|a: Aabb, b: Aabb| #[trigger] within(a, b) && enter(a) implies enter(b) by {
        assert(enter(a) == (entry(widened(a, tolerance, minus, plus)) is Some));
        assert(enter(b) == (entry(widened(b, tolerance, minus, plus)) is Some));
    }
    assert forall|s: Segment|
        (#[trigger] approach(s) matches Some(x) && scalar_ge_spec(
            tolerance,
            x.distance,
        )) implies enter(wrap_segment(s)) by {
        assert(enter(wrap_segment(s)) == (entry(
            widened(wrap_segment(s), tolerance, minus, plus),
        ) is Some));
    }
    index_finds_every_segment(
        index,
        m,
        wrap_triangle,
        wrap_segment,
        math,
        within,
        enter,
        approach,
        tolerance,
        k,
        near,
    );
}

} // verus!
