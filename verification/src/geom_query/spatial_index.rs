//! Per-mesh spatial acceleration: hierarchies over a mesh's triangles and line
//! segments.

use super::bvh::{
    all_named, is_containment, lemma_prims_distinct, tree_at, traversal_misses_nothing,
    traversal_visits_each_once, visited, BoxMath, BoxModel, FlatBvh, LEAF_SIZE,
};
use crate::common::{
    is_nan, order_key, scalar_ge, scalar_ge_spec, scalar_lt, scalar_lt_spec, Aabb, Point3, Scalar,
    Vector3, INFINITY, SIGN_BIT, ZERO,
};
use crate::numeric::{apply1, apply2, definite1, definite2, value1, value2};
use crate::resource::mesh::{
    segments_are_counted, triangles_are_counted, Mesh, MeshModel, Segment, Triangle,
};
use vstd::prelude::*;

verus! {

/// Where a ray meets a triangle.
#[derive(Debug, Clone, Copy, PartialEq, Eq, Structural)]
pub struct TriangleHit {
    /// Distance along the ray.
    pub distance: Scalar,
    pub hit_point: Point3,
    /// The weights of the three corners.
    pub barycentric: Vector3,
}

/// Where a ray meets a triangle of a mesh.
#[derive(Debug, Clone, Copy, PartialEq, Eq, Structural)]
pub struct TriangleMeshHit {
    /// Distance along the ray.
    pub distance: Scalar,
    pub hit_point: Point3,
    /// The index into the mesh's triangles.
    pub triangle_index: u32,
    /// The weights of the three corners.
    pub barycentric: Vector3,
}

/// Spatial index over one mesh's primitives: one flat hierarchy for triangles and one
/// for line segments. Primitive indices match the order of [`Mesh::triangle`] and
/// [`Mesh::segment`].
#[derive(Debug)]
pub struct MeshSpatialIndex {
    pub triangles: FlatBvh,
    pub segments: FlatBvh,
}

/// The boxes of the triangles of a mesh.
pub open spec fn triangle_boxes(m: MeshModel, wrap: spec_fn(Triangle) -> Aabb) -> Seq<Aabb> {
    Seq::new(m.triangle_count(), |k: int| wrap(m.triangle(k as nat)->0))
}

/// The boxes of the segments of a mesh.
pub open spec fn segment_boxes(m: MeshModel, wrap: spec_fn(Segment) -> Aabb) -> Seq<Aabb> {
    Seq::new(m.segment_count(), |k: int| wrap(m.segment(k as nat)->0))
}

/// One triangle hit of a mesh.
pub open spec fn mesh_hit(index: u32, hit: TriangleHit) -> TriangleMeshHit {
    TriangleMeshHit {
        distance: hit.distance,
        hit_point: hit.hit_point,
        triangle_index: index,
        barycentric: hit.barycentric,
    }
}

/// Where the ray meets the triangle of the given index, if it does.
pub open spec fn hit_of(
    m: MeshModel,
    index: u32,
    hit: spec_fn(Triangle) -> Option<TriangleHit>,
) -> Option<TriangleMeshHit> {
    match m.triangle(index as nat) {
        None => None,
        Some(t) => match hit(t) {
            None => None,
            Some(h) => Some(mesh_hit(index, h)),
        },
    }
}

/// The hits among the given triangles, in order.
pub open spec fn hits_among(
    m: MeshModel,
    indices: Seq<u32>,
    hit: spec_fn(Triangle) -> Option<TriangleHit>,
) -> Seq<TriangleMeshHit>
    decreases indices.len(),
{
    if indices.len() == 0 {
        Seq::empty()
    } else {
        let front = hits_among(m, indices.drop_last(), hit);
        match hit_of(m, indices.last(), hit) {
            None => front,
            Some(h) => front.push(h),
        }
    }
}

/// The distance that a closer hit has to beat.
pub open spec fn distance_of(best: Option<TriangleMeshHit>) -> Scalar {
    match best {
        None => INFINITY,
        Some(h) => h.distance,
    }
}

/// The closer of the best hit so far and a new one.
pub open spec fn closer(
    best: Option<TriangleMeshHit>,
    new: Option<TriangleMeshHit>,
) -> Option<TriangleMeshHit> {
    match new {
        Some(h) if scalar_lt_spec(h.distance, distance_of(best)) => Some(h),
        _ => best,
    }
}

/// The closest of the best hit so far and the hits among the given triangles.
pub open spec fn closest_among(
    m: MeshModel,
    indices: Seq<u32>,
    hit: spec_fn(Triangle) -> Option<TriangleHit>,
    best: Option<TriangleMeshHit>,
) -> Option<TriangleMeshHit>
    decreases indices.len(),
{
    if indices.len() == 0 {
        best
    } else {
        closer(
            closest_among(m, indices.drop_last(), hit, best),
            hit_of(m, indices.last(), hit),
        )
    }
}

/// What a search for the closest hit finds below a node: nothing new when the ray
/// misses the node's box or enters it no closer than the best hit so far.
pub open spec fn closest_below(
    bvh: FlatBvh,
    m: MeshModel,
    i: int,
    start: int,
    len: int,
    entry: spec_fn(Aabb) -> Option<Scalar>,
    hit: spec_fn(Triangle) -> Option<TriangleHit>,
    best: Option<TriangleMeshHit>,
) -> Option<TriangleMeshHit>
    decreases len,
{
    let enters = match entry(bvh.nodes@[i].aabb) {
        None => false,
        Some(e) => scalar_lt_spec(e, distance_of(best)),
    };
    if !enters || len <= 0 {
        best
    } else if len <= LEAF_SIZE {
        closest_among(m, bvh.prims@.subrange(start, start + len), hit, best)
    } else {
        let left = closest_below(bvh, m, i + 1, start, len / 2, entry, hit, best);
        closest_below(
            bvh,
            m,
            bvh.nodes@[i].index as int,
            start + len / 2,
            len - len / 2,
            entry,
            hit,
            left,
        )
    }
}

/// A box inflated on all sides. Inflating by zero changes nothing.
pub open spec fn inflated(
    aabb: Aabb,
    amount: Scalar,
    minus: spec_fn(Scalar, Scalar) -> Scalar,
    plus: spec_fn(Scalar, Scalar) -> Scalar,
) -> Aabb {
    if amount == ZERO || amount == SIGN_BIT {
        aabb
    } else {
        Aabb {
            min: Point3 {
                x: minus(aabb.min.x, amount),
                y: minus(aabb.min.y, amount),
                z: minus(aabb.min.z, amount),
            },
            max: Point3 {
                x: plus(aabb.max.x, amount),
                y: plus(aabb.max.y, amount),
                z: plus(aabb.max.z, amount),
            },
        }
    }
}

/// Whether the ray meets a box that is inflated by the tolerance.
pub open spec fn meets_inflated(
    entry: spec_fn(Aabb) -> Option<Scalar>,
    tolerance: Scalar,
    minus: spec_fn(Scalar, Scalar) -> Scalar,
    plus: spec_fn(Scalar, Scalar) -> Scalar,
) -> spec_fn(Aabb) -> bool {
    |b: Aabb| entry(inflated(b, tolerance, minus, plus)) is Some
}

/// How close a ray comes to a segment, with what else the caller wants to know.
#[derive(Debug)]
pub struct SegmentApproach<D> {
    pub distance: Scalar,
    pub detail: D,
}

/// The approaches within the tolerance among the given segments, in order, each with
/// the index of its segment.
pub open spec fn approaches_among<D>(
    m: MeshModel,
    indices: Seq<u32>,
    approach: spec_fn(Segment) -> Option<SegmentApproach<D>>,
    tolerance: Scalar,
) -> Seq<(u32, SegmentApproach<D>)>
    decreases indices.len(),
{
    if indices.len() == 0 {
        Seq::empty()
    } else {
        let front = approaches_among(m, indices.drop_last(), approach, tolerance);
        match m.segment(indices.last() as nat) {
            None => front,
            Some(s) => match approach(s) {
                Some(a) if scalar_ge_spec(tolerance, a.distance) => front.push(
                    (indices.last(), a),
                ),
                _ => front,
            },
        }
    }
}

/// Inflates a box on all sides.
fn inflate<S: Fn(Scalar, Scalar) -> Scalar, A: Fn(Scalar, Scalar) -> Scalar>(
    aabb: &Aabb,
    amount: Scalar,
    minus: &S,
    plus: &A,
) -> (wide: Aabb)
    requires
        definite2(*minus),
        definite2(*plus),
    ensures
        wide == inflated(*aabb, amount, value2(*minus), value2(*plus)),
{
    if amount == ZERO || amount == SIGN_BIT {
        return *aabb;
    }
    Aabb {
        min: Point3 {
            x: apply2(minus, aabb.min.x, amount),
            y: apply2(minus, aabb.min.y, amount),
            z: apply2(minus, aabb.min.z, amount),
        },
        max: Point3 {
            x: apply2(plus, aabb.max.x, amount),
            y: apply2(plus, aabb.max.y, amount),
            z: apply2(plus, aabb.max.z, amount),
        },
    }
}

impl FlatBvh {
    /// Visits every leaf primitive in subtrees whose inflated box the ray hits,
    /// appending them to `out`.
    fn traverse<
        E: Fn(Aabb) -> Option<Scalar>,
        S: Fn(Scalar, Scalar) -> Scalar,
        A: Fn(Scalar, Scalar) -> Scalar,
    >(
        &self,
        i: usize,
        tolerance: Scalar,
        entry: &E,
        minus: &S,
        plus: &A,
        out: &mut Vec<u32>,
        Ghost(over): Ghost<(Seq<Aabb>, BoxModel)>,
        Ghost(range): Ghost<(int, int, int)>,
    )
        requires
            definite1(*entry),
            definite2(*minus),
            definite2(*plus),
            tree_at(
                self.nodes@,
                self.prims@,
                over.0,
                over.1,
                i as int,
                range.0,
                range.1,
                range.2,
            ),
        ensures
            final(out)@ == old(out)@ + visited(
                self.nodes@,
                self.prims@,
                i as int,
                range.0,
                range.1,
                meets_inflated(value1(*entry), tolerance, value2(*minus), value2(*plus)),
            ),
        decreases range.1,
    {
        let ghost start = out@;
        let ghost enter = meets_inflated(
            value1(*entry),
            tolerance,
            value2(*minus),
            value2(*plus),
        );
        let node = self.nodes[i];
        let wide = inflate(&node.aabb, tolerance, minus, plus);
        if apply1(entry, wide).is_none() {
            proof {
                assert(out@ =~= start + Seq::<u32>::empty());
            }
            return ;
        }
        if node.count > 0 {
            proof {
                assert(range.1 <= LEAF_SIZE);
            }
            let from: usize = node.index as usize;
            let n: usize = node.count as usize;
            let ghost all = self.prims@.subrange(range.0, range.0 + range.1);
            let mut k: usize = 0;
            proof {
                assert(start + all.take(0) =~= start);
            }
            while k < n
                invariant
                    k <= n,
                    n == range.1,
                    from == range.0,
                    from + n <= self.prims.len(),
                    all == self.prims@.subrange(range.0, range.0 + range.1),
                    out@ == start + all.take(k as int),
                decreases n - k,
            {
                out.push(self.prims[from + k]);
                proof {
                    assert(all.take(k + 1) =~= all.take(k as int).push(all[k as int]));
                    assert(out@ =~= start + all.take(k + 1));
                }
                k = k + 1;
            }
            proof {
                assert(all.take(n as int) =~= all);
            }
        } else {
            let ghost mid = range.1 / 2;
            let right: usize = node.index as usize;
            proof {
                if range.1 <= LEAF_SIZE {
                    assert(node.count == range.1);
                }
                assert(tree_at(
                    self.nodes@,
                    self.prims@,
                    over.0,
                    over.1,
                    i + 1,
                    range.0,
                    mid,
                    right as int,
                ));
                assert(i + 1 < self.nodes.len());
                assert(tree_at(
                    self.nodes@,
                    self.prims@,
                    over.0,
                    over.1,
                    right as int,
                    range.0 + mid,
                    range.1 - mid,
                    range.2,
                ));
            }
            self.traverse(
                i + 1,
                tolerance,
                entry,
                minus,
                plus,
                out,
                Ghost(over),
                Ghost((range.0, mid, right as int)),
            );
            self.traverse(
                right,
                tolerance,
                entry,
                minus,
                plus,
                out,
                Ghost(over),
                Ghost((range.0 + mid, range.1 - mid, range.2)),
            );
            proof {
                let a = visited(self.nodes@, self.prims@, i + 1, range.0, mid, enter);
                let b = visited(
                    self.nodes@,
                    self.prims@,
                    right as int,
                    range.0 + mid,
                    range.1 - mid,
                    enter,
                );
                assert(start + a + b =~= start + (a + b));
            }
        }
    }

    /// The primitives whose subtrees the ray can meet within the tolerance.
    fn reach<
        E: Fn(Aabb) -> Option<Scalar>,
        S: Fn(Scalar, Scalar) -> Scalar,
        A: Fn(Scalar, Scalar) -> Scalar,
    >(
        &self,
        tolerance: Scalar,
        entry: &E,
        minus: &S,
        plus: &A,
        Ghost(over): Ghost<(Seq<Aabb>, BoxModel)>,
    ) -> (found: Vec<u32>)
        requires
            definite1(*entry),
            definite2(*minus),
            definite2(*plus),
            self.built_over(over.0, over.1),
        ensures
            found@ == self.candidates(
                meets_inflated(value1(*entry), tolerance, value2(*minus), value2(*plus)),
            ),
    {
        let mut found: Vec<u32> = Vec::new();
        if self.nodes.len() > 0 {
            self.traverse(
                0,
                tolerance,
                entry,
                minus,
                plus,
                &mut found,
                Ghost(over),
                Ghost((0int, self.prims.len() as int, self.nodes.len() as int)),
            );
            proof {
                let enter = meets_inflated(
                    value1(*entry),
                    tolerance,
                    value2(*minus),
                    value2(*plus),
                );
                assert(found@ =~= visited(
                    self.nodes@,
                    self.prims@,
                    0,
                    0,
                    self.prims.len() as int,
                    enter,
                ));
            }
        }
        found
    }

    /// The closest hit below a node.
    fn nearest<E: Fn(Aabb) -> Option<Scalar>, H: Fn(Triangle) -> Option<TriangleHit>>(
        &self,
        mesh: &Mesh,
        i: usize,
        entry: &E,
        hit: &H,
        best: Option<TriangleMeshHit>,
        Ghost(over): Ghost<(Seq<Aabb>, BoxModel)>,
        Ghost(range): Ghost<(int, int, int)>,
    ) -> (found: Option<TriangleMeshHit>)
        requires
            definite1(*entry),
            definite1(*hit),
            mesh@.indices_valid(),
            tree_at(
                self.nodes@,
                self.prims@,
                over.0,
                over.1,
                i as int,
                range.0,
                range.1,
                range.2,
            ),
        ensures
            found == closest_below(
                *self,
                mesh@,
                i as int,
                range.0,
                range.1,
                value1(*entry),
                value1(*hit),
                best,
            ),
        decreases range.1,
    {
        let node = self.nodes[i];
        let limit = match best {
            None => INFINITY,
            Some(h) => h.distance,
        };
        match apply1(entry, node.aabb) {
            None => {
                return best;
            },
            Some(e) => {
                if !scalar_lt(e, limit) {
                    return best;
                }
            },
        }
        if node.count > 0 {
            proof {
                assert(range.1 <= LEAF_SIZE);
            }
            let from: usize = node.index as usize;
            let n: usize = node.count as usize;
            let ghost all = self.prims@.subrange(range.0, range.0 + range.1);
            let mut best = best;
            let ghost given = best;
            let mut k: usize = 0;
            proof {
                assert(all.take(0) =~= Seq::empty());
            }
            while k < n
                invariant
                    k <= n,
                    n == range.1,
                    from == range.0,
                    from + n <= self.prims.len(),
                    definite1(*hit),
                    mesh@.indices_valid(),
                    all == self.prims@.subrange(range.0, range.0 + range.1),
                    best == closest_among(mesh@, all.take(k as int), value1(*hit), given),
                decreases n - k,
            {
                let index: u32 = self.prims[from + k];
                proof {
                    let next = all.take(k + 1);
                    assert(next.drop_last() =~= all.take(k as int));
                    assert(next.last() == index);
                }
                if let Some(t) = mesh.triangle(index as usize) {
                    if let Some(h) = apply1(hit, t) {
                        let limit = match best {
                            None => INFINITY,
                            Some(b) => b.distance,
                        };
                        if scalar_lt(h.distance, limit) {
                            best = Some(
                                TriangleMeshHit {
                                    distance: h.distance,
                                    hit_point: h.hit_point,
                                    triangle_index: index,
                                    barycentric: h.barycentric,
                                },
                            );
                        }
                    }
                }
                k = k + 1;
            }
            proof {
                assert(all.take(n as int) =~= all);
            }
            best
        } else {
            let ghost mid = range.1 / 2;
            let right: usize = node.index as usize;
            proof {
                if range.1 <= LEAF_SIZE {
                    assert(node.count == range.1);
                }
                assert(tree_at(
                    self.nodes@,
                    self.prims@,
                    over.0,
                    over.1,
                    i + 1,
                    range.0,
                    mid,
                    right as int,
                ));
                assert(i + 1 < self.nodes.len());
                assert(tree_at(
                    self.nodes@,
                    self.prims@,
                    over.0,
                    over.1,
                    right as int,
                    range.0 + mid,
                    range.1 - mid,
                    range.2,
                ));
            }
            let left = self.nearest(
                mesh,
                i + 1,
                entry,
                hit,
                best,
                Ghost(over),
                Ghost((range.0, mid, right as int)),
            );
            self.nearest(
                mesh,
                right,
                entry,
                hit,
                left,
                Ghost(over),
                Ghost((range.0 + mid, range.1 - mid, range.2)),
            )
        }
    }
}

impl MeshSpatialIndex {
    /// Whether this is an index over the primitives of a mesh.
    pub open spec fn indexes(
        &self,
        m: MeshModel,
        wrap_triangle: spec_fn(Triangle) -> Aabb,
        wrap_segment: spec_fn(Segment) -> Aabb,
        math: BoxModel,
    ) -> bool {
        &&& self.triangles.built_over(triangle_boxes(m, wrap_triangle), math)
        &&& self.segments.built_over(segment_boxes(m, wrap_segment), math)
    }

    /// Whether this is an index over the primitives of a mesh, whatever boxes they
    /// have.
    pub open spec fn fits(&self, m: MeshModel) -> bool {
        exists|t: spec_fn(Triangle) -> Aabb, s: spec_fn(Segment) -> Aabb, b: BoxModel| #[trigger]
            self.indexes(m, t, s, b)
    }

    /// Builds the index for a mesh.
    pub fn build<
        T: Fn(Triangle) -> Aabb,
        G: Fn(Segment) -> Aabb,
        M: Fn(Aabb, Aabb) -> Aabb,
        C: Fn(Aabb) -> Point3,
        X: Fn(Aabb, Point3) -> Aabb,
        S: Fn(Aabb) -> Vector3,
    >(
        mesh: &Mesh,
        wrap_triangle: &T,
        wrap_segment: &G,
        math: &BoxMath<M, C, X, S>,
    ) -> (index: Self)
        requires
            mesh@.indices_valid(),
            mesh@.triangle_count() <= u32::MAX,
            mesh@.segment_count() <= u32::MAX,
            definite1(*wrap_triangle),
            definite1(*wrap_segment),
            math.definite(),
        ensures
            index.indexes(mesh@, value1(*wrap_triangle), value1(*wrap_segment), math.model()),
    {
        let ghost m = mesh@;
        let ghost tb = triangle_boxes(m, value1(*wrap_triangle));
        let ghost sb = segment_boxes(m, value1(*wrap_segment));
        let mut triangles: Vec<Aabb> = Vec::new();
        let mut done = false;
        while !done
            invariant
                m == mesh@,
                m.indices_valid(),
                m.triangle_count() <= u32::MAX,
                definite1(*wrap_triangle),
                tb == triangle_boxes(m, value1(*wrap_triangle)),
                triangles.len() <= tb.len(),
                triangles@ == tb.take(triangles.len() as int),
                done ==> triangles.len() == tb.len(),
            decreases m.triangle_count() - triangles.len() + (if done { 0int } else { 1int }),
        {
            let k: usize = triangles.len();
            proof {
                triangles_are_counted(m, k as nat);
            }
            match mesh.triangle(k) {
                Some(t) => {
                    triangles.push(apply1(wrap_triangle, t));
                    proof {
                        assert(tb.take(k + 1) =~= tb.take(k as int).push(tb[k as int]));
                    }
                },
                None => {
                    done = true;
                },
            }
        }
        let mut segments: Vec<Aabb> = Vec::new();
        let mut done = false;
        while !done
            invariant
                m == mesh@,
                m.indices_valid(),
                m.segment_count() <= u32::MAX,
                definite1(*wrap_segment),
                sb == segment_boxes(m, value1(*wrap_segment)),
                segments.len() <= sb.len(),
                segments@ == sb.take(segments.len() as int),
                done ==> segments.len() == sb.len(),
            decreases m.segment_count() - segments.len() + (if done { 0int } else { 1int }),
        {
            let k: usize = segments.len();
            proof {
                segments_are_counted(m, k as nat);
            }
            match mesh.segment(k) {
                Some(s) => {
                    segments.push(apply1(wrap_segment, s));
                    proof {
                        assert(sb.take(k + 1) =~= sb.take(k as int).push(sb[k as int]));
                    }
                },
                None => {
                    done = true;
                },
            }
        }
        proof {
            assert(tb.take(tb.len() as int) =~= tb);
            assert(sb.take(sb.len() as int) =~= sb);
        }
        MeshSpatialIndex {
            triangles: FlatBvh::build(&triangles, math),
            segments: FlatBvh::build(&segments, math),
        }
    }

    /// The nearest intersection of a ray and a triangle. `entry` says where the ray
    /// enters a box, `hit` where it meets a triangle, both in local mesh space.
    pub fn nearest_triangle<
        E: Fn(Aabb) -> Option<Scalar>,
        H: Fn(Triangle) -> Option<TriangleHit>,
    >(&self, mesh: &Mesh, entry: &E, hit: &H) -> (found: Option<TriangleMeshHit>)
        requires
            mesh@.indices_valid(),
            self.fits(mesh@),
            definite1(*entry),
            definite1(*hit),
        ensures
            found == self.closest_hit(mesh@, value1(*entry), value1(*hit)),
    {
        let ghost (t, s, b) = choose|
            t: spec_fn(Triangle) -> Aabb,
            s: spec_fn(Segment) -> Aabb,
            b: BoxModel,
        | #[trigger] self.indexes(mesh@, t, s, b);
        if self.triangles.nodes.len() == 0 {
            return None;
        }
        self.triangles.nearest(
            mesh,
            0,
            entry,
            hit,
            None,
            Ghost((triangle_boxes(mesh@, t), b)),
            Ghost((0int, self.triangles.prims.len() as int, self.triangles.nodes.len() as int)),
        )
    }

    /// What a search for the closest hit finds.
    pub open spec fn closest_hit(
        &self,
        m: MeshModel,
        entry: spec_fn(Aabb) -> Option<Scalar>,
        hit: spec_fn(Triangle) -> Option<TriangleHit>,
    ) -> Option<TriangleMeshHit> {
        if self.triangles.nodes.len() == 0 {
            None
        } else {
            closest_below(
                self.triangles,
                m,
                0,
                0,
                self.triangles.prims.len() as int,
                entry,
                hit,
                None,
            )
        }
    }

    /// The hits that a search finds: those of the triangles that it visits.
    pub open spec fn found_hits(
        &self,
        m: MeshModel,
        entry: spec_fn(Aabb) -> Option<Scalar>,
        hit: spec_fn(Triangle) -> Option<TriangleHit>,
        minus: spec_fn(Scalar, Scalar) -> Scalar,
        plus: spec_fn(Scalar, Scalar) -> Scalar,
    ) -> Seq<TriangleMeshHit> {
        hits_among(
            m,
            self.triangles.candidates(meets_inflated(entry, ZERO, minus, plus)),
            hit,
        )
    }

    /// The approaches that a search finds: those of the segments that it visits.
    pub open spec fn found_segments<D>(
        &self,
        m: MeshModel,
        tolerance: Scalar,
        entry: spec_fn(Aabb) -> Option<Scalar>,
        approach: spec_fn(Segment) -> Option<SegmentApproach<D>>,
        minus: spec_fn(Scalar, Scalar) -> Scalar,
        plus: spec_fn(Scalar, Scalar) -> Scalar,
    ) -> Seq<(u32, SegmentApproach<D>)> {
        approaches_among(
            m,
            self.segments.candidates(meets_inflated(entry, tolerance, minus, plus)),
            approach,
            tolerance,
        )
    }

    /// Appends every intersection of a ray and a triangle to `out`, skipping subtrees
    /// the ray misses. `entry` says where the ray enters a box, `hit` where it meets a
    /// triangle, both in local mesh space.
    pub fn all_triangle_hits<
        E: Fn(Aabb) -> Option<Scalar>,
        H: Fn(Triangle) -> Option<TriangleHit>,
        S: Fn(Scalar, Scalar) -> Scalar,
        A: Fn(Scalar, Scalar) -> Scalar,
    >(
        &self,
        mesh: &Mesh,
        entry: &E,
        hit: &H,
        minus: &S,
        plus: &A,
        out: &mut Vec<TriangleMeshHit>,
    )
        requires
            mesh@.indices_valid(),
            self.fits(mesh@),
            definite1(*entry),
            definite1(*hit),
            definite2(*minus),
            definite2(*plus),
        ensures
            final(out)@ == old(out)@ + self.found_hits(
                mesh@,
                value1(*entry),
                value1(*hit),
                value2(*minus),
                value2(*plus),
            ),
    {
        let ghost (t, s, b) = choose|
            t: spec_fn(Triangle) -> Aabb,
            s: spec_fn(Segment) -> Aabb,
            b: BoxModel,
        | #[trigger] self.indexes(mesh@, t, s, b);
        let ghost start = out@;
        let found = self.triangles.reach(
            ZERO,
            entry,
            minus,
            plus,
            Ghost((triangle_boxes(mesh@, t), b)),
        );
        let mut k: usize = 0;
        proof {
            assert(found@.take(0) =~= Seq::empty());
            assert(start + hits_among(mesh@, found@.take(0), value1(*hit)) =~= start);
        }
        while k < found.len()
            invariant
                k <= found.len(),
                mesh@.indices_valid(),
                definite1(*hit),
                out@ == start + hits_among(mesh@, found@.take(k as int), value1(*hit)),
            decreases found.len() - k,
        {
            let index: u32 = found[k];
            proof {
                let next = found@.take(k + 1);
                assert(next.drop_last() =~= found@.take(k as int));
                assert(next.last() == index);
            }
            if let Some(t) = mesh.triangle(index as usize) {
                if let Some(h) = apply1(hit, t) {
                    out.push(
                        TriangleMeshHit {
                            distance: h.distance,
                            hit_point: h.hit_point,
                            triangle_index: index,
                            barycentric: h.barycentric,
                        },
                    );
                }
            }
            proof {
                assert(out@ =~= start + hits_among(mesh@, found@.take(k + 1), value1(*hit)));
            }
            k = k + 1;
        }
        proof {
            assert(found@.take(found.len() as int) =~= found@);
        }
    }

    /// Every segment whose closest approach to the ray is within `tolerance`, with
    /// that approach. `entry` says where the ray enters a box, `approach` how close it
    /// comes to a segment, both in local mesh space.
    pub fn for_each_segment_within<
        D,
        E: Fn(Aabb) -> Option<Scalar>,
        P: Fn(Segment) -> Option<SegmentApproach<D>>,
        S: Fn(Scalar, Scalar) -> Scalar,
        A: Fn(Scalar, Scalar) -> Scalar,
    >(
        &self,
        mesh: &Mesh,
        tolerance: Scalar,
        entry: &E,
        approach: &P,
        minus: &S,
        plus: &A,
    ) -> (found: Vec<(u32, SegmentApproach<D>)>)
        requires
            mesh@.indices_valid(),
            self.fits(mesh@),
            definite1(*entry),
            definite1(*approach),
            definite2(*minus),
            definite2(*plus),
        ensures
            found@ == self.found_segments(
                mesh@,
                tolerance,
                value1(*entry),
                value1(*approach),
                value2(*minus),
                value2(*plus),
            ),
    {
        let ghost (t, s, b) = choose|
            t: spec_fn(Triangle) -> Aabb,
            s: spec_fn(Segment) -> Aabb,
            b: BoxModel,
        | #[trigger] self.indexes(mesh@, t, s, b);
        let indices = self.segments.reach(
            tolerance,
            entry,
            minus,
            plus,
            Ghost((segment_boxes(mesh@, s), b)),
        );
        let mut found: Vec<(u32, SegmentApproach<D>)> = Vec::new();
        let mut k: usize = 0;
        proof {
            assert(indices@.take(0) =~= Seq::empty());
        }
        while k < indices.len()
            invariant
                k <= indices.len(),
                mesh@.indices_valid(),
                definite1(*approach),
                found@ == approaches_among(
                    mesh@,
                    indices@.take(k as int),
                    value1(*approach),
                    tolerance,
                ),
            decreases indices.len() - k,
        {
            let index: u32 = indices[k];
            proof {
                let next = indices@.take(k + 1);
                assert(next.drop_last() =~= indices@.take(k as int));
                assert(next.last() == index);
            }
            if let Some(segment) = mesh.segment(index as usize) {
                if let Some(a) = apply1(approach, segment) {
                    if scalar_ge(tolerance, a.distance) {
                        found.push((index, a));
                    }
                }
            }
            k = k + 1;
        }
        proof {
            assert(indices@.take(indices.len() as int) =~= indices@);
        }
        found
    }
}

/// A hit among some triangles is listed, and what is listed is a hit.
proof fn lemma_hits_among(
    m: MeshModel,
    indices: Seq<u32>,
    hit: spec_fn(Triangle) -> Option<TriangleHit>,
    h: TriangleMeshHit,
)
    ensures
        hits_among(m, indices, hit).contains(h) <==> exists|k: int|
            0 <= k < indices.len() && hit_of(m, #[trigger] indices[k], hit) == Some(h),
    decreases indices.len(),
{
    let all = hits_among(m, indices, hit);
    if indices.len() > 0 {
        let shorter = indices.drop_last();
        let front = hits_among(m, shorter, hit);
        lemma_hits_among(m, shorter, hit, h);
        if all.contains(h) {
            let y = choose|y: int| 0 <= y < all.len() && all[y] == h;
            if y < front.len() {
                assert(front[y] == h);
                assert(front.contains(h));
                let k = choose|k: int|
                    0 <= k < shorter.len() && hit_of(m, #[trigger] shorter[k], hit) == Some(h);
                assert(indices[k] == shorter[k]);
            } else {
                assert(hit_of(m, indices[indices.len() - 1], hit) == Some(h));
            }
        }
        if exists|k: int|
            0 <= k < indices.len() && hit_of(m, #[trigger] indices[k], hit) == Some(h) {
            let k = choose|k: int|
                0 <= k < indices.len() && hit_of(m, #[trigger] indices[k], hit) == Some(h);
            if k < shorter.len() {
                assert(shorter[k] == indices[k]);
                assert(front.contains(h));
                let y = choose|y: int| 0 <= y < front.len() && front[y] == h;
                assert(all[y] == h);
            } else {
                assert(all[front.len() as int] == h);
            }
        }
    }
}

/// Searching through the index finds exactly the hits that testing every triangle
/// finds, provided the ray meets the box of every triangle that it meets, and every
/// box around a box that it meets.
pub proof fn index_finds_every_hit(
    index: MeshSpatialIndex,
    m: MeshModel,
    wrap_triangle: spec_fn(Triangle) -> Aabb,
    wrap_segment: spec_fn(Segment) -> Aabb,
    math: BoxModel,
    within: spec_fn(Aabb, Aabb) -> bool,
    enter: spec_fn(Aabb) -> bool,
    hit: spec_fn(Triangle) -> Option<TriangleHit>,
    h: TriangleMeshHit,
)
    requires
        index.indexes(m, wrap_triangle, wrap_segment, math),
        m.triangle_count() <= u32::MAX,
        is_containment(within, math.merge),
        forall|a: Aabb, b: Aabb| #[trigger] within(a, b) && enter(a) ==> enter(b),
        forall|t: Triangle| #[trigger] hit(t) is Some ==> enter(wrap_triangle(t)),
    ensures
        hits_among(m, index.triangles.candidates(enter), hit).contains(h) <==> exists|k: u32|
            k < m.triangle_count() && #[trigger] hit_of(m, k, hit) == Some(h),
{
    let seen = index.triangles.candidates(enter);
    let boxes = triangle_boxes(m, wrap_triangle);
    lemma_hits_among(m, seen, hit, h);
    traversal_visits_each_once(index.triangles, boxes, math, enter);
    if hits_among(m, seen, hit).contains(h) {
        let k = choose|k: int|
            0 <= k < seen.len() && hit_of(m, #[trigger] seen[k], hit) == Some(h);
        assert(seen[k] < boxes.len());
        assert(hit_of(m, seen[k], hit) == Some(h));
    }
    if exists|k: u32| k < m.triangle_count() && #[trigger] hit_of(m, k, hit) == Some(h) {
        let k = choose|k: u32| k < m.triangle_count() && #[trigger] hit_of(m, k, hit) == Some(h);
        let t = m.triangle(k as nat)->0;
        assert(hit(t) is Some);
        assert(boxes[k as int] == wrap_triangle(t));
        traversal_misses_nothing(index.triangles, boxes, math, within, enter, k);
        assert(seen.contains(k));
        let y = choose|y: int| 0 <= y < seen.len() && seen[y] == k;
        assert(hit_of(m, seen[y], hit) == Some(h));
    }
}

/// How close a ray comes to a segment of a mesh, when that is within the tolerance.
pub open spec fn approach_of<D>(
    m: MeshModel,
    index: u32,
    approach: spec_fn(Segment) -> Option<SegmentApproach<D>>,
    tolerance: Scalar,
) -> Option<SegmentApproach<D>> {
    match m.segment(index as nat) {
        None => None,
        Some(s) => match approach(s) {
            Some(a) if scalar_ge_spec(tolerance, a.distance) => Some(a),
            _ => None,
        },
    }
}

/// What is listed of some segments is each approach within the tolerance, and where no
/// segment is named twice, none is listed twice.
proof fn lemma_approaches_among<D>(
    m: MeshModel,
    indices: Seq<u32>,
    approach: spec_fn(Segment) -> Option<SegmentApproach<D>>,
    tolerance: Scalar,
)
    ensures
        forall|k: u32, a: SegmentApproach<D>| #[trigger]
            approaches_among(m, indices, approach, tolerance).contains((k, a)) <==> indices.contains(
                k,
            ) && approach_of(m, k, approach, tolerance) == Some(a),
        indices.no_duplicates() ==> forall|i: int, j: int|
            #![trigger approaches_among(m, indices, approach, tolerance)[i], approaches_among(m, indices, approach, tolerance)[j]]
            0 <= i < j < approaches_among(m, indices, approach, tolerance).len()
                ==> approaches_among(m, indices, approach, tolerance)[i].0 != approaches_among(
                m,
                indices,
                approach,
                tolerance,
            )[j].0,
    decreases indices.len(),
{
    let all = approaches_among(m, indices, approach, tolerance);
    if indices.len() > 0 {
        let shorter = indices.drop_last();
        let last = indices.last();
        let front = approaches_among(m, shorter, approach, tolerance);
        lemma_approaches_among(m, shorter, approach, tolerance);
        let found = approach_of(m, last, approach, tolerance);
        assert(all == (match found {
            Some(a) => front.push((last, a)),
            None => front,
        }));
        assert forall|k: u32| #[trigger] indices.contains(k) <==> shorter.contains(k) || k
            == last by {
            if shorter.contains(k) {
                let i = choose|i: int| 0 <= i < shorter.len() && shorter[i] == k;
                assert(indices[i] == k);
            }
            assert(indices[indices.len() - 1] == last);
            if indices.contains(k) && k != last {
                let i = choose|i: int| 0 <= i < indices.len() && indices[i] == k;
                assert(shorter[i] == k);
            }
        }
        assert forall|k: u32, a: SegmentApproach<D>| #[trigger]
            all.contains((k, a)) <==> indices.contains(k) && approach_of(m, k, approach, tolerance)
                == Some(a) by {
            if all.contains((k, a)) {
                let y = choose|y: int| 0 <= y < all.len() && all[y] == (k, a);
                if y < front.len() {
                    assert(front[y] == (k, a));
                    assert(front.contains((k, a)));
                }
            }
            if front.contains((k, a)) {
                let y = choose|y: int| 0 <= y < front.len() && front[y] == (k, a);
                assert(all[y] == (k, a));
            }
            if k == last && found == Some(a) {
                assert(all[front.len() as int] == (k, a));
            }
        }
        if indices.no_duplicates() {
            assert forall|i: int, j: int| 0 <= i < j < shorter.len() implies shorter[i]
                != shorter[j] by {
                assert(indices[i] != indices[j]);
            }
            assert(!shorter.contains(last)) by {
                if shorter.contains(last) {
                    let i = choose|i: int| 0 <= i < shorter.len() && shorter[i] == last;
                    assert(indices[i] != indices[indices.len() - 1]);
                }
            }
            assert forall|i: int, j: int|
                #![trigger all[i], all[j]]
                0 <= i < j < all.len() implies all[i].0 != all[j].0 by {
                assert(all[i] == front[i]);
                if j < front.len() {
                    assert(all[j] == front[j]);
                } else {
                    assert(front.contains((front[i].0, front[i].1)));
                }
            }
        }
    }
}

/// Searching through the index finds exactly the segments that the ray passes within the
/// tolerance, each once, provided the ray meets the inflated box of every segment that it
/// passes so, and every inflated box around a box whose inflation it meets.
pub proof fn index_finds_every_segment<D>(
    index: MeshSpatialIndex,
    m: MeshModel,
    wrap_triangle: spec_fn(Triangle) -> Aabb,
    wrap_segment: spec_fn(Segment) -> Aabb,
    math: BoxModel,
    within: spec_fn(Aabb, Aabb) -> bool,
    enter: spec_fn(Aabb) -> bool,
    approach: spec_fn(Segment) -> Option<SegmentApproach<D>>,
    tolerance: Scalar,
    k: u32,
    a: SegmentApproach<D>,
)
    requires
        index.indexes(m, wrap_triangle, wrap_segment, math),
        m.segment_count() <= u32::MAX,
        is_containment(within, math.merge),
        forall|x: Aabb, y: Aabb| #[trigger] within(x, y) && enter(x) ==> enter(y),
        forall|s: Segment|
            (#[trigger] approach(s) matches Some(near) && scalar_ge_spec(tolerance, near.distance))
                ==> enter(wrap_segment(s)),
    ensures
        approaches_among(m, index.segments.candidates(enter), approach, tolerance).contains((k, a))
            <==> k < m.segment_count() && approach_of(m, k, approach, tolerance) == Some(a),
        forall|i: int, j: int|
            #![trigger approaches_among(m, index.segments.candidates(enter), approach, tolerance)[i], approaches_among(m, index.segments.candidates(enter), approach, tolerance)[j]]
            0 <= i < j < approaches_among(
                m,
                index.segments.candidates(enter),
                approach,
                tolerance,
            ).len() ==> approaches_among(
                m,
                index.segments.candidates(enter),
                approach,
                tolerance,
            )[i].0 != approaches_among(
                m,
                index.segments.candidates(enter),
                approach,
                tolerance,
            )[j].0,
{
    let seen = index.segments.candidates(enter);
    let boxes = segment_boxes(m, wrap_segment);
    lemma_approaches_among(m, seen, approach, tolerance);
    traversal_visits_each_once(index.segments, boxes, math, enter);
    if seen.contains(k) {
        let y = choose|y: int| 0 <= y < seen.len() && seen[y] == k;
        assert(seen[y] < boxes.len());
    }
    if k < m.segment_count() && approach_of(m, k, approach, tolerance) == Some(a) {
        let s = m.segment(k as nat)->0;
        assert(approach(s) is Some);
        assert(boxes[k as int] == wrap_segment(s));
        traversal_misses_nothing(index.segments, boxes, math, within, enter, k);
    }
}

/// Whether a hit is no closer than another distance.
pub open spec fn no_closer(
    m: MeshModel,
    index: u32,
    hit: spec_fn(Triangle) -> Option<TriangleHit>,
    limit: Scalar,
) -> bool {
    hit_of(m, index, hit) matches Some(h) ==> !scalar_lt_spec(h.distance, limit)
}

/// Whether a hit is one of the mesh, at a distance that is a number.
pub open spec fn is_hit(
    m: MeshModel,
    hit: spec_fn(Triangle) -> Option<TriangleHit>,
    best: Option<TriangleMeshHit>,
) -> bool {
    best matches Some(h) ==> hit_of(m, h.triangle_index, hit) == Some(h) && !is_nan(h.distance)
}

proof fn lemma_closest_among(
    m: MeshModel,
    indices: Seq<u32>,
    hit: spec_fn(Triangle) -> Option<TriangleHit>,
    best: Option<TriangleMeshHit>,
)
    requires
        is_hit(m, hit, best),
    ensures
        is_hit(m, hit, closest_among(m, indices, hit, best)),
        order_key(distance_of(closest_among(m, indices, hit, best))) <= order_key(
            distance_of(best),
        ),
        forall|k: int|
            0 <= k < indices.len() ==> no_closer(
                m,
                #[trigger] indices[k],
                hit,
                distance_of(closest_among(m, indices, hit, best)),
            ),
    decreases indices.len(),
{
    if indices.len() > 0 {
        let shorter = indices.drop_last();
        lemma_closest_among(m, shorter, hit, best);
        let front = closest_among(m, shorter, hit, best);
        let now = closest_among(m, indices, hit, best);
        assert forall|k: int| 0 <= k < indices.len() implies no_closer(
            m,
            #[trigger] indices[k],
            hit,
            distance_of(now),
        ) by {
            if k < shorter.len() {
                assert(shorter[k] == indices[k]);
                assert(no_closer(m, shorter[k], hit, distance_of(front)));
            }
        }
    }
}

/// Whether boxes are entered no later than the triangles in them are hit.
pub open spec fn enters_first(
    m: MeshModel,
    wrap_triangle: spec_fn(Triangle) -> Aabb,
    within: spec_fn(Aabb, Aabb) -> bool,
    entry: spec_fn(Aabb) -> Option<Scalar>,
    hit: spec_fn(Triangle) -> Option<TriangleHit>,
) -> bool {
    forall|t: Triangle, b: Aabb| #[trigger]
        within(wrap_triangle(t), b) && hit(t) is Some ==> (entry(b) matches Some(e) && !is_nan(e)
            && !scalar_lt_spec(hit(t)->0.distance, e))
}

proof fn lemma_closest_below(
    index: MeshSpatialIndex,
    m: MeshModel,
    wrap_triangle: spec_fn(Triangle) -> Aabb,
    math: BoxModel,
    within: spec_fn(Aabb, Aabb) -> bool,
    entry: spec_fn(Aabb) -> Option<Scalar>,
    hit: spec_fn(Triangle) -> Option<TriangleHit>,
    i: int,
    start: int,
    len: int,
    end: int,
    best: Option<TriangleMeshHit>,
)
    requires
        tree_at(
            index.triangles.nodes@,
            index.triangles.prims@,
            triangle_boxes(m, wrap_triangle),
            math,
            i,
            start,
            len,
            end,
        ),
        all_named(index.triangles.prims@, m.triangle_count()),
        is_containment(within, math.merge),
        enters_first(m, wrap_triangle, within, entry, hit),
        is_hit(m, hit, best),
    ensures
        is_hit(
            m,
            hit,
            closest_below(index.triangles, m, i, start, len, entry, hit, best),
        ),
        order_key(
            distance_of(closest_below(index.triangles, m, i, start, len, entry, hit, best)),
        ) <= order_key(distance_of(best)),
        forall|k: int|
            start <= k < start + len ==> no_closer(
                m,
                #[trigger] index.triangles.prims@[k],
                hit,
                distance_of(closest_below(index.triangles, m, i, start, len, entry, hit, best)),
            ),
    decreases len,
{
    let bvh = index.triangles;
    let nodes = bvh.nodes@;
    let prims = bvh.prims@;
    let boxes = triangle_boxes(m, wrap_triangle);
    let found = closest_below(bvh, m, i, start, len, entry, hit, best);
    let enters = match entry(nodes[i].aabb) {
        None => false,
        Some(e) => scalar_lt_spec(e, distance_of(best)),
    };
    if !enters {
        assert forall|k: int| start <= k < start + len implies no_closer(
            m,
            #[trigger] prims[k],
            hit,
            distance_of(found),
        ) by {
            assert(prims[k] < m.triangle_count());
            triangles_are_counted(m, prims[k] as nat);
            let t = m.triangle(prims[k] as nat)->0;
            assert(boxes[prims[k] as int] == wrap_triangle(t));
            super::bvh::lemma_node_contains(
                nodes,
                prims,
                boxes,
                math,
                i,
                start,
                len,
                end,
                within,
                k,
            );
            assert(within(wrap_triangle(t), nodes[i].aabb));
        }
    } else if len <= LEAF_SIZE {
        let range = prims.subrange(start, start + len);
        lemma_closest_among(m, range, hit, best);
        assert forall|k: int| start <= k < start + len implies no_closer(
            m,
            #[trigger] prims[k],
            hit,
            distance_of(found),
        ) by {
            assert(range[k - start] == prims[k]);
        }
    } else {
        let mid = len / 2;
        let r = nodes[i].index as int;
        let left = closest_below(bvh, m, i + 1, start, mid, entry, hit, best);
        lemma_closest_below(
            index,
            m,
            wrap_triangle,
            math,
            within,
            entry,
            hit,
            i + 1,
            start,
            mid,
            r,
            best,
        );
        lemma_closest_below(
            index,
            m,
            wrap_triangle,
            math,
            within,
            entry,
            hit,
            r,
            start + mid,
            len - mid,
            end,
            left,
        );
        assert forall|k: int| start <= k < start + len implies no_closer(
            m,
            #[trigger] prims[k],
            hit,
            distance_of(found),
        ) by {
            if k < start + mid {
                assert(no_closer(m, prims[k], hit, distance_of(left)));
            }
        }
    }
}

/// The nearest triangle that the index finds is one that the ray meets, and no
/// triangle is met closer; without one, no triangle is met at a finite distance.
/// Provided the ray enters a box no later than it meets a triangle in it.
pub proof fn nearest_is_nearest(
    index: MeshSpatialIndex,
    m: MeshModel,
    wrap_triangle: spec_fn(Triangle) -> Aabb,
    wrap_segment: spec_fn(Segment) -> Aabb,
    math: BoxModel,
    within: spec_fn(Aabb, Aabb) -> bool,
    entry: spec_fn(Aabb) -> Option<Scalar>,
    hit: spec_fn(Triangle) -> Option<TriangleHit>,
    k: u32,
)
    requires
        index.indexes(m, wrap_triangle, wrap_segment, math),
        m.triangle_count() <= u32::MAX,
        is_containment(within, math.merge),
        enters_first(m, wrap_triangle, within, entry, hit),
        k < m.triangle_count(),
    ensures
        index.closest_hit(m, entry, hit) matches Some(h) ==> hit_of(m, h.triangle_index, hit)
            == Some(h),
        no_closer(m, k, hit, distance_of(index.closest_hit(m, entry, hit))),
{
    let boxes = triangle_boxes(m, wrap_triangle);
    let bvh = index.triangles;
    lemma_prims_distinct(bvh, boxes, math);
    lemma_closest_below(
        index,
        m,
        wrap_triangle,
        math,
        within,
        entry,
        hit,
        0,
        0,
        bvh.prims.len() as int,
        bvh.nodes.len() as int,
        None,
    );
    super::bvh::lemma_prims_complete(bvh, boxes, math, k);
    let y = choose|y: int| 0 <= y < bvh.prims@.len() && bvh.prims@[y] == k;
    assert(no_closer(m, bvh.prims@[y], hit, distance_of(index.closest_hit(m, entry, hit))));
}

} // verus!
