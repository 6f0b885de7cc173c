//! A flat bounding volume hierarchy over boxes.

use crate::common::{
    is_nan, scalar_ge, scalar_ge_spec, scalar_lt_spec, total_key, total_key_spec,
};
use crate::common::{Aabb, Point3, Scalar, Vector3};
use crate::numeric::{apply1, apply2, definite1, definite2, value1, value2};
use vstd::prelude::*;
use vstd::seq_lib::*;

verus! {

/// Primitives per leaf. Small enough that a leaf test is a handful of
/// intersections, large enough to keep the tree shallow.
pub const LEAF_SIZE: usize = 8;

/// One node of a [`FlatBvh`], in depth-first preorder.
#[derive(Debug, Clone, Copy, PartialEq, Eq, Structural)]
pub struct BvhNode {
    pub aabb: Aabb,
    /// Leaf (`count > 0`): start of this leaf's range in the primitives.
    /// Internal (`count == 0`): index of the right child (left child is the next
    /// node).
    pub index: u32,
    pub count: u32,
}

/// A flat hierarchy over primitive bounding boxes. Leaves reference ranges of the
/// primitives, which are reordered by the build.
#[derive(Debug)]
pub struct FlatBvh {
    pub nodes: Vec<BvhNode>,
    pub prims: Vec<u32>,
}

/// The arithmetic that a build needs, as functions.
pub struct BoxMath<M, C, X, S> {
    /// The box around two boxes.
    pub merge: M,
    /// The center of a box.
    pub center: C,
    /// The box around a box and a point.
    pub expand: X,
    /// The extent of a box along the three axes.
    pub size: S,
}

/// What the functions of a [`BoxMath`] compute.
pub struct BoxModel {
    pub merge: spec_fn(Aabb, Aabb) -> Aabb,
    pub center: spec_fn(Aabb) -> Point3,
    pub expand: spec_fn(Aabb, Point3) -> Aabb,
    pub size: spec_fn(Aabb) -> Vector3,
}

impl<
    M: Fn(Aabb, Aabb) -> Aabb,
    C: Fn(Aabb) -> Point3,
    X: Fn(Aabb, Point3) -> Aabb,
    S: Fn(Aabb) -> Vector3,
> BoxMath<M, C, X, S> {
    /// Every function accepts every argument and is a function of it.
    pub open spec fn definite(&self) -> bool {
        &&& definite2(self.merge)
        &&& definite1(self.center)
        &&& definite2(self.expand)
        &&& definite1(self.size)
    }

    /// What the functions compute.
    pub open spec fn model(&self) -> BoxModel {
        BoxModel {
            merge: value2(self.merge),
            center: value1(self.center),
            expand: value2(self.expand),
            size: value1(self.size),
        }
    }
}

/// The box around the given primitives, merged in order.
pub open spec fn box_of(bounds: Seq<Aabb>, order: Seq<u32>, math: BoxModel) -> Aabb
    decreases order.len(),
{
    if order.len() <= 1 {
        bounds[order[0] as int]
    } else {
        (math.merge)(box_of(bounds, order.drop_last(), math), bounds[order.last() as int])
    }
}

/// The box around the centers of the given primitives, expanded in order.
pub open spec fn center_box(bounds: Seq<Aabb>, order: Seq<u32>, math: BoxModel) -> Aabb
    decreases order.len(),
{
    if order.len() <= 1 {
        let c = (math.center)(bounds[order[0] as int]);
        Aabb { min: c, max: c }
    } else {
        (math.expand)(
            center_box(bounds, order.drop_last(), math),
            (math.center)(bounds[order.last() as int]),
        )
    }
}

/// The axis along which an extent is longest; the first of several.
pub open spec fn longest_axis(size: Vector3) -> int {
    if scalar_ge_spec(size.x, size.y) && scalar_ge_spec(size.x, size.z) {
        0
    } else if scalar_ge_spec(size.y, size.z) {
        1
    } else {
        2
    }
}

/// Along no axis is an extent longer than along the one that is taken.
pub proof fn the_longest_axis_is_longest(size: Vector3)
    requires
        !is_nan(size.x),
        !is_nan(size.y),
        !is_nan(size.z),
    ensures
        ({
            let longest = if longest_axis(size) == 0 {
                size.x
            } else if longest_axis(size) == 1 {
                size.y
            } else {
                size.z
            };
            &&& 0 <= longest_axis(size) < 3
            &&& !scalar_lt_spec(longest, size.x)
            &&& !scalar_lt_spec(longest, size.y)
            &&& !scalar_lt_spec(longest, size.z)
        }),
{
}

/// One coordinate of a point.
pub open spec fn coordinate(p: Point3, axis: int) -> Scalar {
    if axis == 0 {
        p.x
    } else if axis == 1 {
        p.y
    } else {
        p.z
    }
}

/// Where a primitive stands along an axis.
pub open spec fn center_key(bounds: Seq<Aabb>, prim: u32, axis: int, math: BoxModel) -> u32 {
    total_key_spec(coordinate((math.center)(bounds[prim as int]), axis))
}

/// Whether two lists hold the same primitives, in any order.
pub open spec fn same_prims(a: Seq<u32>, b: Seq<u32>) -> bool {
    a.to_multiset() == b.to_multiset()
}

/// Whether a box is the box around the given primitives, merged in some order.
pub open spec fn is_box_of(aabb: Aabb, bounds: Seq<Aabb>, prims: Seq<u32>, math: BoxModel) -> bool {
    exists|order: Seq<u32>| #[trigger]
        same_prims(order, prims) && aabb == box_of(bounds, order, math)
}

/// Whether two lists are the halves of a split along the longest axis of the centers:
/// nothing on the left stands beyond anything on the right.
pub open spec fn is_split(
    bounds: Seq<Aabb>,
    left: Seq<u32>,
    right: Seq<u32>,
    math: BoxModel,
) -> bool {
    exists|order: Seq<u32>| #[trigger]
        same_prims(order, left + right) && separated(
            bounds,
            left,
            right,
            longest_axis((math.size)(center_box(bounds, order, math))),
            math,
        )
}

/// Whether nothing on the left stands beyond anything on the right.
pub open spec fn separated(
    bounds: Seq<Aabb>,
    left: Seq<u32>,
    right: Seq<u32>,
    axis: int,
    math: BoxModel,
) -> bool {
    forall|i: int, j: int|
        #![trigger left[i], right[j]]
        0 <= i < left.len() && 0 <= j < right.len() ==> center_key(bounds, left[i], axis, math)
            <= center_key(bounds, right[j], axis, math)
}

/// Whether the nodes from `i` up to `end` are the hierarchy over the `len` primitives
/// from `start` on: a leaf for few, and else two hierarchies over the halves of a
/// split.
pub open spec fn tree_at(
    nodes: Seq<BvhNode>,
    prims: Seq<u32>,
    bounds: Seq<Aabb>,
    math: BoxModel,
    i: int,
    start: int,
    len: int,
    end: int,
) -> bool
    decreases len,
{
    &&& 0 <= i < end <= nodes.len()
    &&& 0 <= start
    &&& 0 < len
    &&& start + len <= prims.len()
    &&& is_box_of(nodes[i].aabb, bounds, prims.subrange(start, start + len), math)
    &&& if len <= LEAF_SIZE {
        nodes[i].count == len && nodes[i].index == start && end == i + 1
    } else {
        &&& nodes[i].count == 0
        &&& is_split(
            bounds,
            prims.subrange(start, start + len / 2),
            prims.subrange(start + len / 2, start + len),
            math,
        )
        &&& tree_at(
            nodes,
            prims,
            bounds,
            math,
            i + 1,
            start,
            len / 2,
            nodes[i].index as int,
        )
        &&& tree_at(
            nodes,
            prims,
            bounds,
            math,
            nodes[i].index as int,
            start + len / 2,
            len - len / 2,
            end,
        )
    }
}

/// The primitives in their natural order.
pub open spec fn natural(n: nat) -> Seq<u32> {
    Seq::new(n, |i: int| i as u32)
}

impl FlatBvh {
    /// Whether this is a hierarchy over the given boxes.
    pub open spec fn built_over(&self, bounds: Seq<Aabb>, math: BoxModel) -> bool {
        &&& same_prims(self.prims@, natural(bounds.len()))
        &&& self.prims.len() == bounds.len()
        &&& bounds.len() == 0 ==> self.nodes.len() == 0
        &&& bounds.len() > 0 ==> tree_at(
            self.nodes@,
            self.prims@,
            bounds,
            math,
            0,
            0,
            bounds.len() as int,
            self.nodes.len() as int,
        )
    }
}

/// The lexicographic order of pairs.
pub open spec fn pair_le(a: (u32, u32), b: (u32, u32)) -> bool {
    a.0 < b.0 || (a.0 == b.0 && a.1 <= b.1)
}

/// Calls `select_nth_unstable` of a slice of pairs: the pairs are reordered so that
/// the one at `mid` is where sorting would put it, those before it are at most as
/// large and those behind it at least as large. Pairs compare lexicographically.
#[verifier::external_body]
fn select_nth(items: &mut Vec<(u32, u32)>, mid: usize)
    requires
        mid < old(items).len(),
    ensures
        final(items)@.to_multiset() == old(items)@.to_multiset(),
        final(items).len() == old(items).len(),
        forall|i: int|
            0 <= i < mid ==> pair_le(#[trigger] final(items)@[i], final(items)@[mid as int]),
        forall|i: int|
            mid < i < final(items).len() ==> pair_le(
                final(items)@[mid as int],
                #[trigger] final(items)@[i],
            ),
{
    items.select_nth_unstable(mid);
}

/// Reordering keeps what a function makes of the elements, up to reordering.
proof fn lemma_map_multiset<A, B>(s: Seq<A>, t: Seq<A>, f: spec_fn(A) -> B)
    requires
        s.to_multiset() == t.to_multiset(),
    ensures
        s.map_values(f).to_multiset() == t.map_values(f).to_multiset(),
    decreases s.len(),
{
    broadcast use group_to_multiset_ensures;

    assert(s.len() == s.to_multiset().len());
    assert(t.len() == t.to_multiset().len());
    if s.len() == 0 {
        assert(s.map_values(f) =~= t.map_values(f));
    } else {
        let x = s.last();
        assert(s.contains(x));
        assert(t.to_multiset().count(x) > 0);
        assert(t.contains(x));
        let i = choose|i: int| 0 <= i < t.len() && t[i] == x;
        let s2 = s.remove(s.len() - 1);
        let t2 = t.remove(i);
        assert(s2.to_multiset() == s.to_multiset().remove(x));
        assert(t2.to_multiset() == t.to_multiset().remove(x));
        lemma_map_multiset(s2, t2, f);
        assert(s.map_values(f) =~= s2.map_values(f).push(f(x)));
        assert(t.map_values(f) =~= t2.map_values(f).insert(i, f(x)));
    }
}

/// Reordering keeps the length and what is listed.
proof fn lemma_same_prims(a: Seq<u32>, b: Seq<u32>)
    requires
        same_prims(a, b),
    ensures
        a.len() == b.len(),
        forall|x: u32| #[trigger] a.contains(x) <==> b.contains(x),
{
    broadcast use group_to_multiset_ensures;

    assert(a.len() == a.to_multiset().len());
    assert(b.len() == b.to_multiset().len());
    assert forall|x: u32| #[trigger] a.contains(x) <==> b.contains(x) by {
        assert(a.contains(x) <==> a.to_multiset().count(x) > 0);
        assert(b.contains(x) <==> b.to_multiset().count(x) > 0);
    }
}

/// Reordering two parts reorders the whole.
proof fn lemma_same_parts(a: Seq<u32>, b: Seq<u32>, c: Seq<u32>, d: Seq<u32>)
    requires
        same_prims(a, c),
        same_prims(b, d),
    ensures
        same_prims(a + b, c + d),
{
    lemma_multiset_commutative(a, b);
    lemma_multiset_commutative(c, d);
}

/// A split stays one when the halves are reordered.
proof fn lemma_split_reordered(
    bounds: Seq<Aabb>,
    left: Seq<u32>,
    right: Seq<u32>,
    l2: Seq<u32>,
    r2: Seq<u32>,
    math: BoxModel,
)
    requires
        is_split(bounds, left, right, math),
        same_prims(left, l2),
        same_prims(right, r2),
    ensures
        is_split(bounds, l2, r2, math),
{
    let order = choose|order: Seq<u32>| #[trigger]
        same_prims(order, left + right) && separated(
            bounds,
            left,
            right,
            longest_axis((math.size)(center_box(bounds, order, math))),
            math,
        );
    let axis = longest_axis((math.size)(center_box(bounds, order, math)));
    lemma_same_parts(left, right, l2, r2);
    lemma_same_prims(left, l2);
    lemma_same_prims(right, r2);
    assert(separated(bounds, l2, r2, axis, math)) by {
        assert forall|i: int, j: int|
            #![trigger l2[i], r2[j]]
            0 <= i < l2.len() && 0 <= j < r2.len() implies center_key(bounds, l2[i], axis, math)
            <= center_key(bounds, r2[j], axis, math) by {
            assert(l2.contains(l2[i]));
            assert(r2.contains(r2[j]));
            assert(left.contains(l2[i]));
            assert(right.contains(r2[j]));
            let x = choose|x: int| 0 <= x < left.len() && left[x] == l2[i];
            let y = choose|y: int| 0 <= y < right.len() && right[y] == r2[j];
            assert(center_key(bounds, left[x], axis, math) <= center_key(
                bounds,
                right[y],
                axis,
                math,
            ));
        }
    }
    assert(same_prims(order, l2 + r2));
}

/// A hierarchy depends only on its own nodes and its own range of primitives.
proof fn lemma_tree_frame(
    nodes: Seq<BvhNode>,
    prims: Seq<u32>,
    bounds: Seq<Aabb>,
    math: BoxModel,
    i: int,
    start: int,
    len: int,
    end: int,
    nodes2: Seq<BvhNode>,
    prims2: Seq<u32>,
)
    requires
        tree_at(nodes, prims, bounds, math, i, start, len, end),
        end <= nodes2.len(),
        prims2.len() == prims.len(),
        forall|k: int| i <= k < end ==> #[trigger] nodes2[k] == nodes[k],
        forall|k: int| start <= k < start + len ==> #[trigger] prims2[k] == prims[k],
    ensures
        tree_at(nodes2, prims2, bounds, math, i, start, len, end),
    decreases len,
{
    assert(nodes2[i] == nodes[i]);
    assert(prims2.subrange(start, start + len) =~= prims.subrange(start, start + len));
    if len > LEAF_SIZE {
        assert(prims2.subrange(start, start + len / 2) =~= prims.subrange(start, start + len / 2));
        assert(prims2.subrange(start + len / 2, start + len) =~= prims.subrange(
            start + len / 2,
            start + len,
        ));
        let r = nodes[i].index as int;
        assert(tree_at(nodes, prims, bounds, math, i + 1, start, len / 2, r));
        assert(tree_at(nodes, prims, bounds, math, r, start + len / 2, len - len / 2, end));
        lemma_tree_frame(
            nodes,
            prims,
            bounds,
            math,
            i + 1,
            start,
            len / 2,
            r,
            nodes2,
            prims2,
        );
        lemma_tree_frame(
            nodes,
            prims,
            bounds,
            math,
            r,
            start + len / 2,
            len - len / 2,
            end,
            nodes2,
            prims2,
        );
    }
}

/// Whether a list names boxes only.
pub open spec fn all_named(prims: Seq<u32>, n: nat) -> bool {
    forall|i: int| 0 <= i < prims.len() ==> (#[trigger] prims[i]) < n
}

/// The box around the primitives of a range.
fn range_box<
    M: Fn(Aabb, Aabb) -> Aabb,
    C: Fn(Aabb) -> Point3,
    X: Fn(Aabb, Point3) -> Aabb,
    S: Fn(Aabb) -> Vector3,
>(
    bounds: &Vec<Aabb>,
    prims: &Vec<u32>,
    start: usize,
    len: usize,
    math: &BoxMath<M, C, X, S>,
) -> (aabb: Aabb)
    requires
        math.definite(),
        0 < len,
        start + len <= prims.len(),
        all_named(prims@, bounds@.len()),
    ensures
        aabb == box_of(bounds@, prims@.subrange(start as int, start + len), math.model()),
{
    let ghost order = prims@.subrange(start as int, start + len);
    let mut aabb = bounds[prims[start] as usize];
    let mut i: usize = 1;
    proof {
        assert(order.take(1)[0] == prims@[start as int]);
    }
    while i < len
        invariant
            1 <= i <= len,
            math.definite(),
            start + len <= prims.len(),
            all_named(prims@, bounds@.len()),
            order == prims@.subrange(start as int, start + len),
            aabb == box_of(bounds@, order.take(i as int), math.model()),
        decreases len - i,
    {
        let p: u32 = prims[start + i];
        let ghost next = order.take(i + 1);
        proof {
            assert(prims@[start + i] < bounds@.len());
            assert(next.drop_last() =~= order.take(i as int));
            assert(next.last() == p);
        }
        aabb = apply2(&math.merge, aabb, bounds[p as usize]);
        i = i + 1;
    }
    proof {
        assert(order.take(len as int) =~= order);
    }
    aabb
}

/// The axis along which the centers of a range spread most.
fn range_axis<
    M: Fn(Aabb, Aabb) -> Aabb,
    C: Fn(Aabb) -> Point3,
    X: Fn(Aabb, Point3) -> Aabb,
    S: Fn(Aabb) -> Vector3,
>(
    bounds: &Vec<Aabb>,
    prims: &Vec<u32>,
    start: usize,
    len: usize,
    math: &BoxMath<M, C, X, S>,
) -> (axis: u8)
    requires
        math.definite(),
        0 < len,
        start + len <= prims.len(),
        all_named(prims@, bounds@.len()),
    ensures
        axis == longest_axis(
            (math.model().size)(
                center_box(bounds@, prims@.subrange(start as int, start + len), math.model()),
            ),
        ),
{
    let ghost order = prims@.subrange(start as int, start + len);
    let first = apply1(&math.center, bounds[prims[start] as usize]);
    let mut aabb = Aabb { min: first, max: first };
    let mut i: usize = 1;
    proof {
        assert(order.take(1)[0] == prims@[start as int]);
    }
    while i < len
        invariant
            1 <= i <= len,
            math.definite(),
            start + len <= prims.len(),
            all_named(prims@, bounds@.len()),
            order == prims@.subrange(start as int, start + len),
            aabb == center_box(bounds@, order.take(i as int), math.model()),
        decreases len - i,
    {
        let p: u32 = prims[start + i];
        let ghost next = order.take(i + 1);
        proof {
            assert(prims@[start + i] < bounds@.len());
            assert(next.drop_last() =~= order.take(i as int));
            assert(next.last() == p);
        }
        aabb = apply2(&math.expand, aabb, apply1(&math.center, bounds[p as usize]));
        i = i + 1;
    }
    proof {
        assert(order.take(len as int) =~= order);
    }
    let size = apply1(&math.size, aabb);
    if scalar_ge(size.x, size.y) && scalar_ge(size.x, size.z) {
        0
    } else if scalar_ge(size.y, size.z) {
        1
    } else {
        2
    }
}

/// Reorders a range so that its halves are split along its longest axis.
fn split_range<
    M: Fn(Aabb, Aabb) -> Aabb,
    C: Fn(Aabb) -> Point3,
    X: Fn(Aabb, Point3) -> Aabb,
    S: Fn(Aabb) -> Vector3,
>(
    bounds: &Vec<Aabb>,
    prims: &mut Vec<u32>,
    start: usize,
    len: usize,
    math: &BoxMath<M, C, X, S>,
)
    requires
        math.definite(),
        1 < len,
        start + len <= old(prims).len(),
        all_named(old(prims)@, bounds@.len()),
    ensures
        final(prims).len() == old(prims).len(),
        forall|k: int|
            0 <= k < final(prims).len() && !(start <= k < start + len) ==> (#[trigger] final(prims)@[k]) == old(prims)@[k],
        same_prims(
            final(prims)@.subrange(start as int, start + len),
            old(prims)@.subrange(start as int, start + len),
        ),
        is_split(
            bounds@,
            final(prims)@.subrange(start as int, start + len / 2),
            final(prims)@.subrange(start + len / 2, start + len),
            math.model(),
        ),
        all_named(final(prims)@, bounds@.len()),
{
    let ghost given = prims@;
    let ghost order = given.subrange(start as int, start + len);
    let ghost model = math.model();
    let axis = range_axis(bounds, prims, start, len, math);
    let mut keyed: Vec<(u32, u32)> = Vec::new();
    let mut i: usize = 0;
    while i < len
        invariant
            i <= len,
            math.definite(),
            model == math.model(),
            prims@ == given,
            start + len <= prims.len(),
            all_named(given, bounds@.len()),
            axis <= 2,
            keyed.len() == i,
            forall|k: int|
                0 <= k < i ==> (#[trigger] keyed@[k]) == (
                    center_key(bounds@, given[start + k], axis as int, model),
                    given[start + k],
                ),
        decreases len - i,
    {
        let p: u32 = prims[start + i];
        proof {
            assert(given[start + i] < bounds@.len());
        }
        let c = apply1(&math.center, bounds[p as usize]);
        let at = if axis == 0 {
            c.x
        } else if axis == 1 {
            c.y
        } else {
            c.z
        };
        keyed.push((total_key(at), p));
        i = i + 1;
    }
    let ghost before = keyed@;
    let ghost second = |t: (u32, u32)| t.1;
    select_nth(&mut keyed, len / 2);
    let ghost after = keyed@;
    proof {
        lemma_map_multiset(before, after, second);
        assert(before.map_values(second) =~= order);
        assert forall|k: int| 0 <= k < after.len() implies (#[trigger] after[k]).0 == center_key(
            bounds@,
            after[k].1,
            axis as int,
            model,
        ) && after[k].1 < bounds@.len() by {
            broadcast use group_to_multiset_ensures;

            assert(after.contains(after[k]));
            assert(after.to_multiset().count(after[k]) > 0);
            assert(before.to_multiset().count(after[k]) > 0);
            assert(before.contains(after[k]));
            let j = choose|j: int| 0 <= j < before.len() && before[j] == after[k];
            assert(given[start + j] < bounds@.len());
        }
    }
    let mut j: usize = 0;
    while j < len
        invariant
            j <= len,
            start + len <= prims.len(),
            prims.len() == given.len(),
            keyed@ == after,
            keyed.len() == len,
            forall|k: int|
                0 <= k < prims.len() && !(start <= k < start + j) ==> (#[trigger] prims@[k])
                    == given[k],
            forall|k: int| 0 <= k < j ==> #[trigger] prims@[start + k] == after[k].1,
        decreases len - j,
    {
        let ghost so_far = prims@;
        prims.set(start + j, keyed[j].1);
        proof {
            assert forall|k: int| 0 <= k < j + 1 implies #[trigger] prims@[start + k]
                == after[k].1 by {
                if k < j {
                    assert(so_far[start + k] == after[k].1);
                }
            }
        }
        j = j + 1;
    }
    proof {
        let now = prims@;
        let range = now.subrange(start as int, start + len);
        let left = now.subrange(start as int, start + len / 2);
        let right = now.subrange(start + len / 2, start + len);
        assert(range =~= after.map_values(second)) by {
            assert forall|k: int| 0 <= k < len implies #[trigger] range[k] == after[k].1 by {
                assert(now[start + k] == after[k].1);
            }
        }
        assert(same_prims(range, order));
        assert(left + right =~= range);
        assert(separated(bounds@, left, right, axis as int, model)) by {
            assert forall|a: int, b: int|
                #![trigger left[a], right[b]]
                0 <= a < left.len() && 0 <= b < right.len() implies center_key(
                bounds@,
                left[a],
                axis as int,
                model,
            ) <= center_key(bounds@, right[b], axis as int, model) by {
                let mid = (len / 2) as int;
                assert(left[a] == now[start + a]);
                assert(right[b] == now[start + (mid + b)]);
                assert(now[start + a] == after[a].1);
                assert(now[start + (mid + b)] == after[mid + b].1);
                assert(pair_le(after[a], after[mid]));
                if b > 0 {
                    assert(pair_le(after[mid], after[mid + b]));
                }
            }
        }
        assert(same_prims(order, left + right));
        assert forall|k: int| 0 <= k < now.len() implies (#[trigger] now[k]) < bounds@.len() by {
            if start <= k < start + len {
                assert(now[start + (k - start)] == after[k - start].1);
            } else {
                assert(given[k] < bounds@.len());
            }
        }
    }
}

/// Recursively builds the hierarchy for a range of the primitives, appending nodes in
/// preorder.
fn build_node<
    M: Fn(Aabb, Aabb) -> Aabb,
    C: Fn(Aabb) -> Point3,
    X: Fn(Aabb, Point3) -> Aabb,
    S: Fn(Aabb) -> Vector3,
>(
    bounds: &Vec<Aabb>,
    prims: &mut Vec<u32>,
    start: usize,
    len: usize,
    nodes: &mut Vec<BvhNode>,
    math: &BoxMath<M, C, X, S>,
)
    requires
        math.definite(),
        0 < len,
        start + len <= old(prims).len(),
        old(prims).len() <= u32::MAX,
        old(nodes).len() + len <= u32::MAX,
        all_named(old(prims)@, bounds@.len()),
    ensures
        final(prims).len() == old(prims).len(),
        forall|k: int|
            0 <= k < final(prims).len() && !(start <= k < start + len) ==> (#[trigger] final(prims)@[k]) == old(prims)@[k],
        same_prims(
            final(prims)@.subrange(start as int, start + len),
            old(prims)@.subrange(start as int, start + len),
        ),
        all_named(final(prims)@, bounds@.len()),
        old(nodes).len() < final(nodes).len() <= old(nodes).len() + len,
        len > LEAF_SIZE ==> final(nodes).len() < old(nodes).len() + len,
        forall|k: int|
            0 <= k < old(nodes).len() ==> (#[trigger] final(nodes)@[k]) == old(nodes)@[k],
        tree_at(
            final(nodes)@,
            final(prims)@,
            bounds@,
            math.model(),
            old(nodes).len() as int,
            start as int,
            len as int,
            final(nodes).len() as int,
        ),
    decreases len,
{
    let ghost given = prims@;
    let ghost first = nodes@;
    let ghost model = math.model();
    let aabb = range_box(bounds, prims, start, len, math);
    let at: usize = nodes.len();
    if len <= LEAF_SIZE {
        nodes.push(BvhNode { aabb, index: start as u32, count: len as u32 });
        proof {
            let range = given.subrange(start as int, start + len);
            assert(same_prims(range, range));
            assert(is_box_of(aabb, bounds@, range, model));
        }
        return ;
    }
    nodes.push(BvhNode { aabb, index: 0, count: 0 });
    split_range(bounds, prims, start, len, math);
    let ghost halved = prims@;
    let mid: usize = len / 2;
    build_node(bounds, prims, start, mid, nodes, math);
    let ghost lefted = prims@;
    let ghost left_nodes = nodes@;
    let right: usize = nodes.len();
    let mut here = nodes[at];
    here.index = right as u32;
    nodes.set(at, here);
    let ghost linked = nodes@;
    build_node(bounds, prims, start + mid, len - mid, nodes, math);
    proof {
        let s = start as int;
        let m = mid as int;
        let n = len as int;
        let end = nodes.len() as int;
        // The halves, after the split and in the end.
        let l1 = halved.subrange(s, s + m);
        let r1 = halved.subrange(s + m, s + n);
        let l2 = prims@.subrange(s, s + m);
        let r2 = prims@.subrange(s + m, s + n);
        assert(l2 =~= lefted.subrange(s, s + m));
        assert(lefted.subrange(s + m, s + (n)) =~= r1);
        assert(start + mid + (len - mid) == s + n);
        assert(same_prims(l2, l1));
        assert(same_prims(r2, r1));
        lemma_same_parts(l2, r2, l1, r1);
        assert(l1 + r1 =~= halved.subrange(s, s + n));
        assert(l2 + r2 =~= prims@.subrange(s, s + n));
        assert(same_prims(prims@.subrange(s, s + n), given.subrange(s, s + n)));
        lemma_split_reordered(bounds@, l1, r1, l2, r2, model);
        // The node itself.
        assert(linked[at as int] == (BvhNode { aabb, index: right as u32, count: 0 })) by {
            assert(left_nodes[at as int] == (BvhNode { aabb, index: 0, count: 0 }));
        }
        assert(nodes@[at as int] == linked[at as int]);
        assert(same_prims(given.subrange(s, s + n), prims@.subrange(s, s + n)));
        assert(is_box_of(aabb, bounds@, prims@.subrange(s, s + n), model));
        // The left half.
        assert forall|k: int| at + 1 <= k < right implies #[trigger] nodes@[k]
            == left_nodes[k] by {
            assert(linked[k] == left_nodes[k]);
        }
        assert forall|k: int| s <= k < s + m implies #[trigger] prims@[k] == lefted[k] by {}
        lemma_tree_frame(
            left_nodes,
            lefted,
            bounds@,
            model,
            at + 1,
            s,
            m,
            right as int,
            nodes@,
            prims@,
        );
        assert(tree_at(nodes@, prims@, bounds@, model, right as int, s + m, n - m, end));
        assert forall|k: int| 0 <= k < first.len() implies (#[trigger] nodes@[k]) == first[k] by {
            assert(left_nodes[k] == first[k]);
            assert(linked[k] == left_nodes[k]);
        }
        assert forall|k: int|
            0 <= k < prims.len() && !(start <= k < start + len) implies (#[trigger] prims@[k])
            == given[k] by {
            assert(lefted[k] == halved[k]);
        }
    }
}

impl FlatBvh {
    /// Builds a hierarchy over boxes.
    pub fn build<
        M: Fn(Aabb, Aabb) -> Aabb,
        C: Fn(Aabb) -> Point3,
        X: Fn(Aabb, Point3) -> Aabb,
        S: Fn(Aabb) -> Vector3,
    >(bounds: &Vec<Aabb>, math: &BoxMath<M, C, X, S>) -> (bvh: Self)
        requires
            math.definite(),
            bounds.len() <= u32::MAX,
        ensures
            bvh.built_over(bounds@, math.model()),
    {
        let mut prims: Vec<u32> = Vec::new();
        let mut i: usize = 0;
        while i < bounds.len()
            invariant
                i <= bounds.len(),
                bounds.len() <= u32::MAX,
                prims@ == natural(i as nat),
            decreases bounds.len() - i,
        {
            prims.push(i as u32);
            i = i + 1;
            proof {
                assert(prims@ =~= natural(i as nat));
            }
        }
        let mut nodes: Vec<BvhNode> = Vec::new();
        if bounds.len() > 0 {
            let ghost given = prims@;
            build_node(bounds, &mut prims, 0, bounds.len(), &mut nodes, math);
            proof {
                assert(given.subrange(0, bounds.len() as int) =~= given);
                assert(prims@.subrange(0, bounds.len() as int) =~= prims@);
            }
        }
        FlatBvh { nodes, prims }
    }
}

/// The primitives that a traversal visits, in order: those of the leaves that are
/// entered, where a node is entered when its box passes the test and so did the boxes
/// of the nodes above.
pub open spec fn visited(
    nodes: Seq<BvhNode>,
    prims: Seq<u32>,
    i: int,
    start: int,
    len: int,
    enter: spec_fn(Aabb) -> bool,
) -> Seq<u32>
    decreases len,
{
    if !enter(nodes[i].aabb) || len <= 0 {
        Seq::empty()
    } else if len <= LEAF_SIZE {
        prims.subrange(start, start + len)
    } else {
        visited(nodes, prims, i + 1, start, len / 2, enter) + visited(
            nodes,
            prims,
            nodes[i].index as int,
            start + len / 2,
            len - len / 2,
            enter,
        )
    }
}

impl FlatBvh {
    /// The primitives that a traversal of the whole hierarchy visits.
    pub open spec fn candidates(&self, enter: spec_fn(Aabb) -> bool) -> Seq<u32> {
        if self.nodes.len() == 0 {
            Seq::empty()
        } else {
            visited(self.nodes@, self.prims@, 0, 0, self.prims.len() as int, enter)
        }
    }
}

/// Whether a relation is what containment of boxes is: every box is in itself, what
/// is in a box that is in another is in that one, and merging contains both.
pub open spec fn is_containment(
    within: spec_fn(Aabb, Aabb) -> bool,
    merge: spec_fn(Aabb, Aabb) -> Aabb,
) -> bool {
    &&& forall|a: Aabb| #[trigger] within(a, a)
    &&& forall|a: Aabb, b: Aabb, c: Aabb|
        #![trigger within(a, b), within(b, c)]
        within(a, b) && within(b, c) ==> within(a, c)
    &&& forall|a: Aabb, b: Aabb|
        #![trigger merge(a, b)]
        within(a, merge(a, b)) && within(b, merge(a, b))
}

proof fn lemma_box_contains(
    bounds: Seq<Aabb>,
    order: Seq<u32>,
    math: BoxModel,
    within: spec_fn(Aabb, Aabb) -> bool,
    k: int,
)
    requires
        is_containment(within, math.merge),
        0 <= k < order.len(),
    ensures
        within(bounds[order[k] as int], box_of(bounds, order, math)),
    decreases order.len(),
{
    if order.len() > 1 {
        let front = box_of(bounds, order.drop_last(), math);
        let last = bounds[order.last() as int];
        assert(within(front, (math.merge)(front, last)) && within(last, (math.merge)(front, last)));
        if k < order.len() - 1 {
            lemma_box_contains(bounds, order.drop_last(), math, within, k);
            assert(order.drop_last()[k] == order[k]);
        }
    }
}

/// The box of a node contains the boxes of its primitives.
pub proof fn lemma_node_contains(
    nodes: Seq<BvhNode>,
    prims: Seq<u32>,
    bounds: Seq<Aabb>,
    math: BoxModel,
    i: int,
    start: int,
    len: int,
    end: int,
    within: spec_fn(Aabb, Aabb) -> bool,
    k: int,
)
    requires
        tree_at(nodes, prims, bounds, math, i, start, len, end),
        is_containment(within, math.merge),
        start <= k < start + len,
    ensures
        within(bounds[prims[k] as int], nodes[i].aabb),
{
    let range = prims.subrange(start, start + len);
    let order = choose|order: Seq<u32>| #[trigger]
        same_prims(order, range) && nodes[i].aabb == box_of(bounds, order, math);
    lemma_same_prims(order, range);
    assert(range[k - start] == prims[k]);
    assert(range.contains(prims[k]));
    assert(order.contains(prims[k]));
    let x = choose|x: int| 0 <= x < order.len() && order[x] == prims[k];
    lemma_box_contains(bounds, order, math, within, x);
}

proof fn lemma_visited_complete(
    nodes: Seq<BvhNode>,
    prims: Seq<u32>,
    bounds: Seq<Aabb>,
    math: BoxModel,
    i: int,
    start: int,
    len: int,
    end: int,
    within: spec_fn(Aabb, Aabb) -> bool,
    enter: spec_fn(Aabb) -> bool,
    k: int,
)
    requires
        tree_at(nodes, prims, bounds, math, i, start, len, end),
        is_containment(within, math.merge),
        forall|a: Aabb, b: Aabb| #[trigger] within(a, b) && enter(a) ==> enter(b),
        start <= k < start + len,
        enter(bounds[prims[k] as int]),
    ensures
        visited(nodes, prims, i, start, len, enter).contains(prims[k]),
    decreases len,
{
    lemma_node_contains(nodes, prims, bounds, math, i, start, len, end, within, k);
    assert(enter(nodes[i].aabb));
    if len <= LEAF_SIZE {
        let range = prims.subrange(start, start + len);
        assert(range[k - start] == prims[k]);
    }
    if len > LEAF_SIZE {
        let mid = len / 2;
        let r = nodes[i].index as int;
        let a = visited(nodes, prims, i + 1, start, mid, enter);
        let b = visited(nodes, prims, r, start + mid, len - mid, enter);
        if k < start + mid {
            lemma_visited_complete(
                nodes,
                prims,
                bounds,
                math,
                i + 1,
                start,
                mid,
                r,
                within,
                enter,
                k,
            );
            let y = choose|y: int| 0 <= y < a.len() && a[y] == prims[k];
            assert((a + b)[y] == prims[k]);
        } else {
            lemma_visited_complete(
                nodes,
                prims,
                bounds,
                math,
                r,
                start + mid,
                len - mid,
                end,
                within,
                enter,
                k,
            );
            let y = choose|y: int| 0 <= y < b.len() && b[y] == prims[k];
            assert((a + b)[a.len() + y] == prims[k]);
        }
    }
}

/// Every primitive is listed.
pub proof fn lemma_prims_complete(bvh: FlatBvh, bounds: Seq<Aabb>, math: BoxModel, p: u32)
    requires
        bvh.built_over(bounds, math),
        p < bounds.len(),
    ensures
        bvh.prims@.contains(p),
{
    let all = natural(bounds.len());
    assert(all[p as int] == p);
    assert(all.contains(p));
    lemma_same_prims(bvh.prims@, all);
}

/// No primitive is missed: whatever test a traversal uses, if passing it carries over
/// from a box to the boxes that contain it, then every primitive whose own box passes
/// is visited.
pub proof fn traversal_misses_nothing(
    bvh: FlatBvh,
    bounds: Seq<Aabb>,
    math: BoxModel,
    within: spec_fn(Aabb, Aabb) -> bool,
    enter: spec_fn(Aabb) -> bool,
    p: u32,
)
    requires
        bvh.built_over(bounds, math),
        is_containment(within, math.merge),
        forall|a: Aabb, b: Aabb| #[trigger] within(a, b) && enter(a) ==> enter(b),
        p < bounds.len(),
        bounds.len() <= u32::MAX,
        enter(bounds[p as int]),
    ensures
        bvh.candidates(enter).contains(p),
{
    lemma_prims_complete(bvh, bounds, math, p);
    let k = choose|k: int| 0 <= k < bvh.prims@.len() && bvh.prims@[k] == p;
    lemma_visited_complete(
        bvh.nodes@,
        bvh.prims@,
        bounds,
        math,
        0,
        0,
        bounds.len() as int,
        bvh.nodes.len() as int,
        within,
        enter,
        k,
    );
}

/// A traversal visits nothing but primitives of the hierarchy, each at most once.
pub proof fn traversal_visits_each_once(
    bvh: FlatBvh,
    bounds: Seq<Aabb>,
    math: BoxModel,
    enter: spec_fn(Aabb) -> bool,
)
    requires
        bvh.built_over(bounds, math),
        bounds.len() <= u32::MAX,
    ensures
        bvh.candidates(enter).no_duplicates(),
        all_named(bvh.candidates(enter), bounds.len()),
{
    let n = bounds.len() as int;
    lemma_prims_distinct(bvh, bounds, math);
    if n > 0 {
        lemma_visited_sub(
            bvh.nodes@,
            bvh.prims@,
            bounds,
            math,
            0,
            0,
            n,
            bvh.nodes.len() as int,
            enter,
        );
        let seen = bvh.candidates(enter);
        assert forall|i: int| 0 <= i < seen.len() implies (#[trigger] seen[i]) < bounds.len() by {
            assert(seen.contains(seen[i]));
            let k = choose|k: int| 0 <= k < n && bvh.prims@[k] == seen[i];
            assert(bvh.prims@[k] < bounds.len());
        }
    }
}

/// The primitives of a hierarchy are distinct and name boxes.
pub proof fn lemma_prims_distinct(bvh: FlatBvh, bounds: Seq<Aabb>, math: BoxModel)
    requires
        bvh.built_over(bounds, math),
        bounds.len() <= u32::MAX,
    ensures
        bvh.prims@.no_duplicates(),
        all_named(bvh.prims@, bounds.len()),
{
    let all = natural(bounds.len());
    assert(all.no_duplicates());
    all.lemma_multiset_has_no_duplicates();
    bvh.prims@.lemma_multiset_has_no_duplicates_conv();
    lemma_same_prims(bvh.prims@, all);
    assert forall|i: int| 0 <= i < bvh.prims@.len() implies (#[trigger] bvh.prims@[i])
        < bounds.len() by {
        assert(bvh.prims@.contains(bvh.prims@[i]));
        assert(all.contains(bvh.prims@[i]));
        let k = choose|k: int| 0 <= k < all.len() && all[k] == bvh.prims@[i];
    }
}

proof fn lemma_visited_sub(
    nodes: Seq<BvhNode>,
    prims: Seq<u32>,
    bounds: Seq<Aabb>,
    math: BoxModel,
    i: int,
    start: int,
    len: int,
    end: int,
    enter: spec_fn(Aabb) -> bool,
)
    requires
        tree_at(nodes, prims, bounds, math, i, start, len, end),
        prims.no_duplicates(),
    ensures
        visited(nodes, prims, i, start, len, enter).no_duplicates(),
        forall|x: u32| #[trigger]
            visited(nodes, prims, i, start, len, enter).contains(x) ==> exists|k: int|
                start <= k < start + len && prims[k] == x,
    decreases len,
{
    let seen = visited(nodes, prims, i, start, len, enter);
    if enter(nodes[i].aabb) {
        if len <= LEAF_SIZE {
            assert forall|x: u32| #[trigger] seen.contains(x) implies exists|k: int|
                start <= k < start + len && prims[k] == x by {
                let y = choose|y: int| 0 <= y < seen.len() && seen[y] == x;
                assert(prims[start + y] == x);
            }
            assert forall|a: int, b: int|
                0 <= a < seen.len() && 0 <= b < seen.len() && a != b implies seen[a] != seen[b] by {
                assert(prims[start + a] != prims[start + b]);
            }
        } else {
            let mid = len / 2;
            let r = nodes[i].index as int;
            let a = visited(nodes, prims, i + 1, start, mid, enter);
            let b = visited(nodes, prims, r, start + mid, len - mid, enter);
            lemma_visited_sub(nodes, prims, bounds, math, i + 1, start, mid, r, enter);
            lemma_visited_sub(
                nodes,
                prims,
                bounds,
                math,
                r,
                start + mid,
                len - mid,
                end,
                enter,
            );
            assert forall|x: u32| #[trigger] seen.contains(x) implies exists|k: int|
                start <= k < start + len && prims[k] == x by {
                let y = choose|y: int| 0 <= y < seen.len() && seen[y] == x;
                if y < a.len() {
                    assert(a.contains(x)) by {
                        assert(a[y] == x);
                    }
                    let k = choose|k: int| start <= k < start + mid && prims[k] == x;
                    assert(start <= k < start + len && prims[k] == x);
                } else {
                    assert(b.contains(x)) by {
                        assert(b[y - a.len()] == x);
                    }
                    let k = choose|k: int|
                        start + mid <= k < start + mid + (len - mid) && prims[k] == x;
                    assert(start <= k < start + len && prims[k] == x);
                }
            }
            assert forall|x: int, y: int|
                0 <= x < seen.len() && 0 <= y < seen.len() && x != y implies seen[x] != seen[y] by {
                if x < a.len() && y < a.len() {
                    assert(a[x] != a[y]);
                } else if x >= a.len() && y >= a.len() {
                    assert(b[x - a.len()] != b[y - a.len()]);
                } else {
                    let p = if x < a.len() {
                        x
                    } else {
                        y
                    };
                    let q = if x < a.len() {
                        y
                    } else {
                        x
                    };
                    assert(a.contains(a[p]));
                    assert(b.contains(b[q - a.len()]));
                    let k = choose|k: int| start <= k < start + mid && prims[k] == a[p];
                    let l = choose|l: int|
                        start + mid <= l < start + mid + (len - mid) && prims[l] == b[q - a.len()];
                    assert(prims[k] != prims[l]);
                }
            }
        }
    }
}

/// How many levels a hierarchy over `len` primitives has.
pub open spec fn levels(len: nat) -> nat
    decreases len,
{
    if len <= LEAF_SIZE {
        1
    } else {
        1 + levels((len - len / 2) as nat)
    }
}

proof fn lemma_levels(len: nat, k: nat)
    requires
        len <= 8 * vstd::arithmetic::power2::pow2(k),
    ensures
        levels(len) <= k + 1,
    decreases k,
{
    if len > LEAF_SIZE {
        vstd::arithmetic::power2::lemma2_to64();
        assert(k > 0);
        vstd::arithmetic::power2::lemma_pow2_unfold(k);
        lemma_levels((len - len / 2) as nat, (k - 1) as nat);
    }
}

/// The median split keeps a hierarchy shallow: at most 30 levels for any number of
/// primitives that 32 bits can count.
pub proof fn hierarchy_is_shallow(len: nat)
    requires
        len <= u32::MAX,
    ensures
        levels(len) <= 30,
{
    vstd::arithmetic::power2::lemma2_to64();
    lemma_levels(len, 29);
}

} // verus!
