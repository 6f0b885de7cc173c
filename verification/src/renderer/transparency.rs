//! The order of transparent batches, and the camera-dependent placement of instances.

use super::batching::{batch_views, DrawBatch, DrawBatchModel};
use super::frame::InstanceTransform;
use crate::common::{order_key, Matrix3, Matrix4, Point3, Scalar, SIGN_BIT, ZERO};
use crate::geom_query::pick_query::PickView;
use crate::numeric::{
    apply1, apply2, apply3, definite1, definite2, definite3, value1, value2, value3,
};
use crate::resource::display::DisplayBehavior;
use vstd::prelude::*;
use vstd::seq_lib::*;

verus! {

/// How far a batch is from the camera: nothing for an empty batch, else what
/// `measure` makes of the translations of its instances, gathered one by one, their
/// number and the position of the camera.
pub open spec fn batch_distance(
    batch: DrawBatchModel,
    camera: Point3,
    gather: spec_fn(Point3, Matrix4) -> Point3,
    measure: spec_fn(Point3, u64, Point3) -> Scalar,
) -> Scalar {
    if batch.instances.len() == 0 {
        ZERO
    } else {
        measure(gathered(batch.instances, gather), batch.instances.len() as u64, camera)
    }
}

/// The translations of instances, gathered one by one.
pub open spec fn gathered(
    instances: Seq<InstanceTransform>,
    gather: spec_fn(Point3, Matrix4) -> Point3,
) -> Point3
    decreases instances.len(),
{
    if instances.len() == 0 {
        Point3 { x: ZERO, y: ZERO, z: ZERO }
    } else {
        gather(gathered(instances.drop_last(), gather), instances.last().world_transform)
    }
}

/// The batches that are not blended, in order.
pub open spec fn opaque_batches(batches: Seq<DrawBatchModel>) -> Seq<DrawBatchModel>
    decreases batches.len(),
{
    if batches.len() == 0 {
        Seq::empty()
    } else if batches.last().transparent() {
        opaque_batches(batches.drop_last())
    } else {
        opaque_batches(batches.drop_last()).push(batches.last())
    }
}

/// The batches that are blended, in order.
pub open spec fn blended_batches(batches: Seq<DrawBatchModel>) -> Seq<DrawBatchModel>
    decreases batches.len(),
{
    if batches.len() == 0 {
        Seq::empty()
    } else if batches.last().transparent() {
        blended_batches(batches.drop_last()).push(batches.last())
    } else {
        blended_batches(batches.drop_last())
    }
}

/// How many of the batches, from the front on, are at least as far as `key`.
pub open spec fn farther(
    batches: Seq<DrawBatchModel>,
    key: int,
    distance: spec_fn(DrawBatchModel) -> Scalar,
) -> int
    decreases batches.len(),
{
    if batches.len() == 0 || order_key(distance(batches.first())) < key {
        0
    } else {
        1 + farther(batches.drop_first(), key, distance)
    }
}

/// Batches ordered from far to near; those equally far keep their order.
pub open spec fn far_to_near(
    batches: Seq<DrawBatchModel>,
    distance: spec_fn(DrawBatchModel) -> Scalar,
) -> Seq<DrawBatchModel>
    decreases batches.len(),
{
    if batches.len() == 0 {
        Seq::empty()
    } else {
        let front = far_to_near(batches.drop_last(), distance);
        front.insert(
            farther(front, order_key(distance(batches.last())), distance),
            batches.last(),
        )
    }
}

/// Whether batches stand from far to near.
pub open spec fn descending(
    batches: Seq<DrawBatchModel>,
    distance: spec_fn(DrawBatchModel) -> Scalar,
) -> bool {
    forall|i: int, j: int|
        #![trigger batches[i], batches[j]]
        0 <= i < j < batches.len() ==> order_key(distance(batches[i])) >= order_key(
            distance(batches[j]),
        )
}

proof fn lemma_farther(
    batches: Seq<DrawBatchModel>,
    key: int,
    distance: spec_fn(DrawBatchModel) -> Scalar,
)
    ensures
        0 <= farther(batches, key, distance) <= batches.len(),
        forall|i: int|
            0 <= i < farther(batches, key, distance) ==> order_key(
                distance(#[trigger] batches[i]),
            ) >= key,
        farther(batches, key, distance) < batches.len() ==> order_key(
            distance(batches[farther(batches, key, distance)]),
        ) < key,
    decreases batches.len(),
{
    if batches.len() > 0 && order_key(distance(batches.first())) >= key {
        let rest = batches.drop_first();
        lemma_farther(rest, key, distance);
        let n = farther(rest, key, distance);
        assert forall|i: int| 0 <= i < 1 + n implies order_key(distance(#[trigger] batches[i]))
            >= key by {
            if i > 0 {
                assert(rest[i - 1] == batches[i]);
            }
        }
        if n < rest.len() {
            assert(rest[n] == batches[n + 1]);
        }
    }
}

proof fn lemma_farther_at(
    batches: Seq<DrawBatchModel>,
    key: int,
    distance: spec_fn(DrawBatchModel) -> Scalar,
    n: int,
)
    requires
        0 <= n <= batches.len(),
        forall|i: int| 0 <= i < n ==> order_key(distance(#[trigger] batches[i])) >= key,
        n < batches.len() ==> order_key(distance(batches[n])) < key,
    ensures
        farther(batches, key, distance) == n,
{
    lemma_farther(batches, key, distance);
    let f = farther(batches, key, distance);
    if f < n {
        assert(order_key(distance(batches[f])) >= key);
    } else if f > n {
        assert(order_key(distance(batches[n])) >= key);
    }
}

/// The batches of one distance, in order.
pub open spec fn at_distance(
    batches: Seq<DrawBatchModel>,
    key: int,
    distance: spec_fn(DrawBatchModel) -> Scalar,
) -> Seq<DrawBatchModel> {
    batches.filter(|b: DrawBatchModel| order_key(distance(b)) == key)
}

/// Ordering from far to near orders, loses nothing, and keeps the order of batches
/// that are equally far.
pub proof fn far_to_near_is_stable(
    batches: Seq<DrawBatchModel>,
    distance: spec_fn(DrawBatchModel) -> Scalar,
    key: int,
)
    ensures
        descending(far_to_near(batches, distance), distance),
        far_to_near(batches, distance).to_multiset() == batches.to_multiset(),
        at_distance(far_to_near(batches, distance), key, distance) == at_distance(
            batches,
            key,
            distance,
        ),
    decreases batches.len(),
{
    let test = |b: DrawBatchModel| order_key(distance(b)) == key;
    if batches.len() == 0 {
        assert(far_to_near(batches, distance) =~= batches);
    } else {
        let short = batches.drop_last();
        let last = batches.last();
        let front = far_to_near(short, distance);
        let now = far_to_near(batches, distance);
        let k = order_key(distance(last));
        let n = farther(front, k, distance);
        far_to_near_is_stable(short, distance, key);
        lemma_farther(front, k, distance);
        to_multiset_insert(front, n, last);
        to_multiset_build(short, last);
        assert(batches =~= short.push(last));
        assert forall|i: int, j: int|
            #![trigger now[i], now[j]]
            0 <= i < j < now.len() implies order_key(distance(now[i])) >= order_key(
            distance(now[j]),
        ) by {
            if j < n {
                assert(order_key(distance(front[i])) >= order_key(distance(front[j])));
            } else if j == n {
                assert(order_key(distance(front[i])) >= k);
            } else if i == n {
                assert(order_key(distance(front[n])) < k);
                if j - 1 > n {
                    assert(order_key(distance(front[n])) >= order_key(distance(front[j - 1])));
                }
            } else if i < n {
                assert(order_key(distance(front[i])) >= order_key(distance(front[j - 1])));
            } else {
                assert(order_key(distance(front[i - 1])) >= order_key(distance(front[j - 1])));
            }
        }
        // Stability: what stands behind the place of insertion is nearer.
        let head = front.take(n);
        let tail = front.skip(n);
        assert(front =~= head + tail);
        assert(now =~= head.push(last) + tail);
        Seq::<DrawBatchModel>::filter_distributes_over_add(head, tail, test);
        Seq::<DrawBatchModel>::filter_distributes_over_add(head.push(last), tail, test);
        lemma_filter_push(head, last, test);
        lemma_filter_push(short, last, test);
        if k == key {
            assert forall|i: int| 0 <= i < tail.len() implies !test(#[trigger] tail[i]) by {
                assert(tail[i] == front[n + i]);
                if i > 0 {
                    assert(order_key(distance(front[n])) >= order_key(distance(front[n + i])));
                }
            }
            lemma_filter_none(tail, test);
            assert(at_distance(now, key, distance) =~= at_distance(batches, key, distance));
        } else {
            assert(at_distance(now, key, distance) =~= at_distance(batches, key, distance));
        }
    }
}

proof fn lemma_filter_push<A>(s: Seq<A>, x: A, test: spec_fn(A) -> bool)
    ensures
        s.push(x).filter(test) == (if test(x) {
            s.filter(test).push(x)
        } else {
            s.filter(test)
        }),
{
    reveal(Seq::filter);
    assert(s.push(x).drop_last() =~= s);
}

proof fn lemma_filter_none<A>(s: Seq<A>, test: spec_fn(A) -> bool)
    requires
        forall|i: int| 0 <= i < s.len() ==> !test(#[trigger] s[i]),
    ensures
        s.filter(test) == Seq::<A>::empty(),
    decreases s.len(),
{
    reveal(Seq::filter);
    if s.len() > 0 {
        assert forall|i: int| 0 <= i < s.drop_last().len() implies !test(
            #[trigger] s.drop_last()[i],
        ) by {
            assert(s.drop_last()[i] == s[i]);
        }
        lemma_filter_none(s.drop_last(), test);
        assert(!test(s[s.len() - 1]));
    }
}

/// Splitting into opaque and blended batches loses nothing.
pub proof fn split_loses_nothing(batches: Seq<DrawBatchModel>)
    ensures
        (opaque_batches(batches) + blended_batches(batches)).to_multiset()
            == batches.to_multiset(),
    decreases batches.len(),
{
    broadcast use group_to_multiset_ensures;

    let a = opaque_batches(batches);
    let b = blended_batches(batches);
    lemma_multiset_commutative(a, b);
    if batches.len() == 0 {
        assert(a + b =~= batches);
    } else {
        let front = batches.drop_last();
        split_loses_nothing(front);
        let fa = opaque_batches(front);
        let fb = blended_batches(front);
        lemma_multiset_commutative(fa, fb);
        assert(batches =~= front.push(batches.last()));
        to_multiset_build(front, batches.last());
        if batches.last().transparent() {
            to_multiset_build(fb, batches.last());
        } else {
            to_multiset_build(fa, batches.last());
        }
        assert(a.to_multiset().add(b.to_multiset()) =~= batches.to_multiset());
    }
}

/// The key by which a scalar orders.
fn number_key(bits: Scalar) -> (key: i64)
    ensures
        key == order_key(bits),
{
    if bits < SIGN_BIT {
        bits as i64
    } else {
        SIGN_BIT as i64 - bits as i64
    }
}

/// How far a batch is from the camera.
fn batch_centroid_distance<
    G: Fn(Point3, Matrix4) -> Point3,
    M: Fn(Point3, u64, Point3) -> Scalar,
>(batch: &DrawBatch, camera: Point3, gather: &G, measure: &M) -> (distance: Scalar)
    requires
        definite2(*gather),
        definite3(*measure),
    ensures
        distance == batch_distance(batch@, camera, value2(*gather), value3(*measure)),
{
    if batch.instances.len() == 0 {
        return ZERO;
    }
    let mut sum = Point3 { x: ZERO, y: ZERO, z: ZERO };
    let mut i: usize = 0;
    let ghost all = batch.instances@;
    proof {
        assert(all.take(0) =~= Seq::empty());
    }
    while i < batch.instances.len()
        invariant
            i <= batch.instances.len(),
            definite2(*gather),
            all == batch.instances@,
            sum == gathered(all.take(i as int), value2(*gather)),
        decreases batch.instances.len() - i,
    {
        proof {
            let next = all.take(i + 1);
            assert(next.drop_last() =~= all.take(i as int));
            assert(next.last() == all[i as int]);
        }
        sum = apply2(gather, sum, batch.instances[i].world_transform);
        i = i + 1;
    }
    proof {
        assert(all.take(all.len() as int) =~= all);
    }
    apply3(measure, sum, batch.instances.len() as u64, camera)
}

/// Reorders batches so opaque and masked batches come first (preserving the existing
/// order), followed by blended batches from far to near as seen from the camera.
///
/// `gather` adds the translation of a transform to a sum, and `measure` makes of such
/// a sum, the number of summands and the position of the camera a distance, or
/// anything that orders as distances do.
pub fn sort_batches_for_transparency<
    G: Fn(Point3, Matrix4) -> Point3,
    M: Fn(Point3, u64, Point3) -> Scalar,
>(batches: &mut Vec<DrawBatch>, camera: Point3, gather: &G, measure: &M)
    requires
        definite2(*gather),
        definite3(*measure),
    ensures
        batch_views(final(batches)@) == opaque_batches(batch_views(old(batches)@)) + far_to_near(
            blended_batches(batch_views(old(batches)@)),
            |b: DrawBatchModel| batch_distance(b, camera, value2(*gather), value3(*measure)),
        ),
{
    let ghost given = batch_views(batches@);
    let ghost distance = |b: DrawBatchModel|
        batch_distance(b, camera, value2(*gather), value3(*measure));
    let mut all: Vec<DrawBatch> = Vec::new();
    std::mem::swap(&mut all, batches);
    // Turned round, so that taking from the end goes through them in order.
    let mut turned: Vec<DrawBatch> = Vec::new();
    proof {
        assert(batch_views(all@) =~= given);
    }
    while all.len() > 0
        invariant
            all.len() <= given.len(),
            batch_views(all@) == given.take(all.len() as int),
            turned.len() == given.len() - all.len(),
            forall|i: int|
                0 <= i < turned.len() ==> (#[trigger] batch_views(turned@)[i])
                    == given[given.len() - 1 - i],
        decreases all.len(),
    {
        let ghost a = batch_views(all@);
        let ghost t = batch_views(turned@);
        if let Some(batch) = all.pop() {
            let ghost b = batch@;
            turned.push(batch);
            proof {
                assert(a.last() == b);
                assert(batch_views(all@) =~= given.take(all.len() as int));
                assert(batch_views(turned@) =~= t.push(b));
            }
        }
    }
    let mut opaque: Vec<DrawBatch> = Vec::new();
    let mut blended: Vec<DrawBatch> = Vec::new();
    let mut keys: Vec<i64> = Vec::new();
    let ghost mut done: int = 0;
    proof {
        assert(given.take(0) =~= Seq::empty());
        assert(batch_views(opaque@) =~= Seq::empty());
        assert(batch_views(blended@) =~= Seq::empty());
    }
    while turned.len() > 0
        invariant
            definite2(*gather),
            definite3(*measure),
            0 <= done <= given.len(),
            turned.len() == given.len() - done,
            forall|i: int|
                0 <= i < turned.len() ==> (#[trigger] batch_views(turned@)[i])
                    == given[given.len() - 1 - i],
            batch_views(opaque@) == opaque_batches(given.take(done)),
            batch_views(blended@) == far_to_near(blended_batches(given.take(done)), distance),
            distance == (|b: DrawBatchModel|
                batch_distance(b, camera, value2(*gather), value3(*measure))),
            keys.len() == blended.len(),
            forall|i: int|
                0 <= i < keys.len() ==> (#[trigger] keys@[i]) == order_key(
                    distance(batch_views(blended@)[i]),
                ),
        decreases turned.len(),
    {
        let ghost t = batch_views(turned@);
        if let Some(batch) = turned.pop() {
            let ghost b = batch@;
            proof {
                assert(t.last() == b);
                assert(t[t.len() - 1] == given[done]);
                assert(batch_views(turned@) =~= t.drop_last());
                assert forall|i: int| 0 <= i < turned.len() implies (#[trigger] batch_views(
                    turned@,
                )[i]) == given[given.len() - 1 - i] by {
                    assert(t[i] == given[given.len() - 1 - i]);
                }
                assert(given.take(done + 1).drop_last() =~= given.take(done));
                assert(given.take(done + 1).last() == b);
            }
            if batch.is_transparent() {
                let d = batch_centroid_distance(&batch, camera, gather, measure);
                let key: i64 = number_key(d);
                let ghost front = batch_views(blended@);
                let ghost old_keys = keys@;
                let mut at: usize = 0;
                while at < keys.len() && keys[at] >= key
                    invariant
                        at <= keys.len(),
                        keys.len() == front.len(),
                        forall|i: int|
                            0 <= i < keys.len() ==> (#[trigger] keys@[i]) == order_key(
                                distance(front[i]),
                            ),
                        forall|i: int| 0 <= i < at ==> (#[trigger] keys@[i]) >= key,
                    decreases keys.len() - at,
                {
                    at = at + 1;
                }
                proof {
                    assert forall|i: int| 0 <= i < at implies order_key(
                        distance(#[trigger] front[i]),
                    ) >= key by {
                        assert(keys@[i] >= key);
                    }
                    if at < front.len() {
                        assert(keys@[at as int] == order_key(distance(front[at as int])));
                    }
                    lemma_farther_at(front, key as int, distance, at as int);
                }
                blended.insert(at, batch);
                keys.insert(at, key);
                proof {
                    assert(batch_views(blended@) =~= front.insert(at as int, b));
                    let next = blended_batches(given.take(done + 1));
                    assert(next.drop_last() =~= blended_batches(given.take(done)));
                    assert(next.last() == b);
                    assert forall|i: int| 0 <= i < keys.len() implies (#[trigger] keys@[i])
                        == order_key(distance(batch_views(blended@)[i])) by {
                        if i < at {
                            assert(old_keys[i] == order_key(distance(front[i])));
                        } else if i > at {
                            assert(old_keys[i - 1] == order_key(distance(front[i - 1])));
                        }
                    }
                }
            } else {
                let ghost front = batch_views(opaque@);
                opaque.push(batch);
                proof {
                    assert(batch_views(opaque@) =~= front.push(b));
                }
            }
            proof {
                done = done + 1;
            }
        }
    }
    proof {
        assert(given.take(done) =~= given);
    }
    let ghost first = batch_views(opaque@);
    let ghost second = batch_views(blended@);
    opaque.append(&mut blended);
    proof {
        assert(batch_views(opaque@) =~= first + second);
    }
    std::mem::swap(&mut opaque, batches);
}

/// An instance as the view draws it: screen-space instances where and as large as the
/// view puts them, all others unchanged.
pub open spec fn drawn(
    instance: InstanceTransform,
    view: PickView,
    effective: spec_fn(DisplayBehavior, Matrix4, PickView) -> Matrix4,
    normal: spec_fn(Matrix4) -> Matrix3,
) -> InstanceTransform {
    if instance.display.screen_space() {
        let m = effective(instance.display, instance.world_transform, view);
        InstanceTransform {
            effective_transform: m,
            effective_normal_matrix: normal(m),
            ..instance
        }
    } else {
        instance
    }
}

/// A batch as the view draws it.
pub open spec fn drawn_batch(
    batch: DrawBatchModel,
    view: PickView,
    effective: spec_fn(DisplayBehavior, Matrix4, PickView) -> Matrix4,
    normal: spec_fn(Matrix4) -> Matrix3,
) -> DrawBatchModel {
    DrawBatchModel {
        instances: batch.instances.map_values(
            |i: InstanceTransform| drawn(i, view, effective, normal),
        ),
        ..batch
    }
}

/// Overwrites the effective transform of every instance of a batch that requests a
/// camera-dependent presentation.
fn place_batch<
    E: Fn(DisplayBehavior, Matrix4, PickView) -> Matrix4,
    N: Fn(Matrix4) -> Matrix3,
>(batch: DrawBatch, view: PickView, effective: &E, normal: &N) -> (placed: DrawBatch)
    requires
        definite3(*effective),
        definite1(*normal),
    ensures
        placed@ == drawn_batch(batch@, view, value3(*effective), value1(*normal)),
{
    let ghost given = batch@;
    let mut batch = batch;
    let mut instances: Vec<InstanceTransform> = Vec::new();
    let mut i: usize = 0;
    while i < batch.instances.len()
        invariant
            i <= batch.instances.len(),
            definite3(*effective),
            definite1(*normal),
            batch@ == given,
            instances.len() == i,
            forall|j: int|
                0 <= j < i ==> (#[trigger] instances@[j]) == drawn(
                    given.instances[j],
                    view,
                    value3(*effective),
                    value1(*normal),
                ),
        decreases batch.instances.len() - i,
    {
        let mut instance = batch.instances[i];
        if instance.display.is_screen_space() {
            let m = apply3(effective, instance.display, instance.world_transform, view);
            instance.effective_transform = m;
            instance.effective_normal_matrix = apply1(normal, m);
        }
        instances.push(instance);
        i = i + 1;
    }
    batch.instances = instances;
    proof {
        assert(batch@ =~= drawn_batch(given, view, value3(*effective), value1(*normal)));
    }
    batch
}

/// Overwrites the effective transform of every instance that requests a
/// camera-dependent presentation. Ordinary instances are left untouched: their
/// effective transform already equals the camera-independent world transform.
pub fn apply_screen_space_transforms<
    E: Fn(DisplayBehavior, Matrix4, PickView) -> Matrix4,
    N: Fn(Matrix4) -> Matrix3,
>(batches: &mut Vec<DrawBatch>, view: PickView, effective: &E, normal: &N)
    requires
        definite3(*effective),
        definite1(*normal),
    ensures
        batch_views(final(batches)@) == batch_views(old(batches)@).map_values(
            |b: DrawBatchModel| drawn_batch(b, view, value3(*effective), value1(*normal)),
        ),
{
    let ghost given = batch_views(batches@);
    let ghost f = |b: DrawBatchModel|
        drawn_batch(b, view, value3(*effective), value1(*normal));
    let mut all: Vec<DrawBatch> = Vec::new();
    std::mem::swap(&mut all, batches);
    let mut turned: Vec<DrawBatch> = Vec::new();
    proof {
        assert(batch_views(all@) =~= given);
    }
    while all.len() > 0
        invariant
            definite3(*effective),
            definite1(*normal),
            f == (|b: DrawBatchModel|
                drawn_batch(b, view, value3(*effective), value1(*normal))),
            all.len() <= given.len(),
            batch_views(all@) == given.take(all.len() as int),
            turned.len() == given.len() - all.len(),
            forall|i: int|
                0 <= i < turned.len() ==> (#[trigger] batch_views(turned@)[i]) == f(
                    given[given.len() - 1 - i],
                ),
        decreases all.len(),
    {
        let ghost a = batch_views(all@);
        let ghost t = batch_views(turned@);
        if let Some(batch) = all.pop() {
            let ghost b = batch@;
            proof {
                assert(a.last() == b);
                assert(batch_views(all@) =~= a.drop_last());
                assert(batch_views(all@) =~= given.take(all.len() as int));
            }
            let placed = place_batch(batch, view, effective, normal);
            turned.push(placed);
            proof {
                assert(batch_views(turned@) =~= t.push(f(b)));
            }
        }
    }
    let mut result: Vec<DrawBatch> = Vec::new();
    while turned.len() > 0
        invariant
            turned.len() + result.len() == given.len(),
            forall|i: int|
                0 <= i < turned.len() ==> (#[trigger] batch_views(turned@)[i]) == f(
                    given[given.len() - 1 - i],
                ),
            forall|i: int|
                0 <= i < result.len() ==> (#[trigger] batch_views(result@)[i]) == f(given[i]),
        decreases turned.len(),
    {
        let ghost t = batch_views(turned@);
        let ghost r = batch_views(result@);
        if let Some(batch) = turned.pop() {
            let ghost b = batch@;
            proof {
                assert(t.last() == b);
                assert(t[t.len() - 1] == f(given[given.len() - t.len()]));
            }
            result.push(batch);
            proof {
                assert(batch_views(turned@) =~= t.drop_last());
                assert(batch_views(result@) =~= r.push(b));
                assert forall|i: int| 0 <= i < turned.len() implies (#[trigger] batch_views(
                    turned@,
                )[i]) == f(given[given.len() - 1 - i]) by {
                    assert(t[i] == f(given[given.len() - 1 - i]));
                }
            }
        }
    }
    proof {
        assert(batch_views(result@) =~= given.map_values(f));
    }
    std::mem::swap(&mut result, batches);
}

/// Ordinary instances are drawn where they are, whatever the view.
pub proof fn ordinary_instances_stay(
    instance: InstanceTransform,
    view: PickView,
    effective: spec_fn(DisplayBehavior, Matrix4, PickView) -> Matrix4,
    normal: spec_fn(Matrix4) -> Matrix3,
)
    ensures
        !instance.display.screen_space() ==> drawn(instance, view, effective, normal) == instance,
        drawn(instance, view, effective, normal).world_transform == instance.world_transform,
        drawn(instance, view, effective, normal).node_id == instance.node_id,
{
}

} // verus!
