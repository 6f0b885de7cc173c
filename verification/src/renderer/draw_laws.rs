//! What the draw data of a frame is for: everything that is shown is drawn, opaque before
//! blended and blended from far to near, the overlay apart, and what is highlighted once
//! more, down to the very primitives of a highlighted face, edge or point.

use crate::common::{order_key, Matrix4, Point3, Scalar};
use crate::data::model::SceneModel;
use crate::geom_query::pick_query::PickView;
use crate::renderer::batching::{all_items, keys_distinct, negation, DrawBatchModel, DrawItem};
use crate::renderer::batching_laws::{partition_keeps_batches, parts_of};
use crate::renderer::draw_data::{
    arranged, draw_data, item_of_node, kind_elements, node_elements, on_overlay, range_fits,
    DrawArithmetic, Element, Highlight, NodeElements, SubGeomBatch,
};
use crate::renderer::frame::InstanceTransform;
use crate::renderer::transparency::{
    batch_distance, blended_batches, drawn, drawn_batch, far_to_near, far_to_near_is_stable,
    gathered, opaque_batches, split_loses_nothing,
};
use crate::resource::display::RenderLayer;
use crate::resource::mesh::{PrimitiveType, SubGeometryElement, SubGeometryKind, SubMeshRange};
use vstd::prelude::*;
use vstd::seq_lib::group_to_multiset_ensures;

verus! {

/// How many indices one element of a primitive takes: three for a triangle of a face, two
/// for a segment of an edge, one for a point.
pub open spec fn corners_of(kind: SubGeometryKind) -> int {
    match kind {
        SubGeometryKind::Face => 3,
        SubGeometryKind::Edge => 2,
        SubGeometryKind::Point => 1,
    }
}

/// The primitive that a raw index belongs to.
pub open spec fn primitive_at(kind: SubGeometryKind, raw: int) -> int {
    match kind {
        SubGeometryKind::Face => raw / 3,
        SubGeometryKind::Edge => raw / 2,
        SubGeometryKind::Point => raw,
    }
}

/// The range of primitives of an element of a mesh, if the mesh has such an element.
pub open spec fn range_of(m: SceneModel, mesh: u64, of: SubGeometryElement) -> Option<
    SubMeshRange,
> {
    match m.meshes[mesh].topology {
        None => None,
        Some(topology) => match of.kind {
            SubGeometryKind::Face => if of.index < topology.face_ranges.len() {
                Some(topology.face_ranges[of.index as int])
            } else {
                None
            },
            SubGeometryKind::Edge => if of.index < topology.edge_ranges.len() {
                Some(topology.edge_ranges[of.index as int])
            } else {
                None
            },
            SubGeometryKind::Point => if of.index < topology.pointset_ranges.len() {
                Some(topology.pointset_ranges[of.index as int])
            } else {
                None
            },
        },
    }
}

/// Whether the raw indices of a draw call are exactly those of the primitives of a range.
pub open spec fn covers_range(
    b: SubGeomBatch,
    kind: SubGeometryKind,
    range: Option<SubMeshRange>,
) -> bool {
    &&& range is Some
    &&& primitive_at(kind, b.first_index as int) == range->0.start
    &&& b.first_index as int % corners_of(kind) == 0
    &&& b.index_count as int == corners_of(kind) * range->0.count
    &&& forall|raw: int|
        b.first_index <= raw < b.first_index + b.index_count <==> range->0.start
            <= #[trigger] primitive_at(kind, raw) < range->0.start + range->0.count
}

proof fn lemma_item_of_node(items: Seq<DrawItem>, node: u64)
    ensures
        item_of_node(items, node) is None <==> forall|i: int|
            0 <= i < items.len() ==> (#[trigger] items[i]).instance.node_id != node,
        item_of_node(items, node) is Some ==> exists|i: int|
            0 <= i < items.len() && (#[trigger] items[i]).instance == item_of_node(items, node)->0
                && items[i].instance.node_id == node,
    decreases items.len(),
{
    if items.len() > 0 {
        let front = items.drop_last();
        lemma_item_of_node(front, node);
        if items.last().instance.node_id == node {
            assert(items[items.len() - 1].instance.node_id == node);
        } else if item_of_node(front, node) is Some {
            let i = choose|i: int|
                0 <= i < front.len() && (#[trigger] front[i]).instance == item_of_node(
                    front,
                    node,
                )->0 && front[i].instance.node_id == node;
            assert(items[i].instance.node_id == node);
        } else {
            assert forall|i: int| 0 <= i < items.len() implies (#[trigger] items[i]).instance.node_id
                != node by {
                if i < front.len() {
                    assert(front[i].instance.node_id != node);
                }
            }
        }
    }
}

/// The raw indices of a highlighted element's draw call are exactly those of the
/// primitives of its range: the call starts at a whole primitive, the first one of the
/// range, and a raw index is drawn if and only if the primitive it belongs to is in the
/// range. The primitives are those of the element's kind, the instance belongs to the
/// element's node and is one that is drawn, and the mesh is that of the instance.
pub proof fn highlighted_elements_are_drawn_whole(
    m: SceneModel,
    items: Seq<DrawItem>,
    node: u64,
    of: SubGeometryElement,
)
    requires
        m.ranges_fit(),
        m.sub_batch(items, (node, of)) is Some,
    ensures
        ({
            let b = m.sub_batch(items, (node, of))->0;
            let range = range_of(m, b.mesh_id, of);
            &&& range is Some
            &&& primitive_at(of.kind, b.first_index as int) == range->0.start
            &&& b.first_index as int % corners_of(of.kind) == 0
            &&& b.index_count as int == corners_of(of.kind) * range->0.count
            &&& forall|raw: int|
                b.first_index <= raw < b.first_index + b.index_count <==> range->0.start
                    <= #[trigger] primitive_at(of.kind, raw) < range->0.start + range->0.count
            &&& of.kind is Face ==> b.primitive_type == PrimitiveType::TriangleList
            &&& of.kind is Edge ==> b.primitive_type == PrimitiveType::LineList
            &&& of.kind is Point ==> b.primitive_type == PrimitiveType::PointList
            &&& b.instance_transform.node_id == node
            &&& exists|i: int|
                0 <= i < items.len() && (#[trigger] items[i]).instance == b.instance_transform
            &&& m.instances.contains_key(b.instance_transform.instance_id)
            &&& b.mesh_id == m.instances[b.instance_transform.instance_id].mesh.id
        }),
{
    let b = m.sub_batch(items, (node, of))->0;
    lemma_item_of_node(items, node);
    let topology = m.meshes[b.mesh_id].topology->0;
    let range = topology.ranges(of.kind)[of.index as int];
    assert(range_fits(range, of.kind));
    assert(range_of(m, b.mesh_id, of) == Some(range));
    match of.kind {
        SubGeometryKind::Face => {
            assert(b.first_index == range.start * 3);
            assert(b.index_count == range.count * 3);
            assert(b.first_index as int % 3 == 0);
        },
        SubGeometryKind::Edge => {
            assert(b.first_index == range.start * 2);
            assert(b.index_count == range.count * 2);
            assert(b.first_index as int % 2 == 0);
        },
        SubGeometryKind::Point => {
            assert(b.first_index == range.start * 1);
            assert(b.index_count == range.count * 1);
            assert(b.first_index as int % 1 == 0);
        },
    }
}

/// An element is drawn if and only if its node is drawn and its mesh has such an element,
/// whichever of the node's instances is taken: they all show the same one.
pub proof fn highlighted_elements_are_drawn_when_shown(
    m: SceneModel,
    items: Seq<DrawItem>,
    node: u64,
    of: SubGeometryElement,
    i: int,
)
    requires
        0 <= i < items.len(),
        items[i].instance.node_id == node,
        forall|j: int|
            0 <= j < items.len() && (#[trigger] items[j]).instance.node_id == node
                ==> items[j].instance.instance_id == items[i].instance.instance_id,
    ensures
        m.sub_batch(items, (node, of)) is Some <==> {
            let id = items[i].instance.instance_id;
            &&& m.instances.contains_key(id)
            &&& m.meshes.contains_key(m.instances[id].mesh.id)
            &&& range_of(m, m.instances[id].mesh.id, of) is Some
        },
{
    lemma_item_of_node(items, node);
}

/// Nothing is drawn of a highlighted element whose node is not drawn.
pub proof fn hidden_elements_are_not_drawn(
    m: SceneModel,
    items: Seq<DrawItem>,
    node: u64,
    of: SubGeometryElement,
)
    requires
        forall|i: int| 0 <= i < items.len() ==> (#[trigger] items[i]).instance.node_id != node,
    ensures
        m.sub_batch(items, (node, of)) is None,
{
    lemma_item_of_node(items, node);
}

proof fn lemma_sub_batches(
    m: SceneModel,
    items: Seq<DrawItem>,
    elements: Seq<Element>,
    primary: Option<Element>,
    want: bool,
)
    ensures
        m.sub_batches(items, elements, primary, want) == elements.filter(
            |e: Element| (primary == Some(e)) == want,
        ).filter_map(|e: Element| m.sub_batch(items, e)),
    decreases elements.len(),
{
    reveal(Seq::filter);
    reveal(Seq::filter_map);
    let test = |e: Element| (primary == Some(e)) == want;
    let call = |e: Element| m.sub_batch(items, e);
    if elements.len() > 0 {
        let front = elements.drop_last();
        lemma_sub_batches(m, items, front, primary, want);
        if test(elements.last()) {
            let chosen = elements.filter(test);
            assert(chosen.drop_last() =~= front.filter(test));
            assert(chosen.last() == elements.last());
        }
        assert(m.sub_batches(items, elements, primary, want) =~= elements.filter(test).filter_map(
            call,
        ));
    } else {
        assert(m.sub_batches(items, elements, primary, want) =~= elements.filter(test).filter_map(
            call,
        ));
    }
}

/// The elements that one of the lists names, for one kind.
pub open spec fn named(of: Seq<NodeElements>, node: u64, index: u32) -> bool {
    exists|i: int, j: int|
        0 <= i < of.len() && of[i].node == node && 0 <= j < of[i].indices@.len()
            && #[trigger] of[i].indices@[j] == index
}

proof fn lemma_kind_elements(kind: SubGeometryKind, of: Seq<NodeElements>, e: Element)
    ensures
        kind_elements(kind, of).contains(e) <==> e.1.kind == kind && named(of, e.0, e.1.index),
    decreases of.len(),
{
    if of.len() > 0 {
        let front = of.drop_last();
        let last = of.last();
        lemma_kind_elements(kind, front, e);
        let all = kind_elements(kind, of);
        let before = kind_elements(kind, front);
        let own = node_elements(kind, last);
        if all.contains(e) {
            let k = choose|k: int| 0 <= k < all.len() && all[k] == e;
            if k < before.len() {
                assert(before[k] == e);
                let (i, j) = choose|i: int, j: int|
                    0 <= i < front.len() && front[i].node == e.0 && 0 <= j
                        < front[i].indices@.len() && #[trigger] front[i].indices@[j] == e.1.index;
                assert(of[i].indices@[j] == e.1.index);
            } else {
                assert(own[k - before.len()] == e);
                assert(of[of.len() - 1].indices@[k - before.len()] == e.1.index);
            }
        }
        if e.1.kind == kind && named(of, e.0, e.1.index) {
            let (i, j) = choose|i: int, j: int|
                0 <= i < of.len() && of[i].node == e.0 && 0 <= j < of[i].indices@.len()
                    && #[trigger] of[i].indices@[j] == e.1.index;
            if i < front.len() {
                assert(front[i].indices@[j] == e.1.index);
                let k = choose|k: int| 0 <= k < before.len() && before[k] == e;
                assert(all[k] == e);
            } else {
                assert(own[j] == e);
                assert(all[before.len() + j] == e);
            }
        }
    }
}

/// The highlighted elements are exactly those that the lists of faces, edges and points
/// name, each of its own kind.
pub proof fn highlights_are_what_is_listed(h: Highlight, e: Element)
    ensures
        h.elements().contains(e) <==> match e.1.kind {
            SubGeometryKind::Face => named(h.faces@, e.0, e.1.index),
            SubGeometryKind::Edge => named(h.edges@, e.0, e.1.index),
            SubGeometryKind::Point => named(h.points@, e.0, e.1.index),
        },
{
    lemma_kind_elements(SubGeometryKind::Face, h.faces@, e);
    lemma_kind_elements(SubGeometryKind::Edge, h.edges@, e);
    lemma_kind_elements(SubGeometryKind::Point, h.points@, e);
    let a = kind_elements(SubGeometryKind::Face, h.faces@);
    let b = kind_elements(SubGeometryKind::Edge, h.edges@);
    let c = kind_elements(SubGeometryKind::Point, h.points@);
    let all = h.elements();
    if all.contains(e) {
        let k = choose|k: int| 0 <= k < all.len() && all[k] == e;
        if k < a.len() {
            assert(a[k] == e);
        } else if k < a.len() + b.len() {
            assert(b[k - a.len()] == e);
        } else {
            assert(c[k - a.len() - b.len()] == e);
        }
    }
    if a.contains(e) {
        let k = choose|k: int| 0 <= k < a.len() && a[k] == e;
        assert(all[k] == e);
    }
    if b.contains(e) {
        let k = choose|k: int| 0 <= k < b.len() && b[k] == e;
        assert(all[a.len() + k] == e);
    }
    if c.contains(e) {
        let k = choose|k: int| 0 <= k < c.len() && c[k] == e;
        assert(all[a.len() + b.len() + k] == e);
    }
}

proof fn lemma_gathered_drawn(
    batch: DrawBatchModel,
    view: PickView,
    math: DrawArithmetic,
    n: nat,
)
    requires
        n <= batch.instances.len(),
    ensures
        gathered(
            drawn_batch(batch, view, math.effective, math.frame.normal).instances.take(n as int),
            math.gather,
        ) == gathered(batch.instances.take(n as int), math.gather),
    decreases n,
{
    let after = drawn_batch(batch, view, math.effective, math.frame.normal).instances;
    if n > 0 {
        lemma_gathered_drawn(batch, view, math, (n - 1) as nat);
        assert(after.take(n as int).drop_last() =~= after.take(n - 1));
        assert(batch.instances.take(n as int).drop_last() =~= batch.instances.take(n - 1));
    }
}

proof fn lemma_distance_drawn(batch: DrawBatchModel, view: PickView, math: DrawArithmetic)
    ensures
        batch_distance(
            drawn_batch(batch, view, math.effective, math.frame.normal),
            view.camera.eye,
            math.gather,
            math.measure,
        ) == batch_distance(batch, view.camera.eye, math.gather, math.measure),
{
    let after = drawn_batch(batch, view, math.effective, math.frame.normal).instances;
    lemma_gathered_drawn(batch, view, math, batch.instances.len());
    assert(after.take(after.len() as int) =~= after);
    assert(batch.instances.take(batch.instances.len() as int) =~= batch.instances);
}

proof fn lemma_split_kinds(batches: Seq<DrawBatchModel>)
    ensures
        forall|i: int|
            0 <= i < opaque_batches(batches).len() ==> !(#[trigger] opaque_batches(
                batches,
            )[i]).transparent(),
        forall|i: int|
            0 <= i < blended_batches(batches).len() ==> (#[trigger] blended_batches(
                batches,
            )[i]).transparent(),
        opaque_batches(batches) == batches.filter(|b: DrawBatchModel| !b.transparent()),
        blended_batches(batches) == batches.filter(|b: DrawBatchModel| b.transparent()),
    decreases batches.len(),
{
    reveal(Seq::filter);
    if batches.len() > 0 {
        lemma_split_kinds(batches.drop_last());
    } else {
        assert(opaque_batches(batches) =~= batches.filter(
            |b: DrawBatchModel| !b.transparent(),
        ));
        assert(blended_batches(batches) =~= batches.filter(
            |b: DrawBatchModel| b.transparent(),
        ));
    }
}

/// What is arranged for a view is what was collected, each batch as the view draws it and
/// none lost: first everything that is not blended, in the order in which it was
/// collected, after it everything that is blended, so that no batch is followed by one
/// that is farther from the eye.
pub proof fn blended_batches_are_drawn_last_and_from_afar(
    collected: Seq<DrawBatchModel>,
    view: PickView,
    math: DrawArithmetic,
)
    ensures
        ({
            let all = arranged(collected, view, math);
            let shown = |b: DrawBatchModel|
                drawn_batch(b, view, math.effective, math.frame.normal);
            let distance = |b: DrawBatchModel|
                batch_distance(b, view.camera.eye, math.gather, math.measure);
            let opaque = collected.filter(|b: DrawBatchModel| !b.transparent());
            &&& exists|order: Seq<DrawBatchModel>| #[trigger]
                order.to_multiset() == collected.to_multiset() && all == order.map_values(shown)
            &&& opaque.len() <= all.len()
            &&& forall|i: int| 0 <= i < opaque.len() ==> #[trigger] all[i] == shown(opaque[i])
            &&& forall|i: int|
                opaque.len() <= i < all.len() ==> (#[trigger] all[i]).transparent()
            &&& forall|i: int, j: int|
                #![trigger all[i], all[j]]
                opaque.len() <= i < j < all.len() ==> order_key(distance(all[i])) >= order_key(
                    distance(all[j]),
                )
        }),
{
    broadcast use group_to_multiset_ensures;

    let all = arranged(collected, view, math);
    let distance = |b: DrawBatchModel|
        batch_distance(b, view.camera.eye, math.gather, math.measure);
    let shown = |b: DrawBatchModel| drawn_batch(b, view, math.effective, math.frame.normal);
    let first = opaque_batches(collected);
    let last = blended_batches(collected);
    let turned = far_to_near(last, distance);
    lemma_split_kinds(collected);
    split_loses_nothing(collected);
    far_to_near_is_stable(last, distance, 0);
    let order = first + turned;
    vstd::seq_lib::lemma_multiset_commutative(first, turned);
    vstd::seq_lib::lemma_multiset_commutative(first, last);
    assert(order.to_multiset() =~= collected.to_multiset());
    assert(all =~= order.map_values(shown));
    assert forall|i: int| first.len() <= i < all.len() implies (#[trigger] all[i]).transparent() by {
        let b = turned[i - first.len()];
        assert(turned.contains(b));
        assert(turned.to_multiset().count(b) > 0);
        assert(last.contains(b));
        let k = choose|k: int| 0 <= k < last.len() && last[k] == b;
        assert(last[k].transparent());
    }
    assert forall|i: int, j: int|
        #![trigger all[i], all[j]]
        first.len() <= i < j < all.len() implies order_key(distance(all[i])) >= order_key(
        distance(all[j]),
    ) by {
        let a = turned[i - first.len()];
        let b = turned[j - first.len()];
        lemma_distance_drawn(a, view, math);
        lemma_distance_drawn(b, view, math);
    }
}

/// The distance of a batch counts every one of its instances once: with one more
/// instance, the translation of that one is gathered too, and the number is one higher.
/// A batch without instances has none.
pub proof fn distances_count_every_instance(
    batch: DrawBatchModel,
    more: InstanceTransform,
    eye: Point3,
    gather: spec_fn(Point3, Matrix4) -> Point3,
    measure: spec_fn(Point3, u64, Point3) -> Scalar,
)
    requires
        batch.instances.len() < u64::MAX,
    ensures
        batch_distance(
            DrawBatchModel { instances: batch.instances.push(more), ..batch },
            eye,
            gather,
            measure,
        ) == measure(
            gather(gathered(batch.instances, gather), more.world_transform),
            (batch.instances.len() + 1) as u64,
            eye,
        ),
        batch.instances.len() == 0 ==> gathered(batch.instances, gather) == (Point3 {
            x: 0,
            y: 0,
            z: 0,
        }) && batch_distance(batch, eye, gather, measure) == 0,
{
    assert(batch.instances.push(more).drop_last() =~= batch.instances);
}

proof fn lemma_arranged_keys(collected: Seq<DrawBatchModel>, view: PickView, math: DrawArithmetic)
    requires
        keys_distinct(collected),
    ensures
        keys_distinct(arranged(collected, view, math)),
{
    broadcast use group_to_multiset_ensures;

    blended_batches_are_drawn_last_and_from_afar(collected, view, math);
    let all = arranged(collected, view, math);
    let shown = |b: DrawBatchModel| drawn_batch(b, view, math.effective, math.frame.normal);
    let order = choose|order: Seq<DrawBatchModel>| #[trigger]
        order.to_multiset() == collected.to_multiset() && all == order.map_values(shown);
    assert(keys_distinct(order)) by {
        assert forall|i: int, j: int|
            #![trigger order[i], order[j]]
            0 <= i < j < order.len() implies order[i].key() != order[j].key() by {
            if order[i].key() == order[j].key() {
                assert(order.contains(order[i]) && order.contains(order[j]));
                assert(order.to_multiset().count(order[i]) > 0);
                assert(order.to_multiset().count(order[j]) > 0);
                assert(collected.contains(order[i]) && collected.contains(order[j]));
                let a = choose|a: int| 0 <= a < collected.len() && collected[a] == order[i];
                let b = choose|b: int| 0 <= b < collected.len() && collected[b] == order[j];
                if a < b {
                    assert(collected[a].key() != collected[b].key());
                } else if b < a {
                    assert(collected[b].key() != collected[a].key());
                } else {
                    lemma_count_twice(order, i, j);
                    lemma_count_once(collected, a);
                }
            }
        }
    }
    assert forall|i: int, j: int|
        #![trigger all[i], all[j]]
        0 <= i < j < all.len() implies all[i].key() != all[j].key() by {
        assert(order[i].key() != order[j].key());
    }
}

proof fn lemma_count_twice(s: Seq<DrawBatchModel>, i: int, j: int)
    requires
        0 <= i < j < s.len(),
        s[i] == s[j],
    ensures
        s.to_multiset().count(s[i]) >= 2,
{
    broadcast use group_to_multiset_ensures;

    let rest = s.remove(j);
    assert(rest[i] == s[i]);
    assert(rest.contains(s[i]));
    assert(rest.to_multiset().count(s[i]) > 0);
    assert(rest.to_multiset() == s.to_multiset().remove(s[j]));
}

proof fn lemma_count_once(s: Seq<DrawBatchModel>, i: int)
    requires
        0 <= i < s.len(),
        keys_distinct(s),
    ensures
        s.to_multiset().count(s[i]) <= 1,
{
    broadcast use group_to_multiset_ensures;

    let rest = s.remove(i);
    if rest.contains(s[i]) {
        let k = choose|k: int| 0 <= k < rest.len() && rest[k] == s[i];
        if k < i {
            assert(s[k].key() != s[i].key());
        } else {
            assert(s[i].key() != s[k + 1].key());
        }
    }
    assert(rest.to_multiset().count(s[i]) == 0);
    assert(rest.to_multiset() == s.to_multiset().remove(s[i]));
}

/// Everything that is arranged for a view is drawn: what is on the overlay layer in the
/// overlay, all else in the ordinary batches, each batch in its place and with its
/// instances in order.
pub proof fn the_overlay_is_kept_apart(
    m: SceneModel,
    collected: Seq<DrawBatchModel>,
    view: PickView,
    highlight: Option<Highlight>,
    math: DrawArithmetic,
)
    requires
        keys_distinct(collected),
    ensures
        draw_data(m, collected, view, highlight, math).batches == parts_of(
            arranged(collected, view, math),
            |i: InstanceTransform| i.display.layer == RenderLayer::Scene,
        ),
        draw_data(m, collected, view, highlight, math).overlay == parts_of(
            arranged(collected, view, math),
            |i: InstanceTransform| i.display.layer == RenderLayer::Overlay,
        ),
        keys_distinct(draw_data(m, collected, view, highlight, math).batches),
{
    lemma_arranged_keys(collected, view, math);
    let all = arranged(collected, view, math);
    let scene = |i: InstanceTransform| i.display.layer == RenderLayer::Scene;
    let overlay = |i: InstanceTransform| i.display.layer == RenderLayer::Overlay;
    assert(negation(on_overlay()) =~= scene);
    assert(on_overlay() =~= overlay);
    partition_keeps_batches(all, scene);
    partition_keeps_batches(all, overlay);
}

/// With an active highlight, the instances of the primary node are outlined, and so are
/// those of every other outlined node, on a tier of their own: no instance is on both, and
/// each is one that is drawn. The primary element is drawn on the first tier too, every
/// other element on the second.
pub proof fn outlines_follow_the_highlight(
    m: SceneModel,
    collected: Seq<DrawBatchModel>,
    view: PickView,
    h: Highlight,
    math: DrawArithmetic,
)
    requires
        keys_distinct(collected),
        !h.is_empty,
    ensures
        ({
            let d = draw_data(m, collected, view, Some(h), math);
            let items = all_items(d.batches);
            &&& d.highlighted == parts_of(
                d.batches,
                |i: InstanceTransform| h.primary_outlined_node == Some(i.node_id),
            )
            &&& d.secondary_highlighted == parts_of(
                d.batches,
                |i: InstanceTransform|
                    h.primary_outlined_node != Some(i.node_id) && exists|k: int|
                        0 <= k < h.outlined_nodes@.len() && #[trigger] h.outlined_nodes@[k]
                            == i.node_id,
            )
            &&& d.sub_geom == h.elements().filter(
                |e: Element| h.primary_sub_geometry == Some(e),
            ).filter_map(|e: Element| m.sub_batch(items, e))
            &&& d.secondary_sub_geom == h.elements().filter(
                |e: Element| h.primary_sub_geometry != Some(e),
            ).filter_map(|e: Element| m.sub_batch(items, e))
            &&& d.config == Some(h.config)
            &&& d.secondary_config == h.secondary_config
        }),
{
    let d = draw_data(m, collected, view, Some(h), math);
    let items = all_items(d.batches);
    the_overlay_is_kept_apart(m, collected, view, Some(h), math);
    let first = |i: InstanceTransform| h.primary_outlined_node == Some(i.node_id);
    let second = |i: InstanceTransform|
        h.primary_outlined_node != Some(i.node_id) && exists|k: int|
            0 <= k < h.outlined_nodes@.len() && #[trigger] h.outlined_nodes@[k] == i.node_id;
    assert(h.primary() =~= first);
    assert(h.secondary() =~= second);
    partition_keeps_batches(d.batches, first);
    partition_keeps_batches(d.batches, second);
    lemma_sub_batches(m, items, h.elements(), h.primary_sub_geometry, true);
    lemma_sub_batches(m, items, h.elements(), h.primary_sub_geometry, false);
    let p = |e: Element| h.primary_sub_geometry == Some(e);
    let q = |e: Element| h.primary_sub_geometry != Some(e);
    assert((|e: Element| (h.primary_sub_geometry == Some(e)) == true) =~= p);
    assert((|e: Element| (h.primary_sub_geometry == Some(e)) == false) =~= q);
}

/// A screen-space instance is drawn where the view puts it, with the normals that go with
/// that place; nothing else of it changes, and an ordinary instance does not change at
/// all.
pub proof fn views_place_screen_space_instances(
    placed: InstanceTransform,
    view: PickView,
    math: DrawArithmetic,
)
    ensures
        ({
            let after = drawn(placed, view, math.effective, math.frame.normal);
            let fixed = placed.display.screen_size is None && !placed.display.screen_facing;
            &&& fixed ==> after == placed
            &&& !fixed ==> after.effective_transform == (math.effective)(
                placed.display,
                placed.world_transform,
                view,
            )
            &&& !fixed ==> after.effective_normal_matrix == (math.frame.normal)(
                after.effective_transform,
            )
            &&& after.node_id == placed.node_id
            &&& after.instance_id == placed.instance_id
            &&& after.world_transform == placed.world_transform
            &&& after.normal_matrix == placed.normal_matrix
            &&& after.display == placed.display
        }),
{
}

/// A view draws every instance of a batch, each in its place, and changes nothing else of
/// the batch.
pub proof fn views_place_every_instance(
    batch: DrawBatchModel,
    view: PickView,
    math: DrawArithmetic,
    i: int,
)
    requires
        0 <= i < batch.instances.len(),
    ensures
        ({
            let after = drawn_batch(batch, view, math.effective, math.frame.normal);
            &&& after.instances.len() == batch.instances.len()
            &&& after.instances[i] == drawn(
                batch.instances[i],
                view,
                math.effective,
                math.frame.normal,
            )
            &&& after.mesh_id == batch.mesh_id
            &&& after.material == batch.material
            &&& after.material_props == batch.material_props
            &&& after.primitive_type == batch.primitive_type
            &&& after.index_count == batch.index_count
        }),
{
}

/// Highlighted faces are drawn first, then edges, then points.
pub proof fn faces_are_highlighted_before_edges_and_points(h: Highlight, i: int, j: int)
    requires
        0 <= i < j < h.elements().len(),
    ensures
        h.elements()[i].1.kind is Point ==> h.elements()[j].1.kind is Point,
        h.elements()[i].1.kind is Edge ==> !(h.elements()[j].1.kind is Face),
{
    let a = kind_elements(SubGeometryKind::Face, h.faces@);
    let b = kind_elements(SubGeometryKind::Edge, h.edges@);
    let c = kind_elements(SubGeometryKind::Point, h.points@);
    let all = h.elements();
    let (x, y) = (all[i], all[j]);
    lemma_kind_elements(SubGeometryKind::Face, h.faces@, x);
    lemma_kind_elements(SubGeometryKind::Edge, h.edges@, x);
    lemma_kind_elements(SubGeometryKind::Edge, h.edges@, y);
    lemma_kind_elements(SubGeometryKind::Point, h.points@, x);
    lemma_kind_elements(SubGeometryKind::Point, h.points@, y);
    if i < a.len() {
        assert(a[i] == x);
        assert(a.contains(x));
    } else if i < a.len() + b.len() {
        assert(b[i - a.len()] == x);
        assert(b.contains(x));
    }
    if j >= a.len() + b.len() {
        assert(c[j - a.len() - b.len()] == y);
        assert(c.contains(y));
    } else if j >= a.len() {
        assert(b[j - a.len()] == y);
        assert(b.contains(y));
    }
    if i >= a.len() + b.len() {
        assert(c[i - a.len() - b.len()] == x);
        assert(c.contains(x));
    }
}

} // verus!
