//! What bounds hold, and when something is missing from them.
//!
//! The bounds of a node hold the box of everything that counts in its subtree, and they
//! are incomplete exactly when something that counts is missing.

use super::bounds::{
    acyclic, geometry_filled, geometry_query_changes_no_transform, join, lemma_bounds_depth,
    lemma_filled_shape, merged, node_filled, Geometry,
};
use super::bounds_coherence::{
    forgotten, lemma_forest_rooted, lemma_forgotten_shape, lemma_forgotten_transform,
    lemma_merged_incomplete, lemma_more_keeps_measured, measured_answers_are_true,
    queries_keep_measured,
};
use super::forest::lemma_same_descends;
use super::model::SceneModel;
use super::tree::{climb_ends, climbs, descends, descent_ends, NodeMap};
use super::visibility::depth_below;
use super::walk::lemma_all_rooted;
use super::world::{transform_of, world};
use super::BoundingResult;
use crate::common::Aabb;
use crate::geom_query::bvh::is_containment;
use crate::resource::handle::{MeshId, NodeId};
use crate::resource::mesh::MeshModel;
use crate::resource::node::{NodePayload, DOES_NOT_CONTRIBUTE_BOUNDING};
use vstd::prelude::*;

verus! {

/// Whether `k` is reached from `id` within `n` steps down, along nodes that all contribute
/// to bounds.
pub open spec fn counts_within(nodes: NodeMap, k: NodeId, id: NodeId, n: nat) -> bool
    decreases n,
{
    &&& nodes.contains_key(id)
    &&& !nodes[id].flags.has(DOES_NOT_CONTRIBUTE_BOUNDING)
    &&& k == id || (n > 0 && exists|i: int|
        0 <= i < nodes[id].children.len() && counts_within(
            nodes,
            k,
            (#[trigger] nodes[id].children[i]).id,
            (n - 1) as nat,
        ))
}

/// Whether `k` counts in the bounds of `id`.
pub open spec fn counts_in(nodes: NodeMap, k: NodeId, id: NodeId) -> bool {
    exists|n: nat| counts_within(nodes, k, id, n)
}

/// Whether no list of children names a node that is not there.
pub open spec fn children_present(nodes: NodeMap) -> bool {
    forall|k: NodeId, i: int|
        nodes.contains_key(k) && 0 <= i < nodes[k].children.len() ==> nodes.contains_key(
            (#[trigger] nodes[k].children[i]).id,
        )
}

proof fn lemma_counts_present(nodes: NodeMap, k: NodeId, id: NodeId, n: nat)
    requires
        counts_within(nodes, k, id, n),
    ensures
        nodes.contains_key(k),
        !nodes[k].flags.has(DOES_NOT_CONTRIBUTE_BOUNDING),
    decreases n,
{
    if k != id {
        let i = choose|i: int|
            0 <= i < nodes[id].children.len() && counts_within(
                nodes,
                k,
                (#[trigger] nodes[id].children[i]).id,
                (n - 1) as nat,
            );
        lemma_counts_present(nodes, k, nodes[id].children[i].id, (n - 1) as nat);
    }
}

/// What is taken together holds each part.
proof fn lemma_merged_holds(
    results: Seq<BoundingResult>,
    merge: spec_fn(Aabb, Aabb) -> Aabb,
    within: spec_fn(Aabb, Aabb) -> bool,
    i: int,
    b: Aabb,
)
    requires
        is_containment(within, merge),
        0 <= i < results.len(),
        results[i].bounds matches Some(x) && within(b, x),
    ensures
        merged(results, merge).bounds matches Some(w) && within(b, w),
    decreases results.len(),
{
    let front = merged(results.drop_last(), merge);
    if i < results.len() - 1 {
        lemma_merged_holds(results.drop_last(), merge, within, i, b);
    }
    lemma_join_holds(front.bounds, results.last().bounds, merge, within, b);
}

proof fn lemma_join_holds(
    x: Option<Aabb>,
    y: Option<Aabb>,
    merge: spec_fn(Aabb, Aabb) -> Aabb,
    within: spec_fn(Aabb, Aabb) -> bool,
    b: Aabb,
)
    requires
        is_containment(within, merge),
        (x matches Some(v) && within(b, v)) || (y matches Some(v) && within(b, v)),
    ensures
        join(x, y, merge) matches Some(w) && within(b, w),
{
    if let (Some(p), Some(q)) = (x, y) {
        let w = merge(p, q);
        assert(within(p, w) && within(q, w));
    }
}

proof fn lemma_bounds_hold(
    m: SceneModel,
    k: NodeId,
    id: NodeId,
    n: nat,
    depth: nat,
    b: Aabb,
    within: spec_fn(Aabb, Aabb) -> bool,
    geo: Geometry,
)
    requires
        is_containment(within, geo.merge),
        counts_within(m.nodes, k, id, n),
        descends(m.nodes, id, depth),
        m.own_bounds(k, geo) == Some(Some(b)),
    ensures
        m.unmeasured().own_bounds(k, geo) == m.own_bounds(k, geo) ==> (
        m.unmeasured().bounds_within(id, depth, geo).bounds matches Some(w) && within(b, w)),
    decreases n,
{
    let bare = m.unmeasured();
    assert(bare.nodes.contains_key(id));
    if bare.own_bounds(k, geo) == m.own_bounds(k, geo) {
        let results = if depth > 0 {
            bare.child_bounds(id, (depth - 1) as nat, geo)
        } else {
            Seq::empty()
        };
        let below = merged(results, geo.merge);
        if k == id {
            assert(within(b, b));
            lemma_join_holds(Some(b), below.bounds, geo.merge, within, b);
        } else {
            let i = choose|i: int|
                0 <= i < m.nodes[id].children.len() && counts_within(
                    m.nodes,
                    k,
                    (#[trigger] m.nodes[id].children[i]).id,
                    (n - 1) as nat,
                );
            let c = m.nodes[id].children[i].id;
            assert(descends(m.nodes, m.nodes[id].children[i].id, (depth - 1) as nat));
            lemma_bounds_hold(m, k, c, (n - 1) as nat, (depth - 1) as nat, b, within, geo);
            assert(results[i] == bare.bounds_within(c, (depth - 1) as nat, geo));
            lemma_merged_holds(results, geo.merge, within, i, b);
            if let Some(own) = bare.own_bounds(id, geo) {
                lemma_join_holds(own, below.bounds, geo.merge, within, b);
            }
        }
    }
}

/// The bounds of a node hold the box of every node that counts in them: bounds include
/// all descendants.
pub proof fn bounds_include_all_descendants(
    m: SceneModel,
    k: NodeId,
    id: NodeId,
    b: Aabb,
    within: spec_fn(Aabb, Aabb) -> bool,
    geo: Geometry,
)
    requires
        m.measured_right(geo),
        acyclic(m.nodes),
        is_containment(within, geo.merge),
        counts_in(m.nodes, k, id),
        m.own_bounds(k, geo) == Some(Some(b)),
    ensures
        m.bounds_of(id, geo).bounds matches Some(w) && within(b, w),
{
    let n = choose|n: nat| counts_within(m.nodes, k, id, n);
    assert(descent_ends(m.nodes, id));
    let depth = depth_below(m.nodes, id);
    lemma_counts_present(m.nodes, k, id, n);
    lemma_own_anew(m, k, geo);
    lemma_bounds_hold(m, k, id, n, depth, b, within, geo);
    lemma_forgotten_shape(m.nodes);
    lemma_same_descends(m.nodes, forgotten(m.nodes), id, depth);
    lemma_bounds_depth(m.unmeasured(), id, depth, geo);
    measured_answers_are_true(m, id, geo);
}

/// Where caches are right, a node carries what it carries if nothing were cached.
proof fn lemma_own_anew(m: SceneModel, k: NodeId, geo: Geometry)
    requires
        m.measured_right(geo),
        acyclic(m.nodes),
        m.nodes.contains_key(k),
    ensures
        m.unmeasured().own_bounds(k, geo) == m.own_bounds(k, geo),
{
    assert(climb_ends(m.nodes, k));
    lemma_forgotten_transform(m.nodes, k, geo.compose);
    assert(m.unmeasured().nodes[k].payload == m.nodes[k].payload);
}

/// Taken together, results are incomplete only when one of them is.
proof fn lemma_merged_complete(results: Seq<BoundingResult>, merge: spec_fn(Aabb, Aabb) -> Aabb)
    requires
        forall|i: int| 0 <= i < results.len() ==> !(#[trigger] results[i]).incomplete,
    ensures
        !merged(results, merge).incomplete,
    decreases results.len(),
{
    if results.len() > 0 {
        assert(!results[results.len() - 1].incomplete);
        assert forall|i: int| 0 <= i < results.drop_last().len() implies !(
        #[trigger] results.drop_last()[i]).incomplete by {
            assert(results.drop_last()[i] == results[i]);
        }
        lemma_merged_complete(results.drop_last(), merge);
    }
}

/// Whether something of what a node carries is missing, and the node counts in `id`.
pub open spec fn misses(m: SceneModel, k: NodeId, id: NodeId, geo: Geometry) -> bool {
    counts_in(m.nodes, k, id) && m.own_bounds(k, geo) is None
}

proof fn lemma_incomplete_within(m: SceneModel, id: NodeId, depth: nat, geo: Geometry)
    requires
        m.measured_right(geo),
        acyclic(m.nodes),
        children_present(m.nodes),
        m.nodes.contains_key(id),
        descends(m.nodes, id, depth),
    ensures
        m.unmeasured().bounds_within(id, depth, geo).incomplete <==> exists|k: NodeId| #[trigger]
            misses(m, k, id, geo),
    decreases depth,
{
    let bare = m.unmeasured();
    let all = bare.bounds_within(id, depth, geo);
    let children = m.nodes[id].children;
    assert(bare.nodes.contains_key(id));
    lemma_own_anew(m, id, geo);
    if m.nodes[id].flags.has(DOES_NOT_CONTRIBUTE_BOUNDING) {
        assert forall|k: NodeId| !#[trigger] misses(m, k, id, geo) by {
            if counts_in(m.nodes, k, id) {
                let n = choose|n: nat| counts_within(m.nodes, k, id, n);
            }
        }
    } else {
        let results = if depth > 0 {
            bare.child_bounds(id, (depth - 1) as nat, geo)
        } else {
            Seq::empty()
        };
        if children.len() > 0 {
            assert(descends(m.nodes, m.nodes[id].children[0].id, (depth - 1) as nat));
        }
        assert(results.len() == children.len());
        assert forall|i: int| 0 <= i < children.len() implies ((#[trigger] results[i]).incomplete
            <==> exists|k: NodeId| #[trigger] misses(m, k, children[i].id, geo)) by {
            assert(descends(m.nodes, m.nodes[id].children[i].id, (depth - 1) as nat));
            lemma_incomplete_within(m, children[i].id, (depth - 1) as nat, geo);
        }
        if all.incomplete {
            if m.own_bounds(id, geo) is None {
                assert(counts_within(m.nodes, id, id, 0));
                assert(misses(m, id, id, geo));
            } else {
                if forall|i: int| 0 <= i < results.len() ==> !(#[trigger] results[i]).incomplete {
                    lemma_merged_complete(results, geo.merge);
                }
                let i = choose|i: int|
                    0 <= i < results.len() && (#[trigger] results[i]).incomplete;
                let k = choose|k: NodeId| #[trigger] misses(m, k, children[i].id, geo);
                let n = choose|n: nat| counts_within(m.nodes, k, children[i].id, n);
                assert(counts_within(m.nodes, k, m.nodes[id].children[i].id, n));
                assert(counts_within(m.nodes, k, id, n + 1));
                assert(misses(m, k, id, geo));
            }
        }
        if exists|k: NodeId| #[trigger] misses(m, k, id, geo) {
            let k = choose|k: NodeId| #[trigger] misses(m, k, id, geo);
            let n = choose|n: nat| counts_within(m.nodes, k, id, n);
            if k != id {
                let i = choose|i: int|
                    0 <= i < m.nodes[id].children.len() && counts_within(
                        m.nodes,
                        k,
                        (#[trigger] m.nodes[id].children[i]).id,
                        (n - 1) as nat,
                    );
                assert(misses(m, k, children[i].id, geo));
                assert(results[i].incomplete);
                lemma_merged_incomplete(results, geo.merge, i);
            }
        }
    }
}

/// The bounds of a node are incomplete exactly when something is missing of what a node
/// carries that counts in them.
pub proof fn bounds_are_incomplete_when_something_is_missing(
    m: SceneModel,
    id: NodeId,
    geo: Geometry,
)
    requires
        m.measured_right(geo),
        acyclic(m.nodes),
        children_present(m.nodes),
        m.nodes.contains_key(id),
    ensures
        m.bounds_of(id, geo).incomplete <==> exists|k: NodeId| #[trigger] misses(m, k, id, geo),
{
    assert(descent_ends(m.nodes, id));
    let depth = depth_below(m.nodes, id);
    lemma_incomplete_within(m, id, depth, geo);
    lemma_forgotten_shape(m.nodes);
    lemma_same_descends(m.nodes, forgotten(m.nodes), id, depth);
    lemma_bounds_depth(m.unmeasured(), id, depth, geo);
    measured_answers_are_true(m, id, geo);
}

/// Whether a node carries an instance of a mesh.
pub open spec fn carries(m: SceneModel, k: NodeId, mesh: MeshId) -> bool {
    m.nodes[k].payload.handle() matches Some(h) && m.instances.contains_key(h.id)
        && m.instances[h.id].mesh.id == mesh
}

/// Filling in caches changes nothing about what counts.
proof fn lemma_filled_counts(
    m: SceneModel,
    b: NodeMap,
    geo: Geometry,
    k: NodeId,
    id: NodeId,
    n: nat,
)
    requires
        geometry_filled(m, b, geo),
    ensures
        counts_within(b, k, id, n) == counts_within(m.nodes, k, id, n),
    decreases n,
{
    assert(m.nodes.contains_key(id) == b.contains_key(id));
    if m.nodes.contains_key(id) {
        assert(node_filled(m, b, id, geo));
        let children = m.nodes[id].children;
        if n > 0 {
            assert forall|i: int| 0 <= i < children.len() implies counts_within(
                b,
                k,
                (#[trigger] m.nodes[id].children[i]).id,
                (n - 1) as nat,
            ) == counts_within(m.nodes, k, m.nodes[id].children[i].id, (n - 1) as nat) by {
                lemma_filled_counts(m, b, geo, k, children[i].id, (n - 1) as nat);
            }
            assert(b[id].children == children);
            if counts_within(b, k, id, n) && k != id {
                let i = choose|i: int|
                    0 <= i < b[id].children.len() && counts_within(
                        b,
                        k,
                        (#[trigger] b[id].children[i]).id,
                        (n - 1) as nat,
                    );
                assert(m.nodes[id].children[i] == b[id].children[i]);
            }
            if counts_within(m.nodes, k, id, n) && k != id {
                let i = choose|i: int|
                    0 <= i < m.nodes[id].children.len() && counts_within(
                        m.nodes,
                        k,
                        (#[trigger] m.nodes[id].children[i]).id,
                        (n - 1) as nat,
                    );
                assert(b[id].children[i] == m.nodes[id].children[i]);
            }
        }
    }
}

/// What a node carries once bounds were asked for and a mesh was added.
proof fn lemma_own_with_mesh(
    m: SceneModel,
    b: NodeMap,
    mesh: MeshModel,
    k: NodeId,
    geo: Geometry,
)
    requires
        m.tree(),
        geometry_filled(m, b, geo),
        !m.meshes.contains_key(mesh.id),
        m.nodes.contains_key(k),
    ensures
        m.own_bounds(k, geo) is Some ==> m.with_nodes(b).add_mesh(mesh).own_bounds(k, geo)
            == m.own_bounds(k, geo),
        carries(m, k, mesh.id) ==> m.own_bounds(k, geo) is None && m.with_nodes(b).add_mesh(
            mesh,
        ).own_bounds(k, geo) == Some(
            match mesh.bounds {
                Some(x) => Some((geo.place)(x, world(m.nodes, k, geo.compose))),
                None => None,
            },
        ),
{
    let after = m.with_nodes(b).add_mesh(mesh);
    assert(node_filled(m, b, k, geo));
    assert(climb_ends(m.nodes, k));
    geometry_query_changes_no_transform(m, b, geo, k);
    let up = choose|up: nat| climbs(m.nodes, k, up);
    lemma_forest_rooted(m.nodes, k, up);
    assert(transform_of(m.nodes, k, geo.compose) == Some(world(m.nodes, k, geo.compose)));
    assert(after.nodes[k].payload == m.nodes[k].payload);
}

/// Bounds that were asked for while a mesh was missing are computed anew once it is added,
/// for the node that carries it and for every node above in whose bounds it counts:
///
/// - before, they were incomplete, and so not cached;
/// - afterwards they hold the box of the mesh, in its place;
/// - and they are complete when nothing but this mesh was missing.
pub proof fn missing_mesh_completes_bounds(
    m: SceneModel,
    queried: NodeMap,
    mesh: MeshModel,
    k: NodeId,
    id: NodeId,
    within: spec_fn(Aabb, Aabb) -> bool,
    geo: Geometry,
)
    requires
        m.tree(),
        children_present(m.nodes),
        m.measured_right(geo),
        geometry_filled(m, queried, geo),
        !m.meshes.contains_key(mesh.id),
        counts_in(m.nodes, k, id),
        carries(m, k, mesh.id),
        is_containment(within, geo.merge),
    ensures
        m.bounds_of(id, geo).incomplete,
        queried[id].bounds_cache is None,
        ({
            let after = m.with_nodes(queried).add_mesh(mesh);
            &&& after.measured_right(geo)
            &&& after.bounds_of(id, geo) == after.unmeasured().bounds_of(id, geo)
            &&& mesh.bounds matches Some(b) ==> (after.bounds_of(id, geo).bounds matches Some(w)
                && within((geo.place)(b, world(m.nodes, k, geo.compose)), w))
            &&& (forall|x: NodeId| #[trigger]
                misses(m, x, id, geo) ==> carries(m, x, mesh.id)) ==> !after.bounds_of(
                id,
                geo,
            ).incomplete
        }),
{
    let q = m.with_nodes(queried);
    let after = q.add_mesh(mesh);
    let n = choose|n: nat| counts_within(m.nodes, k, id, n);
    lemma_counts_present(m.nodes, k, id, n);
    lemma_own_with_mesh(m, queried, mesh, k, geo);
    assert(m.nodes.contains_key(id));
    assert(misses(m, k, id, geo));
    bounds_are_incomplete_when_something_is_missing(m, id, geo);
    assert(node_filled(m, queried, id, geo));
    if m.nodes[id].bounds_cache is Some {
        assert(m.bounds_right(id, geo));
        measured_answers_are_true(m, id, geo);
    }
    queries_keep_measured(m, queried, geo);
    lemma_filled_shape(m, queried, geo);
    assert(m.meshes.submap_of(after.meshes));
    assert(q.instances.submap_of(after.instances));
    lemma_more_keeps_measured(q, after, geo);
    measured_answers_are_true(after, id, geo);
    lemma_filled_counts(m, queried, geo, k, id, n);
    assert(counts_in(after.nodes, k, id));
    if let Some(b) = mesh.bounds {
        let placed = (geo.place)(b, world(m.nodes, k, geo.compose));
        bounds_include_all_descendants(after, k, id, placed, within, geo);
    }
    assert(children_present(after.nodes)) by {
        assert forall|p: NodeId, i: int|
            after.nodes.contains_key(p) && 0 <= i < after.nodes[p].children.len() implies
            after.nodes.contains_key((#[trigger] after.nodes[p].children[i]).id) by {
            assert(m.nodes.contains_key(p));
            assert(after.nodes[p].children[i] == m.nodes[p].children[i]);
        }
    }
    bounds_are_incomplete_when_something_is_missing(after, id, geo);
    if (forall|x: NodeId| #[trigger] misses(m, x, id, geo) ==> carries(m, x, mesh.id))
        && after.bounds_of(id, geo).incomplete {
        let x = choose|x: NodeId| #[trigger] misses(after, x, id, geo);
        let j = choose|j: nat| counts_within(after.nodes, x, id, j);
        lemma_filled_counts(m, queried, geo, x, id, j);
        lemma_counts_present(m.nodes, x, id, j);
        lemma_own_with_mesh(m, queried, mesh, x, geo);
        assert(misses(m, x, id, geo));
        assert(false);
    }
}

/// Whether what `merge` gives is within every box that both of its boxes are within.
pub open spec fn merges_tightly(
    within: spec_fn(Aabb, Aabb) -> bool,
    merge: spec_fn(Aabb, Aabb) -> Aabb,
) -> bool {
    forall|a: Aabb, b: Aabb, w: Aabb|
        within(a, w) && within(b, w) ==> #[trigger] within(merge(a, b), w)
}

/// Whether a result has no bounds, or bounds within `w`.
pub open spec fn fits_in(
    result: BoundingResult,
    within: spec_fn(Aabb, Aabb) -> bool,
    w: Aabb,
) -> bool {
    result.bounds matches Some(b) ==> within(b, w)
}

/// What is taken together is there exactly when some part is.
proof fn lemma_merged_empty(results: Seq<BoundingResult>, merge: spec_fn(Aabb, Aabb) -> Aabb)
    ensures
        merged(results, merge).bounds is None <==> forall|i: int|
            0 <= i < results.len() ==> (#[trigger] results[i]).bounds is None,
    decreases results.len(),
{
    if results.len() > 0 {
        let front = results.drop_last();
        lemma_merged_empty(front, merge);
        assert(results[results.len() - 1] == results.last());
        if merged(results, merge).bounds is None {
            assert forall|i: int| 0 <= i < results.len() implies (
            #[trigger] results[i]).bounds is None by {
                if i < front.len() {
                    assert(front[i].bounds is None);
                }
            }
        }
        if forall|i: int| 0 <= i < results.len() ==> (#[trigger] results[i]).bounds is None {
            assert forall|i: int| 0 <= i < front.len() implies (
            #[trigger] front[i]).bounds is None by {
                assert(results[i].bounds is None);
            }
        }
    }
}

/// What is taken together is within every box that all parts are within.
proof fn lemma_merged_tight(
    results: Seq<BoundingResult>,
    merge: spec_fn(Aabb, Aabb) -> Aabb,
    within: spec_fn(Aabb, Aabb) -> bool,
    w: Aabb,
)
    requires
        merges_tightly(within, merge),
        forall|i: int| 0 <= i < results.len() ==> fits_in(#[trigger] results[i], within, w),
    ensures
        fits_in(merged(results, merge), within, w),
    decreases results.len(),
{
    if results.len() > 0 {
        let front = results.drop_last();
        assert forall|i: int| 0 <= i < front.len() implies fits_in(
            #[trigger] front[i],
            within,
            w,
        ) by {
            assert(fits_in(results[i], within, w));
        }
        lemma_merged_tight(front, merge, within, w);
        assert(fits_in(results[results.len() - 1], within, w));
        if let (Some(p), Some(q)) = (merged(front, merge).bounds, results.last().bounds) {
            assert(within(merge(p, q), w));
        }
    }
}

/// The bounds of the scene are the smallest box that holds the bounds of every root: they
/// are missing exactly when every root's are, each root's are within them, and they are
/// within every box that each root's are within. They are incomplete exactly when some
/// root's are.
pub proof fn scene_bounds_are_the_smallest(
    m: SceneModel,
    within: spec_fn(Aabb, Aabb) -> bool,
    geo: Geometry,
    w: Aabb,
)
    requires
        is_containment(within, geo.merge),
        merges_tightly(within, geo.merge),
    ensures
        m.scene_bounds(geo).bounds is None <==> forall|i: int|
            0 <= i < m.roots.len() ==> m.bounds_of((#[trigger] m.roots[i]).id, geo).bounds is None,
        m.scene_bounds(geo).bounds matches Some(all) ==> forall|i: int|
            0 <= i < m.roots.len() ==> fits_in(
                m.bounds_of((#[trigger] m.roots[i]).id, geo),
                within,
                all,
            ),
        (forall|i: int|
            0 <= i < m.roots.len() ==> fits_in(
                m.bounds_of((#[trigger] m.roots[i]).id, geo),
                within,
                w,
            )) ==> fits_in(m.scene_bounds(geo), within, w),
        m.scene_bounds(geo).incomplete <==> exists|i: int|
            0 <= i < m.roots.len() && m.bounds_of((#[trigger] m.roots[i]).id, geo).incomplete,
{
    let results = Seq::new(m.roots.len(), |i: int| m.bounds_of(m.roots[i].id, geo));
    let all = m.scene_bounds(geo);
    assert forall|i: int| 0 <= i < m.roots.len() implies results[i] == m.bounds_of(
        (#[trigger] m.roots[i]).id,
        geo,
    ) by {}
    lemma_root_results(m, geo, results);
    if let Some(b) = all.bounds {
        assert forall|i: int| 0 <= i < m.roots.len() implies fits_in(
            m.bounds_of((#[trigger] m.roots[i]).id, geo),
            within,
            b,
        ) by {
            if let Some(x) = results[i].bounds {
                assert(within(x, x));
                lemma_merged_holds(results, geo.merge, within, i, x);
            }
        }
    }
    if forall|i: int|
        0 <= i < m.roots.len() ==> fits_in(
            m.bounds_of((#[trigger] m.roots[i]).id, geo),
            within,
            w,
        ) {
        assert forall|i: int| 0 <= i < results.len() implies fits_in(
            #[trigger] results[i],
            within,
            w,
        ) by {
            assert(fits_in(m.bounds_of(m.roots[i].id, geo), within, w));
        }
        lemma_merged_tight(results, geo.merge, within, w);
    }
}

/// When the bounds of the scene are missing, and when incomplete.
proof fn lemma_root_results(m: SceneModel, geo: Geometry, results: Seq<BoundingResult>)
    requires
        results == Seq::new(m.roots.len(), |i: int| m.bounds_of(m.roots[i].id, geo)),
    ensures
        m.scene_bounds(geo).bounds is None <==> forall|i: int|
            0 <= i < m.roots.len() ==> m.bounds_of((#[trigger] m.roots[i]).id, geo).bounds is None,
        m.scene_bounds(geo).incomplete <==> exists|i: int|
            0 <= i < m.roots.len() && m.bounds_of((#[trigger] m.roots[i]).id, geo).incomplete,
{
    lemma_merged_empty(results, geo.merge);
    assert forall|i: int| 0 <= i < m.roots.len() implies results[i] == m.bounds_of(
        (#[trigger] m.roots[i]).id,
        geo,
    ) by {}
    if m.scene_bounds(geo).bounds is None {
        assert forall|i: int| 0 <= i < m.roots.len() implies m.bounds_of(
            (#[trigger] m.roots[i]).id,
            geo,
        ).bounds is None by {
            assert(results[i].bounds is None);
        }
    }
    if forall|i: int|
        0 <= i < m.roots.len() ==> m.bounds_of((#[trigger] m.roots[i]).id, geo).bounds is None {
        assert forall|i: int| 0 <= i < results.len() implies (
        #[trigger] results[i]).bounds is None by {
            assert(m.bounds_of(m.roots[i].id, geo).bounds is None);
        }
    }
    if m.scene_bounds(geo).incomplete {
        if forall|i: int| 0 <= i < results.len() ==> !(#[trigger] results[i]).incomplete {
            lemma_merged_complete(results, geo.merge);
        }
        let i = choose|i: int| 0 <= i < results.len() && (#[trigger] results[i]).incomplete;
        assert(m.bounds_of(m.roots[i].id, geo).incomplete);
    }
    if exists|i: int|
        0 <= i < m.roots.len() && m.bounds_of((#[trigger] m.roots[i]).id, geo).incomplete {
        let i = choose|i: int|
            0 <= i < m.roots.len() && m.bounds_of((#[trigger] m.roots[i]).id, geo).incomplete;
        lemma_merged_incomplete(results, geo.merge, i);
    }
}

proof fn lemma_bounds_tight(
    m: SceneModel,
    id: NodeId,
    depth: nat,
    within: spec_fn(Aabb, Aabb) -> bool,
    geo: Geometry,
    w: Aabb,
)
    requires
        m.measured_right(geo),
        acyclic(m.nodes),
        merges_tightly(within, geo.merge),
        forall|k: NodeId| #[trigger]
            counts_in(m.nodes, k, id) ==> (m.own_bounds(k, geo) matches Some(Some(b)) ==> within(
                b,
                w,
            )),
    ensures
        fits_in(m.unmeasured().bounds_within(id, depth, geo), within, w),
    decreases depth,
{
    let bare = m.unmeasured();
    if m.nodes.contains_key(id) && !m.nodes[id].flags.has(DOES_NOT_CONTRIBUTE_BOUNDING) {
        let children = m.nodes[id].children;
        assert(bare.nodes.contains_key(id));
        lemma_own_anew(m, id, geo);
        assert(counts_within(m.nodes, id, id, 0));
        assert(counts_in(m.nodes, id, id));
        let results = if depth > 0 {
            bare.child_bounds(id, (depth - 1) as nat, geo)
        } else {
            Seq::empty()
        };
        assert forall|i: int| 0 <= i < results.len() implies fits_in(
            #[trigger] results[i],
            within,
            w,
        ) by {
            let c = children[i].id;
            assert forall|k: NodeId| #[trigger] counts_in(m.nodes, k, c) implies (m.own_bounds(
                k,
                geo,
            ) matches Some(Some(b)) ==> within(b, w)) by {
                let n = choose|n: nat| counts_within(m.nodes, k, c, n);
                assert(counts_within(m.nodes, k, m.nodes[id].children[i].id, n));
                assert(counts_within(m.nodes, k, id, n + 1));
                assert(counts_in(m.nodes, k, id));
            }
            lemma_bounds_tight(m, c, (depth - 1) as nat, within, geo, w);
        }
        lemma_merged_tight(results, geo.merge, within, w);
        if let (Some(Some(p)), Some(q)) = (
            bare.own_bounds(id, geo),
            merged(results, geo.merge).bounds,
        ) {
            assert(within((geo.merge)(p, q), w));
        }
    }
}

/// The bounds of a node hold nothing but the boxes of the nodes that count in them: they
/// are within every box that all of those are within.
pub proof fn bounds_include_nothing_else(
    m: SceneModel,
    id: NodeId,
    within: spec_fn(Aabb, Aabb) -> bool,
    geo: Geometry,
    w: Aabb,
)
    requires
        m.measured_right(geo),
        acyclic(m.nodes),
        merges_tightly(within, geo.merge),
        forall|k: NodeId| #[trigger]
            counts_in(m.nodes, k, id) ==> (m.own_bounds(k, geo) matches Some(Some(b)) ==> within(
                b,
                w,
            )),
    ensures
        m.bounds_of(id, geo).bounds matches Some(b) ==> within(b, w),
{
    assert(descent_ends(m.nodes, id));
    let depth = depth_below(m.nodes, id);
    lemma_bounds_tight(m, id, depth, within, geo, w);
    lemma_forgotten_shape(m.nodes);
    lemma_same_descends(m.nodes, forgotten(m.nodes), id, depth);
    lemma_bounds_depth(m.unmeasured(), id, depth, geo);
    measured_answers_are_true(m, id, geo);
}

/// The box of a node itself is that of the mesh of the instance that it carries, put at the
/// world transform of the node. A node that carries no instance, or one of a mesh without
/// extent, has none; and nothing is known of it while the instance or the mesh is missing.
pub proof fn boxes_are_put_where_their_nodes_are(m: SceneModel, k: NodeId, geo: Geometry)
    requires
        m.tree(),
        m.nodes.contains_key(k),
    ensures
        !(m.nodes[k].payload is Instance) ==> m.own_bounds(k, geo) == Some(None::<Aabb>),
        m.nodes[k].payload matches NodePayload::Instance(h) ==> {
            let there = m.instances.contains_key(h.id) && m.meshes.contains_key(
                m.instances[h.id].mesh.id,
            );
            let mesh = m.meshes[m.instances[h.id].mesh.id];
            &&& m.own_bounds(k, geo) is None <==> !there
            &&& there && mesh.bounds is None ==> m.own_bounds(k, geo) == Some(None::<Aabb>)
            &&& there && mesh.bounds is Some ==> m.own_bounds(k, geo) == Some(
                Some((geo.place)(mesh.bounds->0, world(m.nodes, k, geo.compose))),
            )
        },
{
    assert(climb_ends(m.nodes, k));
    let n = choose|n: nat| climbs(m.nodes, k, n);
    lemma_all_rooted(m, k, n);
}

} // verus!
