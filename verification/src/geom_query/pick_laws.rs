//! What picking is for: everything that a query can reach is picked, where it is drawn.

use super::pick_query::{PickModel, PickQuery, PickView};
use super::volume_picking::{
    volume_model, volume_query_moves_with_its_volume, MeshVolumeHit, VolumeMath, VolumePickQuery,
};
use crate::common::{Aabb, Matrix4};
use crate::data::model::{lists_id, SceneModel};
use crate::data::tree::{above, climb_ends, climbs, lemma_above_present, NodeMap};
use crate::data::visibility::depth_below;
use crate::data::walk::{
    comes_through, covers, hangs, lemma_all_rooted, lemma_presents_one,
    lemma_presents_step, lemma_walk_covers, presents, shown_at, visits, visits_list, visits_roots,
};
use crate::data::walk_order::{in_root_order, in_tree_order, lemma_walk_order};
use crate::data::world::world;
use crate::resource::display::DisplayBehavior;
use crate::resource::handle::{Handle, InstanceId, NodeId};
use crate::resource::mesh::{Mesh, MeshModel};
use crate::resource::node::{NodePayload, DO_NOT_SELECT};
use vstd::prelude::*;

verus! {

/// Whether a node, or one above it, asks to be shown in screen space.
pub open spec fn in_screen_space(nodes: NodeMap, k: NodeId) -> bool {
    exists|a: NodeId| #[trigger]
        above(nodes, a, k) && (nodes[a].display.screen_size is Some
            || nodes[a].display.screen_facing)
}

/// Whether a query looks into the subtree of a node: the node can be selected, and the
/// query might meet its bounds. Of a node that a view shows in screen space the bounds
/// say nothing, so there the query always looks.
pub open spec fn lets_in<Q: PickQuery>(
    m: SceneModel,
    query: Q,
    view: Option<PickView>,
    math: PickModel,
) -> spec_fn(NodeId) -> bool {
    |k: NodeId|
        {
            let met = match m.bounds_of(k, math.geo).bounds {
                Some(bounds) => query.might_intersect(bounds),
                None => false,
            };
            &&& m.nodes.contains_key(k)
            &&& !m.nodes[k].flags.has(DO_NOT_SELECT)
            &&& met || (view is Some && in_screen_space(m.nodes, k))
        }
}

/// Where a node is picked: where a view shows it, if it does so in screen space, and else
/// at its world transform.
pub open spec fn picked_at(
    m: SceneModel,
    k: NodeId,
    view: Option<PickView>,
    math: PickModel,
) -> Matrix4 {
    let at = world(m.nodes, k, math.geo.compose);
    if view is Some && in_screen_space(m.nodes, k) {
        (math.effective)(shown_at(m.nodes, k), at, view->0)
    } else {
        at
    }
}

/// What a query hits of the node itself: what it hits of the mesh of the instance that
/// the node carries, in the mesh's own space.
pub open spec fn hits_of<Q: PickQuery>(
    m: SceneModel,
    query: Q,
    k: NodeId,
    view: Option<PickView>,
    math: PickModel,
) -> Seq<Q::Result> {
    let at = picked_at(m, k, view, math);
    match (m.nodes[k].payload, (math.invert)(at)) {
        (NodePayload::Instance(h), Some(into)) => if m.instances.contains_key(h.id)
            && m.meshes.contains_key(m.instances[h.id].mesh.id) {
            query.transformed(into).hits(m.meshes[m.instances[h.id].mesh.id], k, h.id, at)
        } else {
            Seq::empty()
        },
        _ => Seq::empty(),
    }
}

/// What is found at each of several nodes, one after another.
pub open spec fn joined<R>(order: Seq<NodeId>, found: spec_fn(NodeId) -> Seq<R>) -> Seq<R>
    decreases order.len(),
{
    if order.len() == 0 {
        Seq::empty()
    } else {
        joined(order.drop_last(), found) + found(order.last())
    }
}

proof fn lemma_joined_add<R>(a: Seq<NodeId>, b: Seq<NodeId>, found: spec_fn(NodeId) -> Seq<R>)
    ensures
        joined(a + b, found) == joined(a, found) + joined(b, found),
    decreases b.len(),
{
    if b.len() > 0 {
        lemma_joined_add(a, b.drop_last(), found);
        assert((a + b).drop_last() =~= a + b.drop_last());
        assert((a + b).last() == b.last());
        assert(joined(a + b, found) =~= joined(a, found) + joined(b, found));
    } else {
        assert(a + b =~= a);
        assert(joined(a + b, found) =~= joined(a, found) + joined(b, found));
    }
}

proof fn lemma_joined_one<R>(k: NodeId, found: spec_fn(NodeId) -> Seq<R>)
    ensures
        joined(seq![k], found) == found(k),
{
    reveal_with_fuel(joined, 2);
    assert(seq![k].drop_last() =~= Seq::empty());
    assert(joined(seq![k], found) =~= found(k));
}

proof fn lemma_joined_contains<R>(order: Seq<NodeId>, found: spec_fn(NodeId) -> Seq<R>, x: R)
    ensures
        joined(order, found).contains(x) <==> exists|k: NodeId| #[trigger]
            order.contains(k) && found(k).contains(x),
    decreases order.len(),
{
    if order.len() > 0 {
        let front = order.drop_last();
        let last = order.last();
        lemma_joined_contains(front, found, x);
        let all = joined(order, found);
        let was = joined(front, found);
        assert(order[order.len() - 1] == last);
        assert(order.contains(last));
        if all.contains(x) {
            let i = choose|i: int| 0 <= i < all.len() && all[i] == x;
            if i < was.len() {
                assert(was[i] == x);
                let k = choose|k: NodeId| #[trigger] front.contains(k) && found(k).contains(x);
                let j = choose|j: int| 0 <= j < front.len() && front[j] == k;
                assert(order[j] == k);
                assert(order.contains(k));
            } else {
                assert(found(last)[i - was.len()] == x);
                assert(found(last).contains(x));
            }
        }
        if exists|k: NodeId| #[trigger] order.contains(k) && found(k).contains(x) {
            let k = choose|k: NodeId| #[trigger] order.contains(k) && found(k).contains(x);
            if k == last {
                let own = found(k);
                let i = choose|i: int| 0 <= i < own.len() && own[i] == x;
                assert(all[was.len() + i] == x);
            } else {
                let j = choose|j: int| 0 <= j < order.len() && order[j] == k;
                assert(front[j] == k);
                assert(front.contains(k));
                let i = choose|i: int| 0 <= i < was.len() && was[i] == x;
                assert(all[i] == x);
            }
        }
    }
}

/// What a node shows is in screen space if and only if it or a node above it asks for
/// that.
proof fn lemma_screen_space(nodes: NodeMap, k: NodeId, shown: DisplayBehavior)
    requires
        presents(nodes, k, shown),
    ensures
        shown.screen_space() == in_screen_space(nodes, k),
{
    if shown.screen_facing {
        let a = choose|a: NodeId| #[trigger] above(nodes, a, k) && nodes[a].display.screen_facing;
        assert(above(nodes, a, k));
    }
    if shown.screen_size is Some {
        let a = choose|a: NodeId| #[trigger]
            above(nodes, a, k) && nodes[a].display.screen_size is Some;
        assert(above(nodes, a, k));
    }
}

/// At one node, what the walk does is what the links say.
proof fn lemma_pick_here<Q: PickQuery>(
    m: SceneModel,
    query: Q,
    id: NodeId,
    inherited: DisplayBehavior,
    view: Option<PickView>,
    math: PickModel,
)
    requires
        m.tree(),
        m.nodes.contains_key(id),
        match m.nodes[id].parent {
            Some(p) => m.nodes.contains_key(p) && presents(m.nodes, p, inherited),
            None => inherited == DisplayBehavior::ordinary(),
        },
    ensures
        ({
            let display = DisplayBehavior::inherited(inherited, m.nodes[id].display);
            &&& presents(m.nodes, id, display)
            &&& m.explored(query, id, display, view, math) == lets_in(m, query, view, math)(id)
            &&& m.own_hits(query, id, display, view, math) == hits_of(m, query, id, view, math)
        }),
{
    let display = DisplayBehavior::inherited(inherited, m.nodes[id].display);
    lemma_presents_step(m.nodes, id, inherited);
    lemma_presents_one(m.nodes, id, shown_at(m.nodes, id), display);
    lemma_screen_space(m.nodes, id, display);
    assert(climb_ends(m.nodes, id));
    let n = choose|n: nat| climbs(m.nodes, id, n);
    lemma_all_rooted(m, id, n);
}

proof fn lemma_picked_walk<Q: PickQuery>(
    m: SceneModel,
    query: Q,
    id: NodeId,
    n: nat,
    inherited: DisplayBehavior,
    view: Option<PickView>,
    math: PickModel,
)
    requires
        m.tree(),
        m.nodes.contains_key(id) ==> match m.nodes[id].parent {
            Some(p) => m.nodes.contains_key(p) && presents(m.nodes, p, inherited),
            None => inherited == DisplayBehavior::ordinary(),
        },
    ensures
        m.picked_within(query, id, n, inherited, view, math) == joined(
            visits(m.nodes, lets_in(m, query, view, math), id, n),
            |k: NodeId| hits_of(m, query, k, view, math),
        ),
    decreases n, 0nat,
{
    let pass = lets_in(m, query, view, math);
    let found = |k: NodeId| hits_of(m, query, k, view, math);
    if m.nodes.contains_key(id) {
        lemma_pick_here(m, query, id, inherited, view, math);
        if pass(id) {
            let display = DisplayBehavior::inherited(inherited, m.nodes[id].display);
            lemma_joined_one(id, found);
            if n > 0 {
                let ids = m.nodes[id].children;
                assert forall|i: int|
                    0 <= i < ids.len() && m.nodes.contains_key(
                        (#[trigger] ids[i]).id,
                    ) implies m.nodes[ids[i].id].parent == Some(id) by {
                    assert(lists_id(m.nodes[id].children, ids[i].id));
                }
                lemma_picked_list_walk(m, query, id, ids, (n - 1) as nat, display, view, math);
                lemma_joined_add(
                    seq![id],
                    visits_list(m.nodes, pass, ids, (n - 1) as nat),
                    found,
                );
            } else {
                assert(found(id) + Seq::<Q::Result>::empty() =~= found(id));
            }
        }
    }
}

proof fn lemma_picked_list_walk<Q: PickQuery>(
    m: SceneModel,
    query: Q,
    parent: NodeId,
    ids: Seq<Handle>,
    n: nat,
    inherited: DisplayBehavior,
    view: Option<PickView>,
    math: PickModel,
)
    requires
        m.tree(),
        m.nodes.contains_key(parent),
        presents(m.nodes, parent, inherited),
        forall|i: int|
            0 <= i < ids.len() && m.nodes.contains_key((#[trigger] ids[i]).id)
                ==> m.nodes[ids[i].id].parent == Some(parent),
    ensures
        m.picked_list(query, ids, n, inherited, view, math) == joined(
            visits_list(m.nodes, lets_in(m, query, view, math), ids, n),
            |k: NodeId| hits_of(m, query, k, view, math),
        ),
    decreases n, ids.len() + 1,
{
    let pass = lets_in(m, query, view, math);
    let found = |k: NodeId| hits_of(m, query, k, view, math);
    if ids.len() > 0 {
        let front = ids.drop_last();
        assert forall|i: int|
            0 <= i < front.len() && m.nodes.contains_key((#[trigger] front[i]).id) implies m.nodes[
        front[i].id].parent == Some(parent) by {
            assert(ids[i] == front[i]);
        }
        assert(ids[ids.len() - 1] == ids.last());
        lemma_picked_list_walk(m, query, parent, front, n, inherited, view, math);
        lemma_picked_walk(m, query, ids.last().id, n, inherited, view, math);
        lemma_joined_add(
            visits_list(m.nodes, pass, front, n),
            visits(m.nodes, pass, ids.last().id, n),
            found,
        );
    }
}

proof fn lemma_picked_roots<Q: PickQuery>(
    m: SceneModel,
    query: Q,
    ids: Seq<Handle>,
    view: Option<PickView>,
    math: PickModel,
)
    requires
        m.tree(),
        forall|i: int|
            0 <= i < ids.len() && m.nodes.contains_key((#[trigger] ids[i]).id)
                ==> m.nodes[ids[i].id].parent is None,
    ensures
        m.picked_each(query, ids, DisplayBehavior::ordinary(), view, math) == joined(
            visits_roots(m.nodes, lets_in(m, query, view, math), ids),
            |k: NodeId| hits_of(m, query, k, view, math),
        ),
    decreases ids.len(),
{
    let pass = lets_in(m, query, view, math);
    let found = |k: NodeId| hits_of(m, query, k, view, math);
    if ids.len() > 0 {
        let front = ids.drop_last();
        let last = ids.last().id;
        assert forall|i: int|
            0 <= i < front.len() && m.nodes.contains_key((#[trigger] front[i]).id) implies m.nodes[
        front[i].id].parent is None by {
            assert(ids[i] == front[i]);
        }
        assert(ids[ids.len() - 1] == ids.last());
        lemma_picked_roots(m, query, front, view, math);
        let n = depth_below(m.nodes, last);
        lemma_picked_walk(m, query, last, n, DisplayBehavior::ordinary(), view, math);
        lemma_joined_add(
            visits_roots(m.nodes, pass, front),
            visits(m.nodes, pass, last, n),
            found,
        );
    }
}

/// What is picked of a scene are the hits of the nodes that the query looks into, node by
/// node: of each node that hangs off the roots and into which, as into all nodes above it,
/// the query looks, exactly once, and of no other. They come in the order in which the
/// nodes stand in the tree.
pub proof fn picks_go_through_every_node_once<Q: PickQuery>(
    m: SceneModel,
    query: Q,
    view: Option<PickView>,
    math: PickModel,
)
    requires
        m.tree(),
    ensures
        exists|order: Seq<NodeId>| #[trigger]
            covers(m, lets_in(m, query, view, math), order) && in_tree_order(m.nodes, order)
                && in_root_order(m.nodes, m.roots, order) && m.picked_all(query, view, math)
                == joined(order, |k: NodeId| hits_of(m, query, k, view, math)),
{
    let pass = lets_in(m, query, view, math);
    assert forall|i: int|
        0 <= i < m.roots.len() && m.nodes.contains_key(
            (#[trigger] m.roots[i]).id,
        ) implies m.nodes[m.roots[i].id].parent is None by {
        assert(lists_id(m.roots, m.roots[i].id));
    }
    lemma_picked_roots(m, query, m.roots, view, math);
    lemma_walk_covers(m, pass);
    lemma_walk_order(m, pass);
    assert(covers(m, pass, visits_roots(m.nodes, pass, m.roots)));
}

/// Whether a query gets to a node: the node hangs off the roots, and the query looks into
/// it and into all nodes above it.
pub open spec fn gets_to<Q: PickQuery>(
    m: SceneModel,
    query: Q,
    k: NodeId,
    view: Option<PickView>,
    math: PickModel,
) -> bool {
    &&& hangs(m, k)
    &&& forall|a: NodeId| #[trigger] above(m.nodes, a, k) ==> lets_in(m, query, view, math)(a)
}

/// Every hit of a node that the query gets to is picked, with or without a view, and
/// nothing else is.
pub proof fn picks_miss_nothing<Q: PickQuery>(
    m: SceneModel,
    query: Q,
    view: Option<PickView>,
    math: PickModel,
    hit: Q::Result,
)
    requires
        m.tree(),
    ensures
        m.picked_all(query, view, math).contains(hit) <==> exists|k: NodeId| #[trigger]
            gets_to(m, query, k, view, math) && hits_of(m, query, k, view, math).contains(hit),
{
    let pass = lets_in(m, query, view, math);
    let found = |k: NodeId| hits_of(m, query, k, view, math);
    picks_go_through_every_node_once(m, query, view, math);
    let order = choose|order: Seq<NodeId>| #[trigger]
        covers(m, pass, order) && in_tree_order(m.nodes, order) && in_root_order(
            m.nodes,
            m.roots,
            order,
        ) && m.picked_all(query, view, math) == joined(order, found);
    lemma_joined_contains(order, found, hit);
    if m.picked_all(query, view, math).contains(hit) {
        let k = choose|k: NodeId| #[trigger] order.contains(k) && found(k).contains(hit);
        assert(comes_through(m, pass, k));
        assert(gets_to(m, query, k, view, math));
    }
    if exists|k: NodeId| #[trigger]
        gets_to(m, query, k, view, math) && hits_of(m, query, k, view, math).contains(hit) {
        let k = choose|k: NodeId| #[trigger]
            gets_to(m, query, k, view, math) && hits_of(m, query, k, view, math).contains(hit);
        assert(comes_through(m, pass, k));
        assert(order.contains(k));
        assert(found(k).contains(hit));
    }
}

/// Whether a query that meets a box meets every box around it.
pub open spec fn meets_what_is_around<Q: PickQuery>(
    query: Q,
    within: spec_fn(Aabb, Aabb) -> bool,
) -> bool {
    forall|a: Aabb, b: Aabb| #[trigger] within(a, b) && query.might_intersect(a)
        ==> query.might_intersect(b)
}

/// A selectable node whose bounds the query might meet is looked into with its own hits,
/// wherever it is in the tree: the bounds of the nodes above it are around its own, so
/// they are met too.
pub proof fn what_is_met_is_picked<Q: PickQuery>(
    m: SceneModel,
    query: Q,
    view: Option<PickView>,
    math: PickModel,
    within: spec_fn(Aabb, Aabb) -> bool,
    k: NodeId,
    hit: Q::Result,
)
    requires
        m.tree(),
        hangs(m, k),
        meets_what_is_around(query, within),
        m.bounds_of(k, math.geo).bounds is Some,
        query.might_intersect(m.bounds_of(k, math.geo).bounds->0),
        forall|a: NodeId| #[trigger]
            above(m.nodes, a, k) ==> !m.nodes[a].flags.has(DO_NOT_SELECT) && (m.bounds_of(
                a,
                math.geo,
            ).bounds matches Some(b) && within(m.bounds_of(k, math.geo).bounds->0, b)),
        hits_of(m, query, k, view, math).contains(hit),
    ensures
        m.picked_all(query, view, math).contains(hit),
{
    assert forall|a: NodeId| #[trigger] above(m.nodes, a, k) implies lets_in(
        m,
        query,
        view,
        math,
    )(a) by {
        lemma_above_present(m.nodes, a, k);
    }
    assert(gets_to(m, query, k, view, math));
    picks_miss_nothing(m, query, view, math, hit);
}

/// Whether no node asks to be shown in screen space.
pub open spec fn all_in_the_scene(nodes: NodeMap) -> bool {
    forall|k: NodeId| #[trigger]
        nodes.contains_key(k) ==> nodes[k].display.screen_size is None
            && !nodes[k].display.screen_facing
}

/// A view matters only for what is shown in screen space: where no node is, picking with
/// a view gives exactly what picking without one does.
pub proof fn views_change_nothing_in_the_scene<Q: PickQuery>(
    m: SceneModel,
    query: Q,
    view: PickView,
    math: PickModel,
)
    requires
        all_in_the_scene(m.nodes),
    ensures
        m.picked_all(query, Some(view), math) == m.picked_all(query, None, math),
{
    lemma_view_each(m, query, m.roots, DisplayBehavior::ordinary(), view, math);
}

proof fn lemma_view_within<Q: PickQuery>(
    m: SceneModel,
    query: Q,
    id: NodeId,
    n: nat,
    inherited: DisplayBehavior,
    view: PickView,
    math: PickModel,
)
    requires
        all_in_the_scene(m.nodes),
        inherited.screen_size is None,
        !inherited.screen_facing,
    ensures
        m.picked_within(query, id, n, inherited, Some(view), math) == m.picked_within(
            query,
            id,
            n,
            inherited,
            None,
            math,
        ),
    decreases n, 0nat,
{
    let display = DisplayBehavior::inherited(inherited, m.nodes[id].display);
    if m.nodes.contains_key(id) {
        assert(!display.screen_space());
        if n > 0 {
            lemma_view_list(m, query, m.nodes[id].children, (n - 1) as nat, display, view, math);
        }
    }
}

proof fn lemma_view_list<Q: PickQuery>(
    m: SceneModel,
    query: Q,
    ids: Seq<Handle>,
    n: nat,
    inherited: DisplayBehavior,
    view: PickView,
    math: PickModel,
)
    requires
        all_in_the_scene(m.nodes),
        inherited.screen_size is None,
        !inherited.screen_facing,
    ensures
        m.picked_list(query, ids, n, inherited, Some(view), math) == m.picked_list(
            query,
            ids,
            n,
            inherited,
            None,
            math,
        ),
    decreases n, ids.len() + 1,
{
    if ids.len() > 0 {
        lemma_view_list(m, query, ids.drop_last(), n, inherited, view, math);
        lemma_view_within(m, query, ids.last().id, n, inherited, view, math);
    }
}

proof fn lemma_view_each<Q: PickQuery>(
    m: SceneModel,
    query: Q,
    ids: Seq<Handle>,
    inherited: DisplayBehavior,
    view: PickView,
    math: PickModel,
)
    requires
        all_in_the_scene(m.nodes),
        inherited.screen_size is None,
        !inherited.screen_facing,
    ensures
        m.picked_each(query, ids, inherited, Some(view), math) == m.picked_each(
            query,
            ids,
            inherited,
            None,
            math,
        ),
    decreases ids.len(),
{
    if ids.len() > 0 {
        lemma_view_each(m, query, ids.drop_last(), inherited, view, math);
        lemma_view_within(
            m,
            query,
            ids.last().id,
            depth_below(m.nodes, ids.last().id),
            inherited,
            view,
            math,
        );
    }
}

/// What a volume picks of one mesh: one result, for the node and the instance that were
/// tested, with what the volume cuts of the mesh; and nothing where it cuts nothing. The
/// volume is tested where it is in the space of the mesh, as thoroughly as asked.
pub proof fn volumes_pick_what_they_cut<
    'a,
    V,
    B: Fn(&V, Aabb) -> bool,
    T: Fn(&V, Matrix4) -> V,
    C: Fn(&V, &Mesh, bool) -> Option<MeshVolumeHit>,
>(
    volume: V,
    thorough: bool,
    volumes: &'a VolumeMath<B, T, C>,
    into: Matrix4,
    mesh: MeshModel,
    node: NodeId,
    instance: InstanceId,
    at: Matrix4,
    bounds: Aabb,
)
    ensures
        ({
            let query = VolumePickQuery::over(volume, thorough, volumes);
            let model = volume_model(*volumes);
            let cut = (model.cut)((model.moved)(volume, into), mesh, thorough);
            let found = query.transformed(into).hits(mesh, node, instance, at);
            &&& query.might_intersect(bounds) == (model.meets)(volume, bounds)
            &&& cut is None ==> found.len() == 0
            &&& cut matches Some(hit) ==> found.len() == 1 && found[0].node_id == node
                && found[0].instance_id == instance && found[0].triangle_indices
                == hit.triangle_indices && found[0].fully_contained == hit.fully_contained
        }),
{
    let model = volume_model(*volumes);
    volume_query_moves_with_its_volume(volume, thorough, volumes, into);
    volume_query_moves_with_its_volume((model.moved)(volume, into), thorough, volumes, into);
}

} // verus!
