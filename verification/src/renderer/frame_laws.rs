//! What is collected for a frame is everything that is shown, and it is placed where it
//! belongs.

use super::frame::{
    only_world_caches, placed, FrameArithmetic, FrameModel, Inherited, InstanceTransform,
    ResolvedLight,
};
use crate::common::{identity_matrix, negated, scalar_lt_spec, Matrix4, Vector3};
use crate::data::coherence::{
    coherent, coherent_answers_are_true, lemma_shape_rooted, lemma_uncached_shape, uncached,
};
use crate::data::forest::lemma_same_climbs;
use crate::data::model::{lists_id, SceneModel};
use crate::data::tree::{above, climb_ends, climbs, NodeMap};
use crate::data::visibility::depth_below;
use crate::data::walk::{
    comes_through, covers, hangs, lemma_all_rooted, lemma_presented, lemma_presents_one,
    lemma_presents_step, lemma_walk_covers, presents, shown_at, visits, visits_list, visits_roots,
};
use crate::data::walk_order::{
    earlier_among, in_root_order, in_tree_order, lemma_walk_order, stands_before,
};
use crate::data::world::{rooted, world, world_from_parent, Compose};
use crate::light::Light;
use crate::resource::display::{DisplayBehavior, RenderLayer};
use crate::resource::handle::{Handle, InstanceId, NodeId};
use crate::resource::node::{NodePayload, Visibility};
use vstd::prelude::*;

verus! {

/// Where the node above a node is.
spec fn above_world(m: SceneModel, id: NodeId, compose: Compose) -> Matrix4 {
    match m.nodes[id].parent {
        Some(p) => world(uncached(m.nodes), p, compose),
        None => identity_matrix(),
    }
}

/// Where a walk stands in a coherent scene: nothing but world transforms was cached, and
/// those are right.
spec fn on_course(m: SceneModel, s: FrameModel, compose: Compose) -> bool {
    &&& s.nodes.dom() == m.nodes.dom()
    &&& uncached(s.nodes) == uncached(m.nodes)
    &&& coherent(s.nodes, compose)
    &&& forall|i: int|
        0 <= i < s.instances.len() ==> m.nodes.contains_key(
            (#[trigger] s.instances[i]).node_id,
        ) && s.instances[i].world_transform == world(
            uncached(m.nodes),
            s.instances[i].node_id,
            compose,
        )
}

proof fn lemma_entered(
    m: SceneModel,
    s: FrameModel,
    id: NodeId,
    from: Inherited,
    math: FrameArithmetic,
)
    requires
        m.sound(),
        on_course(m, s, math.compose),
        m.nodes.contains_key(id),
        from.world == above_world(m, id, math.compose),
    ensures
        on_course(m, s.entered(id, from, math), math.compose),
        s.passed_on(id, from, math).world == world(uncached(m.nodes), id, math.compose),
        s.nodes[id].children == m.nodes[id].children,
        s.nodes[id].visibility == m.nodes[id].visibility,
{
    let bare = uncached(m.nodes);
    let after = s.entered(id, from, math);
    assert(s.nodes.contains_key(id));
    assert(uncached(s.nodes)[id] == bare[id]);
    assert(climb_ends(m.nodes, id));
    lemma_uncached_shape(m.nodes);
    lemma_uncached_shape(s.nodes);
    let n = choose|n: nat| climbs(m.nodes, id, n);
    lemma_same_climbs(m.nodes, bare, id, n);
    assert(climbs(bare, id, n));
    assert(climb_ends(bare, id));
    world_from_parent(bare, id, math.compose);
    lemma_all_rooted(m, id, n);
    lemma_shape_rooted(m.nodes, bare, id);
    lemma_shape_rooted(s.nodes, bare, id);
    assert(s.passed_on(id, from, math).world == world(bare, id, math.compose));
    assert(after.nodes.dom() =~= m.nodes.dom());
    assert(uncached(after.nodes) =~= bare);
    lemma_uncached_shape(after.nodes);
    assert forall|k: NodeId| #[trigger] after.nodes.contains_key(k) && after.nodes[k].world_cache is Some implies rooted(
        after.nodes,
        k,
    ) && after.nodes[k].world_cache == Some(world(uncached(after.nodes), k, math.compose)) by {
        assert(s.nodes.contains_key(k));
        lemma_shape_rooted(s.nodes, bare, k);
        lemma_shape_rooted(after.nodes, bare, k);
    }
    assert(m.nodes[id].id == id);
    assert(s.nodes[id].id == id) by {
        assert(bare[id].id == id);
    }
}

proof fn lemma_walked(
    m: SceneModel,
    s: FrameModel,
    id: NodeId,
    from: Inherited,
    n: nat,
    math: FrameArithmetic,
)
    requires
        m.sound(),
        on_course(m, s, math.compose),
        m.nodes.contains_key(id) ==> from.world == above_world(m, id, math.compose),
    ensures
        on_course(m, s.walked(id, from, n, math), math.compose),
    decreases n, 0nat,
{
    assert(s.nodes.contains_key(id) == m.nodes.contains_key(id));
    if m.nodes.contains_key(id) {
        lemma_entered(m, s, id, from, math);
        let here = s.entered(id, from, math);
        if m.nodes[id].visibility != Visibility::Invisible && n > 0 {
            assert forall|i: int|
                0 <= i < m.nodes[id].children.len() && m.nodes.contains_key(
                    (#[trigger] m.nodes[id].children[i]).id,
                ) implies m.nodes[m.nodes[id].children[i].id].parent == Some(id) by {
                assert(lists_id(m.nodes[id].children, m.nodes[id].children[i].id));
            }
            lemma_walked_list(
                m,
                here,
                id,
                m.nodes[id].children,
                s.passed_on(id, from, math),
                (n - 1) as nat,
                math,
            );
        }
    }
}

proof fn lemma_walked_list(
    m: SceneModel,
    s: FrameModel,
    parent: NodeId,
    ids: Seq<Handle>,
    from: Inherited,
    n: nat,
    math: FrameArithmetic,
)
    requires
        m.sound(),
        on_course(m, s, math.compose),
        from.world == world(uncached(m.nodes), parent, math.compose),
        forall|i: int|
            0 <= i < ids.len() && m.nodes.contains_key((#[trigger] ids[i]).id)
                ==> m.nodes[ids[i].id].parent == Some(parent),
    ensures
        on_course(m, s.walked_list(ids, from, n, math), math.compose),
    decreases n, ids.len() + 1,
{
    if ids.len() > 0 {
        assert forall|i: int|
            0 <= i < ids.drop_last().len() && m.nodes.contains_key(
                (#[trigger] ids.drop_last()[i]).id,
            ) implies m.nodes[ids.drop_last()[i].id].parent == Some(parent) by {
            assert(ids[i] == ids.drop_last()[i]);
        }
        lemma_walked_list(m, s, parent, ids.drop_last(), from, n, math);
        assert(ids.last() == ids[ids.len() - 1]);
        lemma_walked(
            m,
            s.walked_list(ids.drop_last(), from, n, math),
            ids.last().id,
            from,
            n,
            math,
        );
    }
}

proof fn lemma_walked_roots(m: SceneModel, s: FrameModel, ids: Seq<Handle>, math: FrameArithmetic)
    requires
        m.sound(),
        on_course(m, s, math.compose),
        forall|i: int|
            0 <= i < ids.len() && m.nodes.contains_key((#[trigger] ids[i]).id)
                ==> m.nodes[ids[i].id].parent is None,
    ensures
        on_course(m, s.walked_roots(m.nodes, ids, math), math.compose),
    decreases ids.len(),
{
    if ids.len() > 0 {
        assert forall|i: int|
            0 <= i < ids.drop_last().len() && m.nodes.contains_key(
                (#[trigger] ids.drop_last()[i]).id,
            ) implies m.nodes[ids.drop_last()[i].id].parent is None by {
            assert(ids[i] == ids.drop_last()[i]);
        }
        lemma_walked_roots(m, s, ids.drop_last(), math);
        assert(ids.last() == ids[ids.len() - 1]);
        lemma_walked(
            m,
            s.walked_roots(m.nodes, ids.drop_last(), math),
            ids.last().id,
            Inherited {
                world: identity_matrix(),
                display: DisplayBehavior::ordinary(),
                changed: false,
            },
            depth_below(m.nodes, ids.last().id),
            math,
        );
    }
}

/// In a coherent scene every instance that is collected for a frame is placed at the
/// world transform of its node, and the walk keeps the scene coherent.
pub proof fn frames_agree_with_transforms(m: SceneModel, math: FrameArithmetic, i: int)
    requires
        m.sound(),
        coherent(m.nodes, math.compose),
    ensures
        coherent(m.frame(math).nodes, math.compose),
        0 <= i < m.frame(math).instances.len() ==> m.nodes.contains_key(
            m.frame(math).instances[i].node_id,
        ) && m.frame(math).instances[i].world_transform == world(
            m.nodes,
            m.frame(math).instances[i].node_id,
            math.compose,
        ),
{
    let start = FrameModel { nodes: m.nodes, instances: Seq::empty(), lights: Seq::empty() };
    assert forall|i: int|
        0 <= i < m.roots.len() && m.nodes.contains_key(
            (#[trigger] m.roots[i]).id,
        ) implies m.nodes[m.roots[i].id].parent is None by {
        assert(lists_id(m.roots, m.roots[i].id));
    }
    lemma_walked_roots(m, start, m.roots, math);
    if 0 <= i < m.frame(math).instances.len() {
        let k = m.frame(math).instances[i].node_id;
        assert(climb_ends(m.nodes, k));
        coherent_answers_are_true(m.nodes, k, math.compose);
    }
}

/// Whether a node was not made invisible.
pub open spec fn visible(m: SceneModel) -> spec_fn(NodeId) -> bool {
    |k: NodeId| m.nodes[k].visibility != Visibility::Invisible
}

/// What is said of a collected instance apart from where it is.
spec fn label(placed: InstanceTransform) -> (NodeId, InstanceId, DisplayBehavior) {
    (placed.node_id, placed.instance_id, placed.display)
}

spec fn label_at(m: SceneModel, k: NodeId) -> Option<(NodeId, InstanceId, DisplayBehavior)> {
    match m.nodes[k].payload {
        NodePayload::Instance(h) => Some(
            (k, h.id, shown_at(m.nodes, k)),
        ),
        _ => None,
    }
}

/// The light that a node carries.
pub open spec fn light_of(m: SceneModel, k: NodeId) -> Option<Light> {
    match m.nodes[k].payload {
        NodePayload::Light(light) => Some(light),
        _ => None,
    }
}

/// The light that a node carries, where the node is: at the origin of its world transform,
/// pointing against the Z-axis of that transform, or against that of the world where the
/// former has no length.
pub open spec fn light_at(m: SceneModel, nodes: NodeMap, k: NodeId, math: FrameArithmetic) -> Option<
    ResolvedLight,
> {
    match m.nodes[k].payload {
        NodePayload::Light(light) => {
            let at = world(nodes, k, math.compose);
            let back = Vector3 {
                x: negated(at.z.x),
                y: negated(at.z.y),
                z: negated(at.z.z),
            };
            Some(
                ResolvedLight {
                    light,
                    position: Vector3 { x: at.w.x, y: at.w.y, z: at.w.z },
                    direction: if scalar_lt_spec(0, (math.length2)(back)) {
                        (math.unit)(back)
                    } else {
                        Vector3 { x: 0, y: 0, z: 0xbf80_0000 }
                    },
                },
            )
        },
        _ => None,
    }
}

/// Whether an instance is drawn where it is, with the normals that go with that.
pub open spec fn at_rest(placed: InstanceTransform, math: FrameArithmetic) -> bool {
    &&& placed.normal_matrix == (math.normal)(placed.world_transform)
    &&& placed.effective_transform == placed.world_transform
    &&& placed.effective_normal_matrix == placed.normal_matrix
}

/// Whether what a walk collected is what it came by.
spec fn gathers(
    m: SceneModel,
    s: FrameModel,
    order: Seq<NodeId>,
    right: bool,
    math: FrameArithmetic,
) -> bool {
    &&& only_world_caches(m.nodes, s.nodes)
    &&& s.instances.map_values(|i: InstanceTransform| label(i)) == order.filter_map(
        |k: NodeId| label_at(m, k),
    )
    &&& forall|i: int| 0 <= i < s.instances.len() ==> at_rest(#[trigger] s.instances[i], math)
    &&& s.lights.map_values(|l: ResolvedLight| l.light) == order.filter_map(
        |k: NodeId| light_of(m, k),
    )
    &&& right ==> on_course(m, s, math.compose) && s.lights == order.filter_map(
        |k: NodeId| light_at(m, uncached(m.nodes), k, math),
    )
}

/// Whether what a walk hands on to a node is what the node inherits.
spec fn handed(
    m: SceneModel,
    id: NodeId,
    from: Inherited,
    right: bool,
    math: FrameArithmetic,
) -> bool {
    &&& match m.nodes[id].parent {
        Some(p) => m.nodes.contains_key(p) && presents(m.nodes, p, from.display),
        None => from.display == DisplayBehavior::ordinary(),
    }
    &&& right ==> from.world == above_world(m, id, math.compose)
}

proof fn lemma_map_push<A, B>(s: Seq<A>, x: A, f: spec_fn(A) -> B)
    ensures
        s.push(x).map_values(f) == s.map_values(f).push(f(x)),
{
    assert(s.push(x).map_values(f) =~= s.map_values(f).push(f(x)));
}

proof fn lemma_filter_map_push<A, B>(s: Seq<A>, x: A, f: spec_fn(A) -> Option<B>)
    ensures
        s.push(x).filter_map(f) == (match f(x) {
            Some(y) => s.filter_map(f).push(y),
            None => s.filter_map(f),
        }),
{
    reveal(Seq::filter_map);
    assert(s.push(x).drop_last() =~= s);
    if let Some(y) = f(x) {
        assert(s.push(x).filter_map(f) =~= s.filter_map(f).push(y));
    }
}

proof fn lemma_gather_entered(
    m: SceneModel,
    s: FrameModel,
    order: Seq<NodeId>,
    id: NodeId,
    from: Inherited,
    right: bool,
    math: FrameArithmetic,
)
    requires
        m.sound(),
        gathers(m, s, order, right, math),
        m.nodes.contains_key(id),
        handed(m, id, from, right, math),
    ensures
        gathers(
            m,
            s.entered(id, from, math),
            if visible(m)(id) {
                order.push(id)
            } else {
                order
            },
            right,
            math,
        ),
        presents(m.nodes, id, s.passed_on(id, from, math).display),
        right ==> s.passed_on(id, from, math).world == world(
            uncached(m.nodes),
            id,
            math.compose,
        ),
{
    let after = s.entered(id, from, math);
    let on = s.passed_on(id, from, math);
    assert(s.nodes.contains_key(id));
    assert(m.nodes[id].id == id);
    lemma_presents_step(m.nodes, id, from.display);
    lemma_presents_one(m.nodes, id, shown_at(m.nodes, id), on.display);
    if right {
        lemma_entered(m, s, id, from, math);
    }
    assert(after.nodes.dom() =~= m.nodes.dom());
    assert(only_world_caches(m.nodes, after.nodes));
    let by_label = |i: InstanceTransform| label(i);
    let by_light = |l: ResolvedLight| l.light;
    let labels = |k: NodeId| label_at(m, k);
    let lights = |k: NodeId| light_of(m, k);
    let places = |k: NodeId| light_at(m, uncached(m.nodes), k, math);
    lemma_filter_map_push(order, id, labels);
    lemma_filter_map_push(order, id, lights);
    lemma_filter_map_push(order, id, places);
    if visible(m)(id) {
        match m.nodes[id].payload {
            NodePayload::Instance(h) => {
                lemma_map_push(s.instances, after.instances.last(), by_label);
                assert(after.instances =~= s.instances.push(after.instances.last()));
            },
            NodePayload::Light(light) => {
                lemma_map_push(s.lights, after.lights.last(), by_light);
                assert(after.lights =~= s.lights.push(after.lights.last()));
            },
            _ => {},
        }
    }
}

proof fn lemma_gather_walked(
    m: SceneModel,
    s: FrameModel,
    order: Seq<NodeId>,
    id: NodeId,
    from: Inherited,
    n: nat,
    right: bool,
    math: FrameArithmetic,
)
    requires
        m.sound(),
        gathers(m, s, order, right, math),
        m.nodes.contains_key(id) ==> handed(m, id, from, right, math),
    ensures
        gathers(
            m,
            s.walked(id, from, n, math),
            order + visits(m.nodes, visible(m), id, n),
            right,
            math,
        ),
    decreases n, 0nat,
{
    let pass = visible(m);
    assert(s.nodes.contains_key(id) == m.nodes.contains_key(id));
    if !m.nodes.contains_key(id) {
        assert(order + visits(m.nodes, pass, id, n) =~= order);
    } else {
        assert(s.nodes[id].visibility == m.nodes[id].visibility);
        assert(s.nodes[id].children == m.nodes[id].children);
        lemma_gather_entered(m, s, order, id, from, right, math);
        let here = s.entered(id, from, math);
        if !pass(id) {
            assert(order + visits(m.nodes, pass, id, n) =~= order);
        } else if n == 0 {
            assert(order + visits(m.nodes, pass, id, n) =~= order.push(id));
        } else {
            let ids = m.nodes[id].children;
            assert forall|i: int|
                0 <= i < ids.len() && m.nodes.contains_key((#[trigger] ids[i]).id) implies m.nodes[
            ids[i].id].parent == Some(id) by {
                assert(lists_id(m.nodes[id].children, ids[i].id));
            }
            let on = s.passed_on(id, from, math);
            lemma_gather_list(m, here, order.push(id), id, ids, on, (n - 1) as nat, right, math);
            assert(order + visits(m.nodes, pass, id, n) =~= order.push(id) + visits_list(
                m.nodes,
                pass,
                ids,
                (n - 1) as nat,
            ));
        }
    }
}

proof fn lemma_gather_list(
    m: SceneModel,
    s: FrameModel,
    order: Seq<NodeId>,
    parent: NodeId,
    ids: Seq<Handle>,
    from: Inherited,
    n: nat,
    right: bool,
    math: FrameArithmetic,
)
    requires
        m.sound(),
        gathers(m, s, order, right, math),
        m.nodes.contains_key(parent),
        presents(m.nodes, parent, from.display),
        right ==> from.world == world(uncached(m.nodes), parent, math.compose),
        forall|i: int|
            0 <= i < ids.len() && m.nodes.contains_key((#[trigger] ids[i]).id)
                ==> m.nodes[ids[i].id].parent == Some(parent),
    ensures
        gathers(
            m,
            s.walked_list(ids, from, n, math),
            order + visits_list(m.nodes, visible(m), ids, n),
            right,
            math,
        ),
    decreases n, ids.len() + 1,
{
    let pass = visible(m);
    if ids.len() == 0 {
        assert(order + visits_list(m.nodes, pass, ids, n) =~= order);
    } else {
        let front = ids.drop_last();
        assert forall|i: int|
            0 <= i < front.len() && m.nodes.contains_key((#[trigger] front[i]).id) implies m.nodes[
        front[i].id].parent == Some(parent) by {
            assert(ids[i] == front[i]);
        }
        lemma_gather_list(m, s, order, parent, front, from, n, right, math);
        assert(ids.last() == ids[ids.len() - 1]);
        lemma_gather_walked(
            m,
            s.walked_list(front, from, n, math),
            order + visits_list(m.nodes, pass, front, n),
            ids.last().id,
            from,
            n,
            right,
            math,
        );
        assert(order + visits_list(m.nodes, pass, ids, n) =~= order + visits_list(
            m.nodes,
            pass,
            front,
            n,
        ) + visits(m.nodes, pass, ids.last().id, n));
    }
}

proof fn lemma_gather_roots(
    m: SceneModel,
    s: FrameModel,
    ids: Seq<Handle>,
    right: bool,
    math: FrameArithmetic,
)
    requires
        m.sound(),
        gathers(m, s, Seq::empty(), right, math),
        forall|i: int|
            0 <= i < ids.len() && m.nodes.contains_key((#[trigger] ids[i]).id)
                ==> m.nodes[ids[i].id].parent is None,
    ensures
        gathers(
            m,
            s.walked_roots(m.nodes, ids, math),
            visits_roots(m.nodes, visible(m), ids),
            right,
            math,
        ),
    decreases ids.len(),
{
    if ids.len() > 0 {
        let front = ids.drop_last();
        assert forall|i: int|
            0 <= i < front.len() && m.nodes.contains_key((#[trigger] front[i]).id) implies m.nodes[
        front[i].id].parent is None by {
            assert(ids[i] == front[i]);
        }
        lemma_gather_roots(m, s, front, right, math);
        assert(ids.last() == ids[ids.len() - 1]);
        lemma_gather_walked(
            m,
            s.walked_roots(m.nodes, front, math),
            visits_roots(m.nodes, visible(m), front),
            ids.last().id,
            Inherited {
                world: identity_matrix(),
                display: DisplayBehavior::ordinary(),
                changed: false,
            },
            depth_below(m.nodes, ids.last().id),
            right,
            math,
        );
    }
}

proof fn lemma_gather_frame(m: SceneModel, right: bool, math: FrameArithmetic)
    requires
        m.sound(),
        right ==> coherent(m.nodes, math.compose),
    ensures
        gathers(
            m,
            m.frame(math),
            visits_roots(m.nodes, visible(m), m.roots),
            right,
            math,
        ),
{
    reveal(Seq::filter_map);
    let start = FrameModel { nodes: m.nodes, instances: Seq::empty(), lights: Seq::empty() };
    assert forall|i: int|
        0 <= i < m.roots.len() && m.nodes.contains_key(
            (#[trigger] m.roots[i]).id,
        ) implies m.nodes[m.roots[i].id].parent is None by {
        assert(lists_id(m.roots, m.roots[i].id));
    }
    let none: Seq<NodeId> = Seq::empty();
    assert(start.instances.map_values(|i: InstanceTransform| label(i)) =~= none.filter_map(
        |k: NodeId| label_at(m, k),
    ));
    assert(start.lights.map_values(|l: ResolvedLight| l.light) =~= none.filter_map(
        |k: NodeId| light_of(m, k),
    ));
    assert(start.lights =~= none.filter_map(
        |k: NodeId| light_at(m, uncached(m.nodes), k, math),
    ));
    lemma_gather_roots(m, start, m.roots, right, math);
}

proof fn lemma_labels(m: SceneModel, order: Seq<NodeId>)
    requires
        order.no_duplicates(),
    ensures
        ({
            let out = order.filter_map(|k: NodeId| label_at(m, k));
            &&& forall|i: int|
                0 <= i < out.len() ==> order.contains((#[trigger] out[i]).0) && label_at(
                    m,
                    out[i].0,
                ) == Some(out[i])
            &&& forall|i: int, j: int|
                #![trigger out[i], out[j]]
                0 <= i < j < out.len() ==> out[i].0 != out[j].0
            &&& forall|k: NodeId| #[trigger]
                order.contains(k) && label_at(m, k) is Some ==> exists|i: int|
                    0 <= i < out.len() && (#[trigger] out[i]).0 == k
        }),
    decreases order.len(),
{
    reveal(Seq::filter_map);
    let f = |k: NodeId| label_at(m, k);
    let out = order.filter_map(f);
    if order.len() > 0 {
        let front = order.drop_last();
        let last = order.last();
        assert(front.no_duplicates());
        lemma_labels(m, front);
        let was = front.filter_map(f);
        assert(order =~= front.push(last));
        lemma_filter_map_push(front, last, f);
        assert forall|k: NodeId| #[trigger] front.contains(k) implies order.contains(k) && k
            != last by {
            let i = choose|i: int| 0 <= i < front.len() && front[i] == k;
            assert(order[i] == k);
            assert(order[order.len() - 1] == last);
        }
        assert(order[order.len() - 1] == last);
        assert forall|i: int| 0 <= i < out.len() implies order.contains((#[trigger] out[i]).0)
            && label_at(m, out[i].0) == Some(out[i]) by {
            if i < was.len() {
                assert(was[i] == out[i]);
            }
        }
        assert forall|i: int, j: int|
            #![trigger out[i], out[j]]
            0 <= i < j < out.len() implies out[i].0 != out[j].0 by {
            assert(was[i] == out[i]);
            if j < was.len() {
                assert(was[j] == out[j]);
            }
        }
        assert forall|k: NodeId| #[trigger]
            order.contains(k) && label_at(m, k) is Some implies exists|i: int|
            0 <= i < out.len() && (#[trigger] out[i]).0 == k by {
            if k == last {
                assert(out[out.len() - 1].0 == k);
            } else {
                let x = choose|x: int| 0 <= x < order.len() && order[x] == k;
                assert(front[x] == k);
                assert(front.contains(k));
                let i = choose|i: int| 0 <= i < was.len() && (#[trigger] was[i]).0 == k;
                assert(out[i] == was[i]);
            }
        }
    }
}

proof fn lemma_label_from(m: SceneModel, order: Seq<NodeId>, i: int)
    requires
        0 <= i < order.filter_map(|k: NodeId| label_at(m, k)).len(),
    ensures
        exists|x: int|
            0 <= x < order.len() && #[trigger] order[x] == order.filter_map(
                |k: NodeId| label_at(m, k),
            )[i].0,
    decreases order.len(),
{
    reveal(Seq::filter_map);
    let f = |k: NodeId| label_at(m, k);
    let out = order.filter_map(f);
    if order.len() > 0 {
        let front = order.drop_last();
        lemma_filter_map_push(front, order.last(), f);
        assert(order =~= front.push(order.last()));
        let was = front.filter_map(f);
        if i < was.len() {
            lemma_label_from(m, front, i);
            let x = choose|x: int| 0 <= x < front.len() && #[trigger] front[x] == was[i].0;
            assert(order[x] == out[i].0);
        } else {
            assert(order[order.len() - 1] == out[i].0);
        }
    }
}

proof fn lemma_label_order(m: SceneModel, order: Seq<NodeId>, i: int, j: int)
    requires
        0 <= i < j < order.filter_map(|k: NodeId| label_at(m, k)).len(),
    ensures
        exists|x: int, y: int|
            0 <= x < y < order.len() && #[trigger] order[x] == order.filter_map(
                |k: NodeId| label_at(m, k),
            )[i].0 && #[trigger] order[y] == order.filter_map(|k: NodeId| label_at(m, k))[j].0,
    decreases order.len(),
{
    reveal(Seq::filter_map);
    let f = |k: NodeId| label_at(m, k);
    let out = order.filter_map(f);
    if order.len() > 0 {
        let front = order.drop_last();
        lemma_filter_map_push(front, order.last(), f);
        assert(order =~= front.push(order.last()));
        let was = front.filter_map(f);
        if j < was.len() {
            lemma_label_order(m, front, i, j);
            let (x, y) = choose|x: int, y: int|
                0 <= x < y < front.len() && #[trigger] front[x] == was[i].0 && #[trigger] front[y]
                    == was[j].0;
            assert(order[x] == out[i].0 && order[y] == out[j].0);
        } else {
            lemma_label_from(m, front, i);
            let x = choose|x: int| 0 <= x < front.len() && #[trigger] front[x] == was[i].0;
            assert(order[x] == out[i].0);
            assert(order[order.len() - 1] == out[j].0);
        }
    }
}

/// Instances are collected in the order in which their nodes stand in the tree: that of a
/// node before those below it, those below a child before those below a later one, and
/// those below a root before those below a later one.
pub proof fn frames_follow_the_order_of_the_tree(m: SceneModel, math: FrameArithmetic)
    requires
        m.sound(),
    ensures
        in_tree_order(
            m.nodes,
            m.frame(math).instances.map_values(|i: InstanceTransform| i.node_id),
        ),
        in_root_order(
            m.nodes,
            m.roots,
            m.frame(math).instances.map_values(|i: InstanceTransform| i.node_id),
        ),
{
    let order = visits_roots(m.nodes, visible(m), m.roots);
    let instances = m.frame(math).instances;
    let ids = instances.map_values(|i: InstanceTransform| i.node_id);
    let out = order.filter_map(|k: NodeId| label_at(m, k));
    lemma_gather_frame(m, false, math);
    lemma_walk_order(m, visible(m));
    assert(instances.map_values(|i: InstanceTransform| label(i)) == out);
    assert forall|i: int, j: int|
        #![trigger ids[i], ids[j]]
        0 <= i < j < ids.len() implies !stands_before(m.nodes, ids[j], ids[i]) && !earlier_among(
        m.nodes,
        m.roots,
        ids[j],
        ids[i],
    ) by {
        assert(instances.map_values(|i: InstanceTransform| label(i))[i] == label(instances[i]));
        assert(instances.map_values(|i: InstanceTransform| label(i))[j] == label(instances[j]));
        lemma_label_order(m, order, i, j);
        let (x, y) = choose|x: int, y: int|
            0 <= x < y < order.len() && #[trigger] order[x] == out[i].0 && #[trigger] order[y]
                == out[j].0;
        assert(!stands_before(m.nodes, order[y], order[x]));
        assert(!earlier_among(m.nodes, m.roots, order[y], order[x]));
    }
}

/// Whether instances are those of the visible nodes that hang off the roots, each once.
pub open spec fn are_all_visible(m: SceneModel, instances: Seq<InstanceTransform>) -> bool {
    &&& forall|k: NodeId| #[trigger]
        hangs(m, k) && m.nodes[k].payload is Instance && (forall|a: NodeId| #[trigger]
            above(m.nodes, a, k) ==> m.nodes[a].visibility != Visibility::Invisible)
            ==> exists|i: int|
            0 <= i < instances.len() && (#[trigger] instances[i]).node_id == k
    &&& forall|i: int|
        0 <= i < instances.len() ==> {
            let k = (#[trigger] instances[i]).node_id;
            &&& hangs(m, k)
            &&& forall|a: NodeId| #[trigger]
                above(m.nodes, a, k) ==> m.nodes[a].visibility != Visibility::Invisible
            &&& m.nodes[k].payload matches NodePayload::Instance(h) && instances[i].instance_id
                == h.id
        }
    &&& forall|i: int, j: int|
        #![trigger instances[i], instances[j]]
        0 <= i < j < instances.len() ==> instances[i].node_id != instances[j].node_id
}

/// A frame shows everything that is visible, and nothing else: an instance is collected
/// for exactly those nodes that hang off the roots, carry an instance, and have no
/// invisible node among themselves and the nodes above them, whatever those nodes carry.
/// It is collected once, it is the instance that the node carries, it is presented as the
/// node and the nodes above it ask for, and it starts out drawn where it is.
pub proof fn frames_show_all_that_is_visible(m: SceneModel, math: FrameArithmetic)
    requires
        m.sound(),
    ensures
        forall|k: NodeId| #[trigger]
            hangs(m, k) && m.nodes[k].payload is Instance && (forall|a: NodeId| #[trigger]
                above(m.nodes, a, k) ==> m.nodes[a].visibility != Visibility::Invisible)
                ==> exists|i: int|
                0 <= i < m.frame(math).instances.len() && (#[trigger] m.frame(
                    math,
                ).instances[i]).node_id == k,
        forall|i: int|
            0 <= i < m.frame(math).instances.len() ==> {
                let placed = #[trigger] m.frame(math).instances[i];
                let k = placed.node_id;
                &&& hangs(m, k)
                &&& forall|a: NodeId| #[trigger]
                    above(m.nodes, a, k) ==> m.nodes[a].visibility != Visibility::Invisible
                &&& m.nodes[k].payload matches NodePayload::Instance(h) && placed.instance_id
                    == h.id
                &&& presents(m.nodes, k, placed.display)
                &&& at_rest(placed, math)
            },
        forall|i: int, j: int|
            #![trigger m.frame(math).instances[i], m.frame(math).instances[j]]
            0 <= i < j < m.frame(math).instances.len() ==> m.frame(math).instances[i].node_id
                != m.frame(math).instances[j].node_id,
{
    let order = visits_roots(m.nodes, visible(m), m.roots);
    let instances = m.frame(math).instances;
    lemma_gather_frame(m, false, math);
    lemma_walk_covers(m, visible(m));
    lemma_labels(m, order);
    let out = order.filter_map(|k: NodeId| label_at(m, k));
    assert(instances.map_values(|i: InstanceTransform| label(i)) == out);
    assert forall|i: int| 0 <= i < instances.len() implies label(#[trigger] instances[i])
        == out[i] by {
        assert(instances.map_values(|i: InstanceTransform| label(i))[i] == label(instances[i]));
    }
    assert forall|k: NodeId| #[trigger]
        hangs(m, k) && m.nodes[k].payload is Instance && (forall|a: NodeId| #[trigger]
            above(m.nodes, a, k) ==> m.nodes[a].visibility
                != Visibility::Invisible) implies exists|i: int|
        0 <= i < instances.len() && (#[trigger] instances[i]).node_id == k by {
        assert(comes_through(m, visible(m), k));
        assert(order.contains(k));
        let i = choose|i: int| 0 <= i < out.len() && (#[trigger] out[i]).0 == k;
        assert(instances[i].node_id == k);
    }
    assert forall|i: int| 0 <= i < instances.len() implies {
        let placed = #[trigger] instances[i];
        let k = placed.node_id;
        &&& hangs(m, k)
        &&& forall|a: NodeId| #[trigger]
            above(m.nodes, a, k) ==> m.nodes[a].visibility != Visibility::Invisible
        &&& m.nodes[k].payload matches NodePayload::Instance(h) && placed.instance_id == h.id
        &&& presents(m.nodes, k, placed.display)
        &&& at_rest(placed, math)
    } by {
        let placed = instances[i];
        let k = placed.node_id;
        assert(label(placed) == out[i]);
        assert(order.contains(k));
        assert(comes_through(m, visible(m), k));
        assert forall|a: NodeId| #[trigger] above(m.nodes, a, k) implies m.nodes[a].visibility
            != Visibility::Invisible by {
            assert(visible(m)(a));
        }
        lemma_presented(m, k);
    }
    assert forall|i: int, j: int|
        #![trigger instances[i], instances[j]]
        0 <= i < j < instances.len() implies instances[i].node_id != instances[j].node_id by {
        assert(label(instances[i]) == out[i]);
        assert(label(instances[j]) == out[j]);
    }
}

/// A frame is lit by every visible light, each once and in the order of the tree, and in a
/// coherent scene from where its node is.
pub proof fn frames_are_lit_by_all_visible_lights(m: SceneModel, math: FrameArithmetic)
    requires
        m.sound(),
    ensures
        exists|order: Seq<NodeId>| #[trigger]
            covers(m, visible(m), order) && in_tree_order(m.nodes, order) && in_root_order(
                m.nodes,
                m.roots,
                order,
            ) && m.frame(math).lights.map_values(|l: ResolvedLight| l.light)
                == order.filter_map(|k: NodeId| light_of(m, k)) && (coherent(
                m.nodes,
                math.compose,
            ) ==> m.frame(math).lights == order.filter_map(
                |k: NodeId| light_at(m, uncached(m.nodes), k, math),
            )),
{
    let order = visits_roots(m.nodes, visible(m), m.roots);
    lemma_gather_frame(m, false, math);
    if coherent(m.nodes, math.compose) {
        lemma_gather_frame(m, true, math);
    }
    lemma_walk_covers(m, visible(m));
    lemma_walk_order(m, visible(m));
    assert(covers(m, visible(m), order));
}

/// An instance starts out where it was put, with the normals that go with that, as ordinary
/// geometry of the scene.
pub proof fn instances_start_out_ordinary(
    node: NodeId,
    instance: InstanceId,
    at: Matrix4,
    math: FrameArithmetic,
)
    ensures
        ({
            let new = placed(node, instance, at, math.normal);
            &&& new.node_id == node
            &&& new.instance_id == instance
            &&& new.world_transform == at
            &&& new.normal_matrix == (math.normal)(at)
            &&& at_rest(new, math)
            &&& new.display.screen_size is None
            &&& !new.display.screen_facing
            &&& new.display.layer == RenderLayer::Scene
        }),
{
}

} // verus!
