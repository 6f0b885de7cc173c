//! World-space bounds of nodes.

use super::forest::{lemma_same_climbs, lemma_same_descends, lemma_same_relations, same_shape};
use super::model::SceneModel;
use super::node_laws::{attributes_keep_sound, only_attributes};
use super::tree::{above, climb_ends, climbs, descends, descent_ends, NodeMap};
use super::visibility::depth_below;
use super::world::{
    height_above, lemma_warmed_filled, rooted, transform_of, warmed, world, world_within, Compose,
};
use super::{BoundingResult, SceneData};
use crate::common::{Aabb, Matrix4, Transform};
use crate::numeric::{apply2, definite2, value2};
use crate::resource::handle::NodeId;
use crate::resource::node::{NodeModel, NodePayload, DOES_NOT_CONTRIBUTE_BOUNDING};
use vstd::prelude::*;

verus! {

/// The arithmetic that bounds are computed with.
pub struct Geometry {
    /// Composes a world transform with a local one.
    pub compose: Compose,
    /// The box around a transformed box.
    pub place: spec_fn(Aabb, Matrix4) -> Aabb,
    /// The box around two boxes.
    pub merge: spec_fn(Aabb, Aabb) -> Aabb,
}

/// The arithmetic that three functions supply.
pub open spec fn geometry<
    F: Fn(Matrix4, Transform) -> Matrix4,
    P: Fn(Aabb, Matrix4) -> Aabb,
    M: Fn(Aabb, Aabb) -> Aabb,
>(compose: F, place: P, merge: M) -> Geometry {
    Geometry { compose: value2(compose), place: value2(place), merge: value2(merge) }
}

/// The box around two boxes, either of which may be missing.
pub open spec fn join(
    a: Option<Aabb>,
    b: Option<Aabb>,
    merge: spec_fn(Aabb, Aabb) -> Aabb,
) -> Option<Aabb> {
    match (a, b) {
        (Some(x), Some(y)) => Some(merge(x, y)),
        (Some(x), None) => Some(x),
        (None, y) => y,
    }
}

/// Results taken together, in order.
pub open spec fn merged(
    results: Seq<BoundingResult>,
    merge: spec_fn(Aabb, Aabb) -> Aabb,
) -> BoundingResult
    decreases results.len(),
{
    if results.len() == 0 {
        BoundingResult { bounds: None, incomplete: false }
    } else {
        let front = merged(results.drop_last(), merge);
        BoundingResult {
            bounds: join(front.bounds, results.last().bounds, merge),
            incomplete: front.incomplete || results.last().incomplete,
        }
    }
}

impl SceneModel {
    /// The bounds of the geometry that a node itself carries: `Some(None)` when it
    /// carries none, and `None` when something that they depend on is not there.
    pub open spec fn own_bounds(self, id: NodeId, geo: Geometry) -> Option<Option<Aabb>> {
        match self.nodes[id].payload.handle() {
            None => Some(None),
            Some(h) => match transform_of(self.nodes, id, geo.compose) {
                None => None,
                Some(world) => if self.instances.contains_key(h.id) && self.meshes.contains_key(
                    self.instances[h.id].mesh.id,
                ) {
                    match self.meshes[self.instances[h.id].mesh.id].bounds {
                        None => Some(None),
                        Some(b) => Some(Some((geo.place)(b, world))),
                    }
                } else {
                    None
                },
            },
        }
    }

    /// The bounds of a subtree, looking at most `n` steps down.
    pub open spec fn bounds_within(self, id: NodeId, n: nat, geo: Geometry) -> BoundingResult
        decreases n, 0nat,
    {
        if !self.nodes.contains_key(id) {
            BoundingResult { bounds: None, incomplete: true }
        } else if self.nodes[id].flags.has(DOES_NOT_CONTRIBUTE_BOUNDING) {
            BoundingResult { bounds: None, incomplete: false }
        } else if self.nodes[id].bounds_cache is Some {
            BoundingResult { bounds: self.nodes[id].bounds_cache->0, incomplete: false }
        } else {
            let results = if n > 0 {
                self.child_bounds(id, (n - 1) as nat, geo)
            } else {
                Seq::empty()
            };
            with_own(merged(results, geo.merge), self.own_bounds(id, geo), geo.merge)
        }
    }

    /// The bounds of the children of a node, looking at most `n` steps down from them.
    pub open spec fn child_bounds(self, id: NodeId, n: nat, geo: Geometry) -> Seq<BoundingResult>
        decreases n, 1nat,
    {
        Seq::new(
            self.nodes[id].children.len(),
            |i: int| self.bounds_within(self.nodes[id].children[i].id, n, geo),
        )
    }

    /// The bounds of a node and its subtree: what is cached, or the bounds of the
    /// children and of the geometry that the node carries taken together. A node
    /// that does not contribute has none. Where caches are right, which every operation
    /// on nodes keeps, this is what taking the subtree together anew gives.
    pub open spec fn bounds_of(self, id: NodeId, geo: Geometry) -> BoundingResult {
        self.bounds_within(id, depth_below(self.nodes, id), geo)
    }

    /// The bounds of the whole scene.
    pub open spec fn scene_bounds(self, geo: Geometry) -> BoundingResult {
        merged(
            Seq::new(self.roots.len(), |i: int| self.bounds_of(self.roots[i].id, geo)),
            geo.merge,
        )
    }
}

/// The bounds of the children taken together with those of the node itself.
pub open spec fn with_own(
    children: BoundingResult,
    own: Option<Option<Aabb>>,
    merge: spec_fn(Aabb, Aabb) -> Aabb,
) -> BoundingResult {
    match own {
        None => BoundingResult { bounds: children.bounds, incomplete: true },
        Some(b) => BoundingResult {
            bounds: join(b, children.bounds, merge),
            incomplete: children.incomplete,
        },
    }
}

/// Whether climbing and descending come to an end everywhere.
pub open spec fn acyclic(nodes: NodeMap) -> bool {
    &&& forall|id: NodeId| #[trigger] climb_ends(nodes, id)
    &&& forall|id: NodeId| #[trigger] descent_ends(nodes, id)
}

proof fn lemma_bounds_fuel(m: SceneModel, id: NodeId, n: nat, k: nat, geo: Geometry)
    requires
        descends(m.nodes, id, n),
        descends(m.nodes, id, k),
    ensures
        m.bounds_within(id, n, geo) == m.bounds_within(id, k, geo),
    decreases n,
{
    if m.nodes.contains_key(id) {
        let children = m.nodes[id].children;
        if children.len() > 0 {
            assert(descends(m.nodes, m.nodes[id].children[0].id, (n - 1) as nat));
            assert(n > 0 && k > 0);
            let a = m.child_bounds(id, (n - 1) as nat, geo);
            let b = m.child_bounds(id, (k - 1) as nat, geo);
            assert forall|i: int| 0 <= i < children.len() implies #[trigger] a[i] == b[i] by {
                assert(descends(m.nodes, m.nodes[id].children[i].id, (n - 1) as nat));
                assert(descends(m.nodes, m.nodes[id].children[i].id, (k - 1) as nat));
                lemma_bounds_fuel(m, children[i].id, (n - 1) as nat, (k - 1) as nat, geo);
            }
            assert(a =~= b);
        } else {
            if n > 0 {
                assert(m.child_bounds(id, (n - 1) as nat, geo) =~= Seq::empty());
            }
            if k > 0 {
                assert(m.child_bounds(id, (k - 1) as nat, geo) =~= Seq::empty());
            }
        }
    }
}

pub proof fn lemma_bounds_depth(m: SceneModel, id: NodeId, n: nat, geo: Geometry)
    requires
        descends(m.nodes, id, n),
    ensures
        m.bounds_of(id, geo) == m.bounds_within(id, n, geo),
{
    lemma_bounds_fuel(m, id, depth_below(m.nodes, id), n, geo);
}

/// The bounds of a node in terms of its children's.
pub proof fn bounds_from_children(m: SceneModel, id: NodeId, geo: Geometry)
    requires
        descent_ends(m.nodes, id),
        m.nodes.contains_key(id),
        !m.nodes[id].flags.has(DOES_NOT_CONTRIBUTE_BOUNDING),
        m.nodes[id].bounds_cache is None,
    ensures
        m.bounds_of(id, geo) == with_own(
            merged(
                Seq::new(
                    m.nodes[id].children.len(),
                    |i: int| m.bounds_of(m.nodes[id].children[i].id, geo),
                ),
                geo.merge,
            ),
            m.own_bounds(id, geo),
            geo.merge,
        ),
{
    let n = depth_below(m.nodes, id);
    let children = m.nodes[id].children;
    let b = Seq::new(
        m.nodes[id].children.len(),
        |i: int| m.bounds_of(m.nodes[id].children[i].id, geo),
    );
    if children.len() > 0 {
        assert(descends(m.nodes, m.nodes[id].children[0].id, (n - 1) as nat));
        let a = m.child_bounds(id, (n - 1) as nat, geo);
        assert forall|i: int| 0 <= i < children.len() implies #[trigger] a[i] == b[i] by {
            assert(descends(m.nodes, m.nodes[id].children[i].id, (n - 1) as nat));
            lemma_bounds_depth(m, children[i].id, (n - 1) as nat, geo);
        }
        assert(a =~= b);
    } else {
        assert(b =~= Seq::empty());
        if n > 0 {
            assert(m.child_bounds(id, (n - 1) as nat, geo) =~= Seq::empty());
        }
    }
}

/// Whether `b` differs from the nodes of `m` at most in that world transforms and
/// bounds of some nodes are cached; bounds only where nothing was missing.
pub open spec fn geometry_filled(m: SceneModel, b: NodeMap, geo: Geometry) -> bool {
    &&& m.nodes.dom() == b.dom()
    &&& forall|k: NodeId| #[trigger] m.nodes.contains_key(k) ==> node_filled(m, b, k, geo)
}

/// What filling in the caches of one node may do.
pub open spec fn node_filled(m: SceneModel, b: NodeMap, k: NodeId, geo: Geometry) -> bool {
    &&& b[k] == (NodeModel {
        world_cache: b[k].world_cache,
        bounds_cache: b[k].bounds_cache,
        ..m.nodes[k]
    })
    &&& b[k].world_cache == m.nodes[k].world_cache || (m.nodes[k].world_cache is None && rooted(
        m.nodes,
        k,
    ) && b[k].world_cache == Some(world(m.nodes, k, geo.compose)))
    &&& b[k].bounds_cache == m.nodes[k].bounds_cache || (m.nodes[k].bounds_cache is None
        && !m.nodes[k].flags.has(DOES_NOT_CONTRIBUTE_BOUNDING) && !m.bounds_of(k, geo).incomplete
        && b[k].bounds_cache == Some(m.bounds_of(k, geo).bounds))
}

pub proof fn lemma_filled_shape(m: SceneModel, b: NodeMap, geo: Geometry)
    requires
        geometry_filled(m, b, geo),
    ensures
        same_shape(m.nodes, b),
        same_shape(b, m.nodes),
        acyclic(m.nodes) ==> acyclic(b),
{
    assert forall|k: NodeId| #[trigger] m.nodes.contains_key(k) implies m.nodes[k].parent
        == b[k].parent && m.nodes[k].children == b[k].children by {
        assert(node_filled(m, b, k, geo));
    }
    assert forall|k: NodeId| #[trigger] b.contains_key(k) implies m.nodes[k].parent == b[k].parent
        && m.nodes[k].children == b[k].children by {
        assert(m.nodes.contains_key(k));
    }
    if acyclic(m.nodes) {
        assert forall|id: NodeId| #[trigger] climb_ends(b, id) by {
            assert(climb_ends(m.nodes, id));
            let n = choose|n: nat| climbs(m.nodes, id, n);
            lemma_same_climbs(m.nodes, b, id, n);
            assert(climbs(b, id, n));
        }
        assert forall|id: NodeId| #[trigger] descent_ends(b, id) by {
            assert(descent_ends(m.nodes, id));
            let n = choose|n: nat| descends(m.nodes, id, n);
            lemma_same_descends(m.nodes, b, id, n);
        }
    }
}

proof fn lemma_same_rooted(a: NodeMap, b: NodeMap, id: NodeId)
    requires
        same_shape(a, b),
    ensures
        rooted(a, id) == rooted(b, id),
{
    if rooted(a, id) {
        let r = choose|r: NodeId| #[trigger] above(a, r, id) && a[r].parent is None;
        lemma_same_relations(a, b, r, id);
        super::tree::lemma_above_present(a, r, id);
        assert(above(b, r, id) && b[r].parent is None);
    }
    if rooted(b, id) {
        let r = choose|r: NodeId| #[trigger] above(b, r, id) && b[r].parent is None;
        lemma_same_relations(a, b, r, id);
        super::tree::lemma_above_present(b, r, id);
        assert(a.contains_key(r));
        assert(above(a, r, id) && a[r].parent is None);
    }
}

proof fn lemma_filled_world(m: SceneModel, b: NodeMap, geo: Geometry, id: NodeId, n: nat)
    requires
        geometry_filled(m, b, geo),
        climbs(m.nodes, id, n),
    ensures
        world_within(b, id, n, geo.compose) == world_within(m.nodes, id, n, geo.compose),
    decreases n,
{
    assert(m.nodes.contains_key(id) == b.contains_key(id));
    if m.nodes.contains_key(id) {
        assert(node_filled(m, b, id, geo));
        if b[id].world_cache == m.nodes[id].world_cache {
            if m.nodes[id].parent is Some {
                lemma_filled_world(m, b, geo, m.nodes[id].parent->0, (n - 1) as nat);
            }
        } else {
            super::world::lemma_world_height(m.nodes, id, n, geo.compose);
        }
    }
}

/// Asking for bounds or transforms changes no transform.
pub proof fn geometry_query_changes_no_transform(
    m: SceneModel,
    b: NodeMap,
    geo: Geometry,
    id: NodeId,
)
    requires
        geometry_filled(m, b, geo),
        climb_ends(m.nodes, id),
    ensures
        transform_of(b, id, geo.compose) == transform_of(m.nodes, id, geo.compose),
        m.nodes.contains_key(id) ==> world(b, id, geo.compose) == world(m.nodes, id, geo.compose),
{
    lemma_filled_shape(m, b, geo);
    lemma_same_rooted(m.nodes, b, id);
    let n = height_above(m.nodes, id);
    lemma_same_climbs(m.nodes, b, id, n);
    lemma_filled_world(m, b, geo, id, n);
    super::world::lemma_world_height(b, id, n, geo.compose);
    assert(m.nodes.contains_key(id) == b.contains_key(id));
    if m.nodes.contains_key(id) {
        assert(node_filled(m, b, id, geo));
    }
}

proof fn lemma_filled_within(m: SceneModel, b: NodeMap, geo: Geometry, id: NodeId, n: nat)
    requires
        geometry_filled(m, b, geo),
        acyclic(m.nodes),
        descends(m.nodes, id, n),
    ensures
        m.with_nodes(b).bounds_within(id, n, geo) == m.bounds_within(id, n, geo),
    decreases n,
{
    let after = m.with_nodes(b);
    assert(m.nodes.contains_key(id) == b.contains_key(id));
    if m.nodes.contains_key(id) {
        assert(node_filled(m, b, id, geo));
        if b[id].bounds_cache == m.nodes[id].bounds_cache {
            let children = m.nodes[id].children;
            if n > 0 {
                let x = m.child_bounds(id, (n - 1) as nat, geo);
                let y = after.child_bounds(id, (n - 1) as nat, geo);
                assert forall|i: int| 0 <= i < children.len() implies #[trigger] x[i] == y[i] by {
                    assert(descends(m.nodes, m.nodes[id].children[i].id, (n - 1) as nat));
                    lemma_filled_within(m, b, geo, children[i].id, (n - 1) as nat);
                }
                assert(x =~= y);
            }
            assert(climb_ends(m.nodes, id));
            geometry_query_changes_no_transform(m, b, geo, id);
            assert(after.own_bounds(id, geo) == m.own_bounds(id, geo));
        } else {
            lemma_bounds_depth(m, id, n, geo);
        }
    }
}

/// Asking for bounds or transforms changes no bounds.
pub proof fn geometry_query_changes_no_bounds(
    m: SceneModel,
    b: NodeMap,
    geo: Geometry,
    id: NodeId,
)
    requires
        geometry_filled(m, b, geo),
        acyclic(m.nodes),
    ensures
        m.with_nodes(b).bounds_of(id, geo) == m.bounds_of(id, geo),
{
    lemma_filled_shape(m, b, geo);
    assert(descent_ends(m.nodes, id));
    let n = depth_below(m.nodes, id);
    lemma_same_descends(m.nodes, b, id, n);
    lemma_filled_within(m, b, geo, id, n);
    lemma_bounds_depth(m.with_nodes(b), id, n, geo);
}

pub proof fn lemma_filled_trans(m: SceneModel, b: NodeMap, c: NodeMap, geo: Geometry)
    requires
        geometry_filled(m, b, geo),
        geometry_filled(m.with_nodes(b), c, geo),
        acyclic(m.nodes),
    ensures
        geometry_filled(m, c, geo),
{
    lemma_filled_shape(m, b, geo);
    assert forall|k: NodeId| #[trigger] m.nodes.contains_key(k) implies node_filled(m, c, k, geo) by {
        assert(node_filled(m, b, k, geo));
        assert(b.contains_key(k));
        assert(node_filled(m.with_nodes(b), c, k, geo));
        assert(climb_ends(m.nodes, k));
        geometry_query_changes_no_transform(m, b, geo, k);
        geometry_query_changes_no_bounds(m, b, geo, k);
        lemma_same_rooted(m.nodes, b, k);
    }
}

/// Filling in nothing.
pub proof fn lemma_filled_refl(m: SceneModel, geo: Geometry)
    ensures
        geometry_filled(m, m.nodes, geo),
{
    assert forall|k: NodeId| #[trigger] m.nodes.contains_key(k) implies node_filled(
        m,
        m.nodes,
        k,
        geo,
    ) by {}
}

/// Asking for a transform fills in caches.
pub proof fn lemma_world_is_geometry(m: SceneModel, id: NodeId, geo: Geometry)
    requires
        climb_ends(m.nodes, id),
    ensures
        geometry_filled(m, warmed(m.nodes, id, geo.compose), geo),
{
    lemma_warmed_filled(m.nodes, id, geo.compose);
    let b = warmed(m.nodes, id, geo.compose);
    assert forall|k: NodeId| #[trigger] m.nodes.contains_key(k) implies node_filled(m, b, k, geo) by {
        assert(b[k] == m.nodes[k] || b[k] == (NodeModel {
            world_cache: Some(world(m.nodes, k, geo.compose)),
            ..m.nodes[k]
        }));
    }
}

/// The box around two boxes, either of which may be missing.
fn join_boxes<M: Fn(Aabb, Aabb) -> Aabb>(a: Option<Aabb>, b: Option<Aabb>, merge: &M) -> (joined:
    Option<Aabb>)
    requires
        definite2(*merge),
    ensures
        joined == join(a, b, value2(*merge)),
{
    match a {
        Some(x) => match b {
            Some(y) => Some(apply2(merge, x, y)),
            None => Some(x),
        },
        None => b,
    }
}

impl SceneData {
    /// Gets the world-space bounding box of the entire scene.
    ///
    /// Merges the bounding results of all root nodes. `incomplete` is true if any
    /// part of the scene tree was missing at the time of computation.
    pub fn bounding<
        F: Fn(Matrix4, Transform) -> Matrix4,
        P: Fn(Aabb, Matrix4) -> Aabb,
        M: Fn(Aabb, Aabb) -> Aabb,
    >(&mut self, compose: &F, place: &P, merge: &M) -> (result: BoundingResult)
        requires
            acyclic(old(self)@.nodes),
            definite2(*compose),
            definite2(*place),
            definite2(*merge),
        ensures
            result == old(self)@.scene_bounds(geometry(*compose, *place, *merge)),
            geometry_filled(old(self)@, final(self)@.nodes, geometry(*compose, *place, *merge)),
            final(self)@ == old(self)@.with_nodes(final(self)@.nodes),
            old(self)@.sound() ==> final(self)@.sound(),
    {
        let ghost m = self@;
        let ghost geo = geometry(*compose, *place, *merge);
        let roots = self.root_nodes();
        let result = self.merge_all(&roots, compose, place, merge, Ghost(None));
        proof {
            let a = Seq::new(roots@.len(), |i: int| m.bounds_of(roots@[i], geo));
            let b = Seq::new(m.roots.len(), |i: int| m.bounds_of(m.roots[i].id, geo));
            assert(a =~= b);
            lemma_query_sound(m, self@, geo);
        }
        result
    }

    /// Gets the world-space bounding box of a node and its subtree.
    ///
    /// This returns the cached bounds if valid, otherwise recursively computes them
    /// bottom-up for the entire subtree rooted at this node.
    ///
    /// The bounds cover both the node's instance (if any) and all descendants. Check
    /// `BoundingResult::incomplete` to know if missing resources prevented a full
    /// computation.
    pub fn nodes_bounding<
        F: Fn(Matrix4, Transform) -> Matrix4,
        P: Fn(Aabb, Matrix4) -> Aabb,
        M: Fn(Aabb, Aabb) -> Aabb,
    >(&mut self, id: NodeId, compose: &F, place: &P, merge: &M) -> (result: BoundingResult)
        requires
            acyclic(old(self)@.nodes),
            definite2(*compose),
            definite2(*place),
            definite2(*merge),
        ensures
            result == old(self)@.bounds_of(id, geometry(*compose, *place, *merge)),
            geometry_filled(old(self)@, final(self)@.nodes, geometry(*compose, *place, *merge)),
            old(self)@.nodes.contains_key(id) && !result.incomplete && !old(self)@.nodes[id].flags.has(DOES_NOT_CONTRIBUTE_BOUNDING)
                ==> final(self)@.nodes[id].bounds_cache == Some(result.bounds),
            final(self)@ == old(self)@.with_nodes(final(self)@.nodes),
            old(self)@.sound() ==> final(self)@.sound(),
    {
        let ghost m = self@;
        let ghost geo = geometry(*compose, *place, *merge);
        proof {
            assert(descent_ends(m.nodes, id));
        }
        let result = self.bounds_at(id, compose, place, merge, Ghost(depth_below(m.nodes, id)));
        proof {
            lemma_query_sound(m, self@, geo);
        }
        result
    }

    fn bounds_at<
        F: Fn(Matrix4, Transform) -> Matrix4,
        P: Fn(Aabb, Matrix4) -> Aabb,
        M: Fn(Aabb, Aabb) -> Aabb,
    >(&mut self, id: NodeId, compose: &F, place: &P, merge: &M, Ghost(depth): Ghost<nat>) -> (
        result: BoundingResult)
        requires
            acyclic(old(self)@.nodes),
            descends(old(self)@.nodes, id, depth),
            definite2(*compose),
            definite2(*place),
            definite2(*merge),
        ensures
            result == old(self)@.bounds_of(id, geometry(*compose, *place, *merge)),
            geometry_filled(old(self)@, final(self)@.nodes, geometry(*compose, *place, *merge)),
            old(self)@.nodes.contains_key(id) && !result.incomplete && !old(self)@.nodes[id].flags.has(DOES_NOT_CONTRIBUTE_BOUNDING)
                ==> final(self)@.nodes[id].bounds_cache == Some(result.bounds),
            final(self)@ == old(self)@.with_nodes(final(self)@.nodes),
        decreases depth, 1nat,
    {
        let ghost m = self@;
        let ghost geo = geometry(*compose, *place, *merge);
        proof {
            lemma_bounds_depth(m, id, depth, geo);
            assert(descent_ends(m.nodes, id));
            assert(m.with_nodes(m.nodes) =~= m);
        }
        let (children, instance): (Vec<NodeId>, Option<u64>) = match self.nodes.get(id) {
            None => {
                return BoundingResult { bounds: None, incomplete: true };
            },
            Some(node) => {
                if node.flags.contains(DOES_NOT_CONTRIBUTE_BOUNDING) {
                    return BoundingResult { bounds: None, incomplete: false };
                }
                if let Some(cached) = node.bounds_cache {
                    return BoundingResult { bounds: cached, incomplete: false };
                }
                let instance = match &node.payload {
                    NodePayload::Instance(h) => Some(h.id),
                    _ => None,
                };
                (node.child_ids(), instance)
            },
        };
        proof {
            bounds_from_children(m, id, geo);
            assert forall|i: int| 0 <= i < children.len() implies depth > 0 && descends(
                m.nodes,
                #[trigger] children@[i],
                (depth - 1) as nat,
            ) by {
                assert(descends(m.nodes, m.nodes[id].children[i].id, (depth - 1) as nat));
            }
        }
        let below = self.merge_all(&children, compose, place, merge, Ghost(Some(depth)));
        let ghost mid = self@;
        proof {
            let a = Seq::new(children@.len(), |i: int| m.bounds_of(children@[i], geo));
            let b = Seq::new(
                m.nodes[id].children.len(),
                |i: int| m.bounds_of(m.nodes[id].children[i].id, geo),
            );
            assert(a =~= b);
            lemma_filled_shape(m, mid.nodes, geo);
            assert(climb_ends(mid.nodes, id));
            geometry_query_changes_no_transform(m, mid.nodes, geo, id);
            lemma_world_is_geometry(mid, id, geo);
            lemma_filled_trans(m, mid.nodes, warmed(mid.nodes, id, geo.compose), geo);
            assert(mid.nodes.contains_key(id));
        }
        let own: Option<Aabb> = match instance {
            None => None,
            Some(instance_id) => {
                let world = match self.nodes_transform(id, compose) {
                    Some(world) => world,
                    None => {
                        return BoundingResult { bounds: below.bounds, incomplete: true };
                    },
                };
                let mesh_id = match self.instances.get(instance_id) {
                    Some(item) => item.mesh(),
                    None => {
                        return BoundingResult { bounds: below.bounds, incomplete: true };
                    },
                };
                match self.meshes.get(mesh_id) {
                    Some(mesh) => match mesh.bounding() {
                        Some(b) => Some(apply2(place, b, world)),
                        None => None,
                    },
                    None => {
                        return BoundingResult { bounds: below.bounds, incomplete: true };
                    },
                }
            },
        };
        let bounds = join_boxes(own, below.bounds, merge);
        let ghost before = self@;
        proof {
            assert(geometry_filled(m, before.nodes, geo));
            assert(node_filled(m, before.nodes, id, geo));
            assert(m.bounds_of(id, geo) == (BoundingResult {
                bounds,
                incomplete: below.incomplete,
            }));
        }
        if !below.incomplete {
            if let Some(node) = self.nodes.get_mut(id) {
                node.bounds_cache = Some(bounds);
            }
            proof {
                assert(self@.nodes =~= before.nodes.insert(
                    id,
                    NodeModel { bounds_cache: Some(bounds), ..before.nodes[id] },
                ));
                assert(self@.nodes.dom() =~= m.nodes.dom());
                assert forall|k: NodeId| #[trigger] m.nodes.contains_key(k) implies node_filled(
                    m,
                    self@.nodes,
                    k,
                    geo,
                ) by {
                    assert(node_filled(m, before.nodes, k, geo));
                }
            }
        }
        BoundingResult { bounds, incomplete: below.incomplete }
    }

    /// The bounds of the given nodes taken together.
    fn merge_all<
        F: Fn(Matrix4, Transform) -> Matrix4,
        P: Fn(Aabb, Matrix4) -> Aabb,
        M: Fn(Aabb, Aabb) -> Aabb,
    >(
        &mut self,
        ids: &Vec<NodeId>,
        compose: &F,
        place: &P,
        merge: &M,
        Ghost(depth): Ghost<Option<nat>>,
    ) -> (result: BoundingResult)
        requires
            acyclic(old(self)@.nodes),
            definite2(*compose),
            definite2(*place),
            definite2(*merge),
            depth matches Some(d) ==> forall|i: int|
                0 <= i < ids.len() ==> d > 0 && descends(
                    old(self)@.nodes,
                    #[trigger] ids@[i],
                    (d - 1) as nat,
                ),
        ensures
            result == merged(
                Seq::new(
                    ids@.len(),
                    |i: int|
                        old(self)@.bounds_of(ids@[i], geometry(*compose, *place, *merge)),
                ),
                value2(*merge),
            ),
            geometry_filled(old(self)@, final(self)@.nodes, geometry(*compose, *place, *merge)),
            final(self)@ == old(self)@.with_nodes(final(self)@.nodes),
        decreases fuel(old(self)@.nodes, ids@, depth), 0nat,
    {
        let ghost m = self@;
        let ghost geo = geometry(*compose, *place, *merge);
        let ghost results = Seq::new(ids@.len(), |i: int| m.bounds_of(ids@[i], geo));
        let mut bounds: Option<Aabb> = None;
        let mut incomplete = false;
        let mut i: usize = 0;
        proof {
            assert(m.with_nodes(m.nodes) =~= m);
            assert(results.take(0) =~= Seq::empty());
        }
        while i < ids.len()
            invariant
                i <= ids.len(),
                m == old(self)@,
                acyclic(m.nodes),
                definite2(*compose),
                definite2(*place),
                definite2(*merge),
                depth matches Some(d) ==> forall|j: int|
                    0 <= j < ids.len() ==> d > 0 && descends(
                        m.nodes,
                        #[trigger] ids@[j],
                        (d - 1) as nat,
                    ),
                geo == geometry(*compose, *place, *merge),
                results == Seq::new(ids@.len(), |j: int| m.bounds_of(ids@[j], geo)),
                geometry_filled(m, self@.nodes, geo),
                self@ == m.with_nodes(self@.nodes),
                merged(results.take(i as int), geo.merge) == (BoundingResult {
                    bounds,
                    incomplete,
                }),
            decreases ids.len() - i,
        {
            let ghost before = self@;
            let id: NodeId = ids[i];
            let ghost d = child_fuel(m.nodes, ids@, depth);
            proof {
                lemma_child_fuel(m.nodes, ids@, depth, i as int);
                lemma_filled_shape(m, before.nodes, geo);
                lemma_same_descends(m.nodes, before.nodes, id, d);
                geometry_query_changes_no_bounds(m, before.nodes, geo, id);
                assert(before =~= m.with_nodes(before.nodes));
            }
            let child = self.bounds_at(id, compose, place, merge, Ghost(d));
            proof {
                lemma_filled_trans(m, before.nodes, self@.nodes, geo);
                let front = results.take(i as int);
                let next = results.take(i + 1);
                assert(next.drop_last() =~= front);
                assert(next.last() == child);
            }
            if child.incomplete {
                incomplete = true;
            }
            bounds = join_boxes(bounds, child.bounds, merge);
            i = i + 1;
        }
        proof {
            assert(results.take(ids@.len() as int) =~= results);
        }
        BoundingResult { bounds, incomplete }
    }
}

/// How many steps down there are from some nodes, where it is not given.
spec fn child_fuel(nodes: NodeMap, ids: Seq<NodeId>, depth: Option<nat>) -> nat {
    match depth {
        Some(d) => if d > 0 {
            (d - 1) as nat
        } else {
            0
        },
        None => choose|n: nat| all_descend(nodes, ids, n),
    }
}

/// One more than that.
spec fn fuel(nodes: NodeMap, ids: Seq<NodeId>, depth: Option<nat>) -> nat {
    match depth {
        Some(d) => d,
        None => child_fuel(nodes, ids, depth) + 1,
    }
}

spec fn all_descend(nodes: NodeMap, ids: Seq<NodeId>, n: nat) -> bool {
    forall|i: int| 0 <= i < ids.len() ==> descends(nodes, #[trigger] ids[i], n)
}

proof fn lemma_all_descend(nodes: NodeMap, ids: Seq<NodeId>) -> (n: nat)
    requires
        acyclic(nodes),
    ensures
        all_descend(nodes, ids, n),
    decreases ids.len(),
{
    if ids.len() == 0 {
        0
    } else {
        let a = lemma_all_descend(nodes, ids.drop_last());
        assert(descent_ends(nodes, ids.last()));
        let b = choose|b: nat| descends(nodes, ids.last(), b);
        let n = if a > b {
            a
        } else {
            b
        };
        assert forall|i: int| 0 <= i < ids.len() implies descends(nodes, #[trigger] ids[i], n) by {
            if i < ids.len() - 1 {
                assert(descends(nodes, ids.drop_last()[i], a));
                super::tree::lemma_descends_more(nodes, ids[i], a, n);
            } else {
                super::tree::lemma_descends_more(nodes, ids[i], b, n);
            }
        }
        n
    }
}

proof fn lemma_child_fuel(nodes: NodeMap, ids: Seq<NodeId>, depth: Option<nat>, i: int)
    requires
        acyclic(nodes),
        0 <= i < ids.len(),
        depth matches Some(d) ==> forall|j: int|
            0 <= j < ids.len() ==> d > 0 && descends(nodes, #[trigger] ids[j], (d - 1) as nat),
    ensures
        descends(nodes, ids[i], child_fuel(nodes, ids, depth)),
{
    match depth {
        Some(d) => {
            assert(descends(nodes, ids[i], (d - 1) as nat));
        },
        None => {
            let n = lemma_all_descend(nodes, ids);
            let k = child_fuel(nodes, ids, depth);
            assert(all_descend(nodes, ids, k));
        },
    }
}

pub proof fn lemma_query_sound(m: SceneModel, after: SceneModel, geo: Geometry)
    requires
        geometry_filled(m, after.nodes, geo),
        after == m.with_nodes(after.nodes),
    ensures
        m.sound() ==> after.sound(),
{
    if m.sound() {
        lemma_filled_shape(m, after.nodes, geo);
        assert(super::node_laws::same_ownership(m.nodes, after.nodes)) by {
            assert forall|k: NodeId| #[trigger] m.nodes.contains_key(k) implies m.nodes[k].id
                == after.nodes[k].id && m.nodes[k].payload.handle()
                == after.nodes[k].payload.handle() by {
                assert(node_filled(m, after.nodes, k, geo));
            }
        }
        assert(only_attributes(m, after));
        attributes_keep_sound(m, after);
    }
}

} // verus!
