//! Picking by walking the scene tree.

use super::pick_laws::{gets_to, hits_of, picks_miss_nothing};
use crate::camera::PositionedCamera;
use crate::common::{Aabb, Matrix4, Transform};
use crate::data::bounds::{
    acyclic, geometry, geometry_filled, geometry_query_changes_no_bounds,
    geometry_query_changes_no_transform, lemma_filled_refl, lemma_filled_shape,
    lemma_filled_trans, lemma_world_is_geometry, Geometry,
};
use crate::data::model::SceneModel;
use crate::data::tree::{climb_ends, descends, descent_ends};
use crate::data::visibility::depth_below;
use crate::data::world::{transform_of, warmed};
use crate::data::SceneData;
use crate::numeric::{apply1, apply3, definite1, definite2, definite3, value1, value3};
use crate::resource::display::DisplayBehavior;
use crate::resource::handle::{Handle, InstanceId, NodeId};
use crate::resource::mesh::{Mesh, MeshModel};
use crate::resource::node::{NodePayload, DO_NOT_SELECT};
use vstd::prelude::*;

verus! {

/// A query that can pick objects by traversing the scene tree.
///
/// Implement this trait to create custom picking behaviors. The generic traversal
/// handles tree walking, culling by bounds, and coordinate space transformations;
/// implementors only need to define the actual tests.
pub trait PickQuery: Sized {
    /// Result type returned for hits. A single mesh test may produce multiple results.
    type Result;

    /// Whether the query might intersect geometry within the bounds. A query that does
    /// not say otherwise looks everywhere.
    open spec fn might_intersect(&self, bounds: Aabb) -> bool {
        true
    }

    /// The query in another coordinate space. A query that does not say otherwise is the
    /// same in every space.
    open spec fn transformed(&self, matrix: Matrix4) -> Self {
        *self
    }

    /// What the query picks of a mesh. A query that does not say otherwise picks nothing.
    open spec fn hits(
        &self,
        mesh: MeshModel,
        node_id: NodeId,
        instance_id: InstanceId,
        world_transform: Matrix4,
    ) -> Seq<Self::Result> {
        Seq::empty()
    }

    /// Broad phase test: does this query potentially intersect geometry within the
    /// bounds?
    ///
    /// Return `true` if the subtree should be explored, `false` to skip it entirely.
    fn might_intersect_bounds(&self, bounds: &Aabb) -> (yes: bool)
        ensures
            yes == self.might_intersect(*bounds),
    ;

    /// Transform this query to a different coordinate space.
    fn transform(&self, matrix: &Matrix4) -> (query: Self)
        ensures
            query == self.transformed(*matrix),
    ;

    /// Narrow phase test: test the query against a mesh and append the results. The
    /// query has already been transformed to local mesh space.
    fn collect_mesh_hits(
        &self,
        mesh: &Mesh,
        node_id: NodeId,
        instance_id: InstanceId,
        world_transform: &Matrix4,
        results: &mut Vec<Self::Result>,
    )
        ensures
            final(results)@ == old(results)@ + self.hits(
                mesh@,
                node_id,
                instance_id,
                *world_transform,
            ),
    ;
}

/// Camera context that makes picking agree with a screen-space render.
///
/// Screen-sized and screen-facing nodes are drawn at a camera-dependent effective
/// transform, not their authored world transform. Supplying a `PickView` lets the
/// traversal test against that same effective transform so picks land where the
/// geometry visually appears.
#[derive(Debug, Clone, Copy, PartialEq, Eq, Structural)]
pub struct PickView {
    pub camera: PositionedCamera,
    /// Viewport size in pixels.
    pub width: u32,
    pub height: u32,
}

/// The arithmetic that picking needs, as functions.
pub struct PickMath<F, P, M, I, E> {
    /// Composes a world transform with a local one.
    pub compose: F,
    /// The box around a transformed box.
    pub place: P,
    /// The box around two boxes.
    pub merge: M,
    /// The inverse of a matrix, unless it is singular.
    pub invert: I,
    /// Where a screen-space node is drawn: from its presentation, its world transform
    /// and the view.
    pub effective: E,
}

/// What the functions of a [`PickMath`] compute.
pub struct PickModel {
    pub geo: Geometry,
    pub invert: spec_fn(Matrix4) -> Option<Matrix4>,
    pub effective: spec_fn(DisplayBehavior, Matrix4, PickView) -> Matrix4,
}

impl<
    F: Fn(Matrix4, Transform) -> Matrix4,
    P: Fn(Aabb, Matrix4) -> Aabb,
    M: Fn(Aabb, Aabb) -> Aabb,
    I: Fn(Matrix4) -> Option<Matrix4>,
    E: Fn(DisplayBehavior, Matrix4, PickView) -> Matrix4,
> PickMath<F, P, M, I, E> {
    /// Every function accepts every argument and is a function of it.
    pub open spec fn definite(&self) -> bool {
        &&& definite2(self.compose)
        &&& definite2(self.place)
        &&& definite2(self.merge)
        &&& definite1(self.invert)
        &&& definite3(self.effective)
    }

    /// What the functions compute.
    pub open spec fn model(&self) -> PickModel {
        PickModel {
            geo: geometry(self.compose, self.place, self.merge),
            invert: value1(self.invert),
            effective: value3(self.effective),
        }
    }
}

impl SceneModel {
    /// The model matrix to pick a node at. Screen-space nodes are picked where the
    /// view draws them, when there is one; everything else at the world transform.
    pub open spec fn pick_transform(
        self,
        id: NodeId,
        display: DisplayBehavior,
        view: Option<PickView>,
        math: PickModel,
    ) -> Option<Matrix4> {
        match transform_of(self.nodes, id, math.geo.compose) {
            None => None,
            Some(world) => match view {
                Some(v) if display.screen_space() => Some((math.effective)(display, world, v)),
                _ => Some(world),
            },
        }
    }

    /// What the query picks of the instance that a node carries, drawn with
    /// `transform`. Nothing if the instance or its mesh is missing, or if the
    /// transform is singular.
    pub open spec fn instance_hits<Q: PickQuery>(
        self,
        query: Q,
        id: NodeId,
        instance_id: InstanceId,
        transform: Matrix4,
        math: PickModel,
    ) -> Seq<Q::Result> {
        if self.instances.contains_key(instance_id) && self.meshes.contains_key(
            self.instances[instance_id].mesh.id,
        ) {
            match (math.invert)(transform) {
                None => Seq::empty(),
                Some(local) => query.transformed(local).hits(
                    self.meshes[self.instances[instance_id].mesh.id],
                    id,
                    instance_id,
                    transform,
                ),
            }
        } else {
            Seq::empty()
        }
    }

    /// What the query picks of the node itself.
    pub open spec fn own_hits<Q: PickQuery>(
        self,
        query: Q,
        id: NodeId,
        display: DisplayBehavior,
        view: Option<PickView>,
        math: PickModel,
    ) -> Seq<Q::Result> {
        match self.nodes[id].payload.handle() {
            None => Seq::empty(),
            Some(h) => match self.pick_transform(id, display, view, math) {
                None => Seq::empty(),
                Some(transform) => self.instance_hits(query, id, h.id, transform, math),
            },
        }
    }

    /// Whether the subtree of a node is explored. A node that cannot be selected is
    /// not. Bounds are not consulted where the view decides on the placement; else a
    /// subtree without bounds, or outside of what the query can reach, is skipped.
    pub open spec fn explored<Q: PickQuery>(
        self,
        query: Q,
        id: NodeId,
        display: DisplayBehavior,
        view: Option<PickView>,
        math: PickModel,
    ) -> bool {
        &&& self.nodes.contains_key(id)
        &&& !self.nodes[id].flags.has(DO_NOT_SELECT)
        &&& (view is Some && display.screen_space()) || match self.bounds_of(id, math.geo).bounds {
            None => false,
            Some(b) => query.might_intersect(b),
        }
    }

    /// What the query picks of a node and its descendants, looking at most `n` steps
    /// down: the node's own hits, then those of its children in order.
    pub open spec fn picked_within<Q: PickQuery>(
        self,
        query: Q,
        id: NodeId,
        n: nat,
        inherited: DisplayBehavior,
        view: Option<PickView>,
        math: PickModel,
    ) -> Seq<Q::Result>
        decreases n, 0nat,
    {
        let display = DisplayBehavior::inherited(inherited, self.nodes[id].display);
        if !self.explored(query, id, display, view, math) {
            Seq::empty()
        } else {
            self.own_hits(query, id, display, view, math) + (if n > 0 {
                self.picked_list(
                    query,
                    self.nodes[id].children,
                    (n - 1) as nat,
                    display,
                    view,
                    math,
                )
            } else {
                Seq::empty()
            })
        }
    }

    /// What the query picks of several nodes and their descendants, in order.
    pub open spec fn picked_list<Q: PickQuery>(
        self,
        query: Q,
        ids: Seq<Handle>,
        n: nat,
        inherited: DisplayBehavior,
        view: Option<PickView>,
        math: PickModel,
    ) -> Seq<Q::Result>
        decreases n, ids.len() + 1,
    {
        if ids.len() == 0 {
            Seq::empty()
        } else {
            self.picked_list(query, ids.drop_last(), n, inherited, view, math)
                + self.picked_within(query, ids.last().id, n, inherited, view, math)
        }
    }

    /// What the query picks of a node and its descendants.
    pub open spec fn picked<Q: PickQuery>(
        self,
        query: Q,
        id: NodeId,
        inherited: DisplayBehavior,
        view: Option<PickView>,
        math: PickModel,
    ) -> Seq<Q::Result> {
        self.picked_within(query, id, depth_below(self.nodes, id), inherited, view, math)
    }

    /// What the query picks of the whole scene: root by root, in order.
    pub open spec fn picked_all<Q: PickQuery>(
        self,
        query: Q,
        view: Option<PickView>,
        math: PickModel,
    ) -> Seq<Q::Result> {
        self.picked_each(query, self.roots, DisplayBehavior::ordinary(), view, math)
    }

    /// What the query picks of the given nodes and their descendants, in order.
    pub open spec fn picked_each<Q: PickQuery>(
        self,
        query: Q,
        ids: Seq<Handle>,
        inherited: DisplayBehavior,
        view: Option<PickView>,
        math: PickModel,
    ) -> Seq<Q::Result>
        decreases ids.len(),
    {
        if ids.len() == 0 {
            Seq::empty()
        } else {
            self.picked_each(query, ids.drop_last(), inherited, view, math) + self.picked(
                query,
                ids.last().id,
                inherited,
                view,
                math,
            )
        }
    }
}

/// Looking further down than the paths go makes no difference.
proof fn lemma_picked_fuel<Q: PickQuery>(
    m: SceneModel,
    query: Q,
    id: NodeId,
    n: nat,
    k: nat,
    inherited: DisplayBehavior,
    view: Option<PickView>,
    math: PickModel,
)
    requires
        descends(m.nodes, id, n),
        descends(m.nodes, id, k),
    ensures
        m.picked_within(query, id, n, inherited, view, math) == m.picked_within(
            query,
            id,
            k,
            inherited,
            view,
            math,
        ),
    decreases n, 0nat,
{
    if m.nodes.contains_key(id) {
        let children = m.nodes[id].children;
        let display = DisplayBehavior::inherited(inherited, m.nodes[id].display);
        if children.len() > 0 {
            assert(descends(m.nodes, m.nodes[id].children[0].id, (n - 1) as nat));
            assert(descends(m.nodes, m.nodes[id].children[0].id, (k - 1) as nat));
            assert forall|i: int| 0 <= i < children.len() implies descends(
                m.nodes,
                (#[trigger] children[i]).id,
                (n - 1) as nat,
            ) && descends(m.nodes, children[i].id, (k - 1) as nat) by {
                assert(descends(m.nodes, m.nodes[id].children[i].id, (n - 1) as nat));
                assert(descends(m.nodes, m.nodes[id].children[i].id, (k - 1) as nat));
            }
            lemma_list_fuel(
                m,
                query,
                children,
                (n - 1) as nat,
                (k - 1) as nat,
                display,
                view,
                math,
            );
        } else {
            assert(m.picked_list(query, children, (n - 1) as nat, display, view, math)
                =~= Seq::empty());
            assert(m.picked_list(query, children, (k - 1) as nat, display, view, math)
                =~= Seq::empty());
        }
    }
}

proof fn lemma_list_fuel<Q: PickQuery>(
    m: SceneModel,
    query: Q,
    ids: Seq<Handle>,
    n: nat,
    k: nat,
    inherited: DisplayBehavior,
    view: Option<PickView>,
    math: PickModel,
)
    requires
        forall|i: int|
            0 <= i < ids.len() ==> descends(m.nodes, (#[trigger] ids[i]).id, n) && descends(
                m.nodes,
                ids[i].id,
                k,
            ),
    ensures
        m.picked_list(query, ids, n, inherited, view, math) == m.picked_list(
            query,
            ids,
            k,
            inherited,
            view,
            math,
        ),
    decreases n, ids.len() + 1,
{
    if ids.len() > 0 {
        assert forall|i: int| 0 <= i < ids.drop_last().len() implies descends(
            m.nodes,
            (#[trigger] ids.drop_last()[i]).id,
            n,
        ) && descends(m.nodes, ids.drop_last()[i].id, k) by {
            assert(ids.drop_last()[i] == ids[i]);
        }
        lemma_list_fuel(m, query, ids.drop_last(), n, k, inherited, view, math);
        assert(ids[ids.len() - 1] == ids.last());
        lemma_picked_fuel(m, query, ids.last().id, n, k, inherited, view, math);
    }
}

proof fn lemma_picked_depth<Q: PickQuery>(
    m: SceneModel,
    query: Q,
    id: NodeId,
    n: nat,
    inherited: DisplayBehavior,
    view: Option<PickView>,
    math: PickModel,
)
    requires
        descends(m.nodes, id, n),
    ensures
        m.picked(query, id, inherited, view, math) == m.picked_within(
            query,
            id,
            n,
            inherited,
            view,
            math,
        ),
{
    lemma_picked_fuel(m, query, id, depth_below(m.nodes, id), n, inherited, view, math);
}

/// Picks what a query matches in a node, given the query's broad phase result and
/// the state of the caches.
fn pick_node<
    Q: PickQuery,
    F: Fn(Matrix4, Transform) -> Matrix4,
    P: Fn(Aabb, Matrix4) -> Aabb,
    M: Fn(Aabb, Aabb) -> Aabb,
    I: Fn(Matrix4) -> Option<Matrix4>,
    E: Fn(DisplayBehavior, Matrix4, PickView) -> Matrix4,
>(
    query: &Q,
    id: NodeId,
    scene: &mut SceneData,
    inherited: DisplayBehavior,
    view: Option<PickView>,
    math: &PickMath<F, P, M, I, E>,
    results: &mut Vec<Q::Result>,
    Ghost(m): Ghost<SceneModel>,
    Ghost(depth): Ghost<nat>,
)
    requires
        acyclic(m.nodes),
        math.definite(),
        geometry_filled(m, old(scene)@.nodes, math.model().geo),
        old(scene)@ == m.with_nodes(old(scene)@.nodes),
        descends(m.nodes, id, depth),
    ensures
        final(results)@ == old(results)@ + m.picked_within(
            *query,
            id,
            depth,
            inherited,
            view,
            math.model(),
        ),
        geometry_filled(m, final(scene)@.nodes, math.model().geo),
        final(scene)@ == m.with_nodes(final(scene)@.nodes),
    decreases depth,
{
    let ghost start = results@;
    let ghost geo = math.model().geo;
    let ghost given = scene@;
    proof {
        lemma_filled_shape(m, given.nodes, geo);
        assert(given.nodes.contains_key(id) == m.nodes.contains_key(id));
        if m.nodes.contains_key(id) {
            assert(crate::data::bounds::node_filled(m, given.nodes, id, geo));
        }
        assert(start + Seq::<Q::Result>::empty() =~= start);
    }
    let (display, children, instance): (DisplayBehavior, Vec<NodeId>, Option<InstanceId>) =
        match scene.get_node(id) {
        None => {
            return ;
        },
        Some(node) => {
            if node.flags.contains(DO_NOT_SELECT) {
                return ;
            }
            let instance = match &node.payload {
                NodePayload::Instance(h) => Some(h.id),
                _ => None,
            };
            (DisplayBehavior::inherit(inherited, node.display), node.child_ids(), instance)
        },
    };
    let placed_by_view = view.is_some() && display.is_screen_space();
    if !placed_by_view {
        proof {
            geometry_query_changes_no_bounds(m, given.nodes, geo, id);
        }
        let found = scene.nodes_bounding(id, &math.compose, &math.place, &math.merge);
        proof {
            lemma_filled_trans(m, given.nodes, scene@.nodes, geo);
        }
        match found.bounds {
            None => {
                return ;
            },
            Some(bounds) => {
                if !query.might_intersect_bounds(&bounds) {
                    return ;
                }
            },
        }
    }
    if let Some(instance_id) = instance {
        collect_node_hits(query, id, instance_id, scene, display, view, math, results, Ghost(m));
    }
    let ghost own = m.own_hits(*query, id, display, view, math.model());
    proof {
        if instance is None {
            assert(own =~= Seq::empty());
        }
        assert(results@ =~= start + own);
    }
    let mut i: usize = 0;
    let ghost handles = m.nodes[id].children;
    proof {
        assert(handles.take(0) =~= Seq::empty());
        assert(m.picked_list(*query, handles.take(0), (depth - 1) as nat, display, view, math.model())
            =~= Seq::empty());
        assert(results@ =~= start + own + m.picked_list(
            *query,
            handles.take(0),
            (depth - 1) as nat,
            display,
            view,
            math.model(),
        ));
    }
    while i < children.len()
        invariant
            i <= children.len(),
            acyclic(m.nodes),
            math.definite(),
            geo == math.model().geo,
            handles == m.nodes[id].children,
            m.nodes.contains_key(id),
            children.len() == handles.len(),
            forall|j: int| 0 <= j < children.len() ==> (#[trigger] children@[j]) == handles[j].id,
            geometry_filled(m, scene@.nodes, geo),
            scene@ == m.with_nodes(scene@.nodes),
            descends(m.nodes, id, depth),
            results@ == start + own + m.picked_list(
                *query,
                handles.take(i as int),
                (depth - 1) as nat,
                display,
                view,
                math.model(),
            ),
        decreases children.len() - i,
    {
        let child: NodeId = children[i];
        proof {
            assert(child == handles[i as int].id);
            assert(descends(m.nodes, m.nodes[id].children[i as int].id, (depth - 1) as nat));
        }
        let ghost before = results@;
        pick_node(
            query,
            child,
            scene,
            display,
            view,
            math,
            results,
            Ghost(m),
            Ghost((depth - 1) as nat),
        );
        proof {
            let next = handles.take(i + 1);
            assert(next.drop_last() =~= handles.take(i as int));
            assert(next.last() == handles[i as int]);
            assert(results@ =~= start + own + m.picked_list(
                *query,
                next,
                (depth - 1) as nat,
                display,
                view,
                math.model(),
            ));
        }
        i = i + 1;
    }
    proof {
        assert(handles.take(handles.len() as int) =~= handles);
        if depth > 0 {
            assert(results@ =~= start + m.picked_within(
                *query,
                id,
                depth,
                inherited,
                view,
                math.model(),
            ));
        } else {
            if handles.len() > 0 {
                assert(descends(m.nodes, m.nodes[id].children[0].id, (depth - 1) as nat));
            }
            assert(m.picked_list(*query, handles, (depth - 1) as nat, display, view, math.model())
                =~= Seq::empty());
            assert(results@ =~= start + m.picked_within(
                *query,
                id,
                depth,
                inherited,
                view,
                math.model(),
            ));
        }
    }
}

/// Narrow phase: transforms the query into the local space of the node's instance and
/// collects the hits of its mesh.
fn collect_node_hits<
    Q: PickQuery,
    F: Fn(Matrix4, Transform) -> Matrix4,
    P: Fn(Aabb, Matrix4) -> Aabb,
    M: Fn(Aabb, Aabb) -> Aabb,
    I: Fn(Matrix4) -> Option<Matrix4>,
    E: Fn(DisplayBehavior, Matrix4, PickView) -> Matrix4,
>(
    query: &Q,
    id: NodeId,
    instance_id: InstanceId,
    scene: &mut SceneData,
    display: DisplayBehavior,
    view: Option<PickView>,
    math: &PickMath<F, P, M, I, E>,
    results: &mut Vec<Q::Result>,
    Ghost(m): Ghost<SceneModel>,
)
    requires
        acyclic(m.nodes),
        math.definite(),
        geometry_filled(m, old(scene)@.nodes, math.model().geo),
        old(scene)@ == m.with_nodes(old(scene)@.nodes),
        m.nodes.contains_key(id),
        m.nodes[id].payload.handle() matches Some(h) && h.id == instance_id,
    ensures
        final(results)@ == old(results)@ + m.own_hits(*query, id, display, view, math.model()),
        geometry_filled(m, final(scene)@.nodes, math.model().geo),
        final(scene)@ == m.with_nodes(final(scene)@.nodes),
{
    let ghost geo = math.model().geo;
    let ghost given = scene@;
    let ghost start = results@;
    proof {
        lemma_filled_shape(m, given.nodes, geo);
        assert(climb_ends(m.nodes, id));
        assert(climb_ends(given.nodes, id));
        geometry_query_changes_no_transform(m, given.nodes, geo, id);
        lemma_world_is_geometry(given, id, geo);
        lemma_filled_trans(m, given.nodes, warmed(given.nodes, id, geo.compose), geo);
        assert(start + Seq::<Q::Result>::empty() =~= start);
    }
    let world = match scene.nodes_transform(id, &math.compose) {
        None => {
            return ;
        },
        Some(world) => world,
    };
    let transform = match view {
        Some(v) => if display.is_screen_space() {
            apply3(&math.effective, display, world, v)
        } else {
            world
        },
        None => world,
    };
    let mesh_id = match scene.get_instance(instance_id) {
        None => {
            return ;
        },
        Some(instance) => instance.mesh(),
    };
    let mesh = match scene.get_mesh(mesh_id) {
        None => {
            return ;
        },
        Some(mesh) => mesh,
    };
    match apply1(&math.invert, transform) {
        None => {},
        Some(local) => {
            let local_query = query.transform(&local);
            local_query.collect_mesh_hits(mesh, id, instance_id, &transform, results);
        },
    }
}

/// Like [`pick_all`], but resolves screen-space nodes against `view` so picking
/// matches the rendered (camera-dependent) placement of screen-sized and
/// screen-facing geometry.
pub fn pick_all_with_view<
    Q: PickQuery,
    F: Fn(Matrix4, Transform) -> Matrix4,
    P: Fn(Aabb, Matrix4) -> Aabb,
    M: Fn(Aabb, Aabb) -> Aabb,
    I: Fn(Matrix4) -> Option<Matrix4>,
    E: Fn(DisplayBehavior, Matrix4, PickView) -> Matrix4,
>(
    query: &Q,
    scene: &mut SceneData,
    view: Option<PickView>,
    math: &PickMath<F, P, M, I, E>,
) -> (results: Vec<Q::Result>)
    requires
        acyclic(old(scene)@.nodes),
        math.definite(),
    ensures
        results@ == old(scene)@.picked_all(*query, view, math.model()),
        old(scene)@.tree() ==> forall|hit: Q::Result| #[trigger]
            results@.contains(hit) <==> exists|k: NodeId| #[trigger]
                gets_to(old(scene)@, *query, k, view, math.model()) && hits_of(
                    old(scene)@,
                    *query,
                    k,
                    view,
                    math.model(),
                ).contains(hit),
        geometry_filled(old(scene)@, final(scene)@.nodes, math.model().geo),
        final(scene)@ == old(scene)@.with_nodes(final(scene)@.nodes),
        old(scene)@.sound() ==> final(scene)@.sound(),
{
    let ghost m = scene@;
    let ghost geo = math.model().geo;
    let roots = scene.root_nodes();
    let mut results: Vec<Q::Result> = Vec::new();
    let mut i: usize = 0;
    proof {
        lemma_filled_refl(m, geo);
        assert(m.with_nodes(m.nodes) =~= m);
        assert(m.roots.take(0) =~= Seq::empty());
        assert(results@ =~= m.picked_each(
            *query,
            m.roots.take(0),
            DisplayBehavior::ordinary(),
            view,
            math.model(),
        ));
    }
    while i < roots.len()
        invariant
            i <= roots.len(),
            acyclic(m.nodes),
            math.definite(),
            geo == math.model().geo,
            roots.len() == m.roots.len(),
            forall|j: int| 0 <= j < roots.len() ==> (#[trigger] roots@[j]) == m.roots[j].id,
            geometry_filled(m, scene@.nodes, geo),
            scene@ == m.with_nodes(scene@.nodes),
            results@ == m.picked_each(
                *query,
                m.roots.take(i as int),
                DisplayBehavior::ordinary(),
                view,
                math.model(),
            ),
        decreases roots.len() - i,
    {
        let id: NodeId = roots[i];
        let ghost depth = depth_below(m.nodes, id);
        proof {
            assert(descent_ends(m.nodes, id));
            assert(id == m.roots[i as int].id);
        }
        pick_node(
            query,
            id,
            scene,
            DisplayBehavior::default(),
            view,
            math,
            &mut results,
            Ghost(m),
            Ghost(depth),
        );
        proof {
            let next = m.roots.take(i + 1);
            assert(next.drop_last() =~= m.roots.take(i as int));
            assert(next.last() == m.roots[i as int]);
        }
        i = i + 1;
    }
    proof {
        assert(m.roots.take(m.roots.len() as int) =~= m.roots);
        crate::data::bounds::lemma_query_sound(m, scene@, geo);
        if m.tree() {
            assert forall|hit: Q::Result| #[trigger] results@.contains(hit) <==> exists|k: NodeId|
                #[trigger]
                gets_to(m, *query, k, view, math.model()) && hits_of(
                    m,
                    *query,
                    k,
                    view,
                    math.model(),
                ).contains(hit) by {
                picks_miss_nothing(m, *query, view, math.model(), hit);
            }
        }
    }
    results
}

/// Picks all instances in the scene that match the given query.
///
/// Walks the scene tree from all root nodes, using cached bounding boxes for
/// efficient culling. The query is transformed to local space for each instance
/// test. Screen-space nodes are tested at their authored world transform; use
/// [`pick_all_with_view`] to test them at their on-screen placement instead.
pub fn pick_all<
    Q: PickQuery,
    F: Fn(Matrix4, Transform) -> Matrix4,
    P: Fn(Aabb, Matrix4) -> Aabb,
    M: Fn(Aabb, Aabb) -> Aabb,
    I: Fn(Matrix4) -> Option<Matrix4>,
    E: Fn(DisplayBehavior, Matrix4, PickView) -> Matrix4,
>(query: &Q, scene: &mut SceneData, math: &PickMath<F, P, M, I, E>) -> (results: Vec<Q::Result>)
    requires
        acyclic(old(scene)@.nodes),
        math.definite(),
    ensures
        results@ == old(scene)@.picked_all(*query, None, math.model()),
        geometry_filled(old(scene)@, final(scene)@.nodes, math.model().geo),
        final(scene)@ == old(scene)@.with_nodes(final(scene)@.nodes),
        old(scene)@.sound() ==> final(scene)@.sound(),
{
    pick_all_with_view(query, scene, None, math)
}

/// What is picked of an explored node: its own hits, then what is picked of its
/// children in order, under its presentation.
pub proof fn picked_from_children<Q: PickQuery>(
    m: SceneModel,
    query: Q,
    id: NodeId,
    inherited: DisplayBehavior,
    view: Option<PickView>,
    math: PickModel,
)
    requires
        descent_ends(m.nodes, id),
        m.explored(
            query,
            id,
            DisplayBehavior::inherited(inherited, m.nodes[id].display),
            view,
            math,
        ),
    ensures
        m.picked(query, id, inherited, view, math) == m.own_hits(
            query,
            id,
            DisplayBehavior::inherited(inherited, m.nodes[id].display),
            view,
            math,
        ) + m.picked_each(
            query,
            m.nodes[id].children,
            DisplayBehavior::inherited(inherited, m.nodes[id].display),
            view,
            math,
        ),
{
    let n = depth_below(m.nodes, id);
    let children = m.nodes[id].children;
    let display = DisplayBehavior::inherited(inherited, m.nodes[id].display);
    if n > 0 {
        assert forall|i: int| 0 <= i < children.len() implies descends(
            m.nodes,
            (#[trigger] children[i]).id,
            (n - 1) as nat,
        ) by {
            assert(descends(m.nodes, m.nodes[id].children[i].id, (n - 1) as nat));
        }
        lemma_list_each(m, query, children, (n - 1) as nat, display, view, math);
    } else {
        if children.len() > 0 {
            assert(descends(m.nodes, m.nodes[id].children[0].id, (n - 1) as nat));
        }
        assert(m.picked_each(query, children, display, view, math) =~= Seq::empty());
    }
}

proof fn lemma_list_each<Q: PickQuery>(
    m: SceneModel,
    query: Q,
    ids: Seq<Handle>,
    n: nat,
    inherited: DisplayBehavior,
    view: Option<PickView>,
    math: PickModel,
)
    requires
        forall|i: int| 0 <= i < ids.len() ==> descends(m.nodes, (#[trigger] ids[i]).id, n),
    ensures
        m.picked_list(query, ids, n, inherited, view, math) == m.picked_each(
            query,
            ids,
            inherited,
            view,
            math,
        ),
    decreases ids.len(),
{
    if ids.len() > 0 {
        assert forall|i: int| 0 <= i < ids.drop_last().len() implies descends(
            m.nodes,
            (#[trigger] ids.drop_last()[i]).id,
            n,
        ) by {
            assert(ids.drop_last()[i] == ids[i]);
        }
        lemma_list_each(m, query, ids.drop_last(), n, inherited, view, math);
        assert(ids[ids.len() - 1] == ids.last());
        lemma_picked_depth(m, query, ids.last().id, n, inherited, view, math);
    }
}

/// A node that cannot be selected is not picked, nor is anything below it.
pub proof fn unselectable_subtree_is_not_picked<Q: PickQuery>(
    m: SceneModel,
    query: Q,
    id: NodeId,
    inherited: DisplayBehavior,
    view: Option<PickView>,
    math: PickModel,
)
    requires
        m.nodes.contains_key(id),
        m.nodes[id].flags.has(DO_NOT_SELECT),
    ensures
        m.picked(query, id, inherited, view, math) == Seq::<Q::Result>::empty(),
{
}

/// A subtree that the query cannot reach is not picked, unless the view decides on
/// where it is drawn.
pub proof fn culled_subtree_is_not_picked<Q: PickQuery>(
    m: SceneModel,
    query: Q,
    id: NodeId,
    inherited: DisplayBehavior,
    math: PickModel,
)
    requires
        m.nodes.contains_key(id),
        match m.bounds_of(id, math.geo).bounds {
            None => true,
            Some(b) => !query.might_intersect(b),
        },
    ensures
        m.picked(query, id, inherited, None, math) == Seq::<Q::Result>::empty(),
{
}

} // verus!
