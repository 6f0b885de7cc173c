//! Collecting the instances and lights of a scene in one walk of its tree.

use super::frame_laws::{are_all_visible, frames_show_all_that_is_visible};
use crate::common::{identity_matrix, Matrix3, Matrix4, Scalar, Transform, Vector3};
use crate::data::bounds::acyclic;
use crate::data::forest::same_shape;
use crate::data::model::SceneModel;
use crate::data::node_laws::{attributes_keep_sound, only_attributes, same_ownership};
use crate::data::tree::{descends, descent_ends, NodeMap};
use crate::data::visibility::depth_below;
use crate::data::SceneData;
use crate::light::{light_direction, light_position, Light};
use crate::numeric::{apply1, apply2, definite1, definite2, value1, value2};
use crate::resource::display::DisplayBehavior;
use crate::resource::handle::{Handle, InstanceId, NodeId};
use crate::resource::node::{NodeModel, NodePayload, Visibility};
use vstd::prelude::*;

verus! {

/// An instance with its computed world transform.
#[derive(Debug, Clone, Copy, PartialEq, Eq, Structural)]
pub struct InstanceTransform {
    pub node_id: NodeId,
    pub instance_id: InstanceId,
    /// Camera-independent world transform from the scene graph.
    pub world_transform: Matrix4,
    pub normal_matrix: Matrix3,
    /// Effective (inherited) render-presentation behavior for this instance.
    pub display: DisplayBehavior,
    /// Transform actually drawn with. Equal to `world_transform` for ordinary
    /// geometry; screen-space adjustments replace it at render time.
    pub effective_transform: Matrix4,
    /// Normal matrix matching `effective_transform`.
    pub effective_normal_matrix: Matrix3,
}

/// An instance as it starts out: drawn where it is, as ordinary geometry.
pub open spec fn placed(
    node_id: NodeId,
    instance_id: InstanceId,
    world_transform: Matrix4,
    normal: spec_fn(Matrix4) -> Matrix3,
) -> InstanceTransform {
    InstanceTransform {
        node_id,
        instance_id,
        world_transform,
        normal_matrix: normal(world_transform),
        display: DisplayBehavior::ordinary(),
        effective_transform: world_transform,
        effective_normal_matrix: normal(world_transform),
    }
}

impl InstanceTransform {
    /// Creates a new `InstanceTransform` with the given world transform. `normal`
    /// computes the normal matrix of a transform. The effective transform starts equal
    /// to the world transform and display defaults to ordinary scene geometry.
    pub fn new<N: Fn(Matrix4) -> Matrix3>(
        node_id: NodeId,
        instance_id: InstanceId,
        world_transform: Matrix4,
        normal: &N,
    ) -> (instance: Self)
        requires
            definite1(*normal),
        ensures
            instance == placed(node_id, instance_id, world_transform, value1(*normal)),
    {
        let normal_matrix = apply1(normal, world_transform);
        InstanceTransform {
            node_id,
            instance_id,
            world_transform,
            normal_matrix,
            display: DisplayBehavior::default(),
            effective_transform: world_transform,
            effective_normal_matrix: normal_matrix,
        }
    }

    /// Sets the effective render-presentation behavior for this instance.
    pub fn with_display(self, display: DisplayBehavior) -> (instance: Self)
        ensures
            instance == (InstanceTransform { display, ..self }),
    {
        let mut instance = self;
        instance.display = display;
        instance
    }
}

/// A light resolved to world space.
#[derive(Debug, Clone, Copy, PartialEq, Eq, Structural)]
pub struct ResolvedLight {
    pub light: Light,
    /// World-space position (relevant for point and spot lights).
    pub position: Vector3,
    /// World-space direction pointing away from the light (relevant for directional
    /// and spot lights).
    pub direction: Vector3,
}

/// All scene data collected in a single tree traversal.
pub struct SceneFrameData {
    pub instance_transforms: Vec<InstanceTransform>,
    pub lights: Vec<ResolvedLight>,
}

/// The arithmetic that a walk needs, as functions.
pub struct FrameMath<F, N, L, U> {
    /// Composes a world transform with a local one.
    pub compose: F,
    /// The normal matrix of a transform.
    pub normal: N,
    /// The squared length of a vector.
    pub length2: L,
    /// The vector of length one in the same direction.
    pub unit: U,
}

/// What the functions of a [`FrameMath`] compute.
pub struct FrameArithmetic {
    pub compose: spec_fn(Matrix4, Transform) -> Matrix4,
    pub normal: spec_fn(Matrix4) -> Matrix3,
    pub length2: spec_fn(Vector3) -> Scalar,
    pub unit: spec_fn(Vector3) -> Vector3,
}

impl<
    F: Fn(Matrix4, Transform) -> Matrix4,
    N: Fn(Matrix4) -> Matrix3,
    L: Fn(Vector3) -> Scalar,
    U: Fn(Vector3) -> Vector3,
> FrameMath<F, N, L, U> {
    /// Every function accepts every argument and is a function of it.
    pub open spec fn definite(&self) -> bool {
        &&& definite2(self.compose)
        &&& definite1(self.normal)
        &&& definite1(self.length2)
        &&& definite1(self.unit)
    }

    /// What the functions compute.
    pub open spec fn model(&self) -> FrameArithmetic {
        FrameArithmetic {
            compose: value2(self.compose),
            normal: value1(self.normal),
            length2: value1(self.length2),
            unit: value1(self.unit),
        }
    }
}

/// Where a walk stands: the nodes with the transforms cached so far, and what was
/// collected so far.
#[verifier::ext_equal]
pub struct FrameModel {
    pub nodes: NodeMap,
    pub instances: Seq<InstanceTransform>,
    pub lights: Seq<ResolvedLight>,
}

/// What a node inherits from the nodes above it during a walk.
pub struct Inherited {
    pub world: Matrix4,
    pub display: DisplayBehavior,
    /// Whether the world transform was computed anew.
    pub changed: bool,
}

impl FrameModel {
    /// What the nodes below a node inherit: its world transform is computed anew when
    /// that of its parent was or it has none cached, and its presentation is resolved
    /// against the inherited one.
    pub open spec fn passed_on(self, id: NodeId, from: Inherited, math: FrameArithmetic) -> Inherited {
        let node = self.nodes[id];
        let changed = from.changed || node.world_cache is None;
        Inherited {
            world: if changed {
                (math.compose)(from.world, node.transform)
            } else {
                node.world_cache->0
            },
            display: DisplayBehavior::inherited(from.display, node.display),
            changed,
        }
    }

    /// After the world transform of a node is settled: it is cached, and what the node
    /// carries is collected unless the node is invisible.
    pub open spec fn entered(self, id: NodeId, from: Inherited, math: FrameArithmetic) -> FrameModel {
        let node = self.nodes[id];
        let on = self.passed_on(id, from, math);
        let cached = if on.changed {
            self.nodes.insert(id, NodeModel { world_cache: Some(on.world), ..node })
        } else {
            self.nodes
        };
        if node.visibility == Visibility::Invisible {
            FrameModel { nodes: cached, ..self }
        } else {
            match node.payload {
                NodePayload::Instance(h) => FrameModel {
                    nodes: cached,
                    instances: self.instances.push(
                        InstanceTransform {
                            display: on.display,
                            ..placed(node.id, h.id, on.world, math.normal)
                        },
                    ),
                    ..self
                },
                NodePayload::Light(light) => FrameModel {
                    nodes: cached,
                    lights: self.lights.push(
                        ResolvedLight {
                            light,
                            position: light_position(on.world),
                            direction: light_direction(on.world, math.length2, math.unit),
                        },
                    ),
                    ..self
                },
                _ => FrameModel { nodes: cached, ..self },
            }
        }
    }

    /// After a walk of a subtree, at most `n` steps down: the node first, then its
    /// children in order, unless the node is invisible.
    pub open spec fn walked(self, id: NodeId, from: Inherited, n: nat, math: FrameArithmetic) -> FrameModel
        decreases n, 0nat,
    {
        if !self.nodes.contains_key(id) {
            self
        } else {
            let here = self.entered(id, from, math);
            if self.nodes[id].visibility == Visibility::Invisible || n == 0 {
                here
            } else {
                here.walked_list(
                    self.nodes[id].children,
                    self.passed_on(id, from, math),
                    (n - 1) as nat,
                    math,
                )
            }
        }
    }

    /// After walks of several subtrees, in order.
    pub open spec fn walked_list(
        self,
        ids: Seq<Handle>,
        from: Inherited,
        n: nat,
        math: FrameArithmetic,
    ) -> FrameModel
        decreases n, ids.len() + 1,
    {
        if ids.len() == 0 {
            self
        } else {
            self.walked_list(ids.drop_last(), from, n, math).walked(
                ids.last().id,
                from,
                n,
                math,
            )
        }
    }

    /// After walks from several roots of the given nodes, in order.
    pub open spec fn walked_roots(
        self,
        nodes: NodeMap,
        ids: Seq<Handle>,
        math: FrameArithmetic,
    ) -> FrameModel
        decreases ids.len(),
    {
        if ids.len() == 0 {
            self
        } else {
            self.walked_roots(nodes, ids.drop_last(), math).walked(
                ids.last().id,
                Inherited {
                    world: identity_matrix(),
                    display: DisplayBehavior::ordinary(),
                    changed: false,
                },
                depth_below(nodes, ids.last().id),
                math,
            )
        }
    }
}

impl SceneModel {
    /// What a walk of the scene collects, and the nodes after it.
    pub open spec fn frame(self, math: FrameArithmetic) -> FrameModel {
        FrameModel { nodes: self.nodes, instances: Seq::empty(), lights: Seq::empty() }.walked_roots(
            self.nodes,
            self.roots,
            math,
        )
    }
}

/// Whether nodes differ at most in their cached world transforms.
pub open spec fn only_world_caches(a: NodeMap, b: NodeMap) -> bool {
    &&& a.dom() == b.dom()
    &&& forall|k: NodeId| #[trigger]
        a.contains_key(k) ==> b[k] == (NodeModel { world_cache: b[k].world_cache, ..a[k] })
}

proof fn lemma_caches_shape(a: NodeMap, b: NodeMap)
    requires
        only_world_caches(a, b),
    ensures
        same_shape(a, b),
        same_ownership(a, b),
{
}

/// Walks a subtree.
fn collect_scene_data_recursive<
    F: Fn(Matrix4, Transform) -> Matrix4,
    N: Fn(Matrix4) -> Matrix3,
    L: Fn(Vector3) -> Scalar,
    U: Fn(Vector3) -> Vector3,
>(
    scene: &mut SceneData,
    id: NodeId,
    parent_transform: Matrix4,
    parent_display: DisplayBehavior,
    parent_changed: bool,
    data: &mut SceneFrameData,
    math: &FrameMath<F, N, L, U>,
    Ghost(m): Ghost<SceneModel>,
    Ghost(depth): Ghost<nat>,
)
    requires
        math.definite(),
        only_world_caches(m.nodes, old(scene)@.nodes),
        old(scene)@ == m.with_nodes(old(scene)@.nodes),
        descends(m.nodes, id, depth),
    ensures
        only_world_caches(m.nodes, final(scene)@.nodes),
        final(scene)@ == m.with_nodes(final(scene)@.nodes),
        frame_of(final(scene)@, *final(data)) == frame_of(old(scene)@, *old(data)).walked(
            id,
            (Inherited {
                world: parent_transform,
                display: parent_display,
                changed: parent_changed,
            }),
            depth,
            math.model(),
        ),
    decreases depth,
{
    let ghost given = frame_of(scene@, *data);
    let ghost from = Inherited {
        world: parent_transform,
        display: parent_display,
        changed: parent_changed,
    };
    let ghost model = math.model();
    let ghost on = given.passed_on(id, from, model);
    proof {
        lemma_caches_shape(m.nodes, scene@.nodes);
        assert(m.nodes.contains_key(id) == scene@.nodes.contains_key(id));
    }
    let (transform, cached, visible, display, children, instance, light, node_id): (
        Transform,
        Option<Matrix4>,
        bool,
        DisplayBehavior,
        Vec<NodeId>,
        Option<InstanceId>,
        Option<Light>,
        NodeId,
    ) = match scene.get_node(id) {
        None => {
            return ;
        },
        Some(node) => {
            let instance = match &node.payload {
                NodePayload::Instance(h) => Some(h.id),
                _ => None,
            };
            let light = match &node.payload {
                NodePayload::Light(light) => Some(*light),
                _ => None,
            };
            (
                node.transform,
                node.world_cache,
                node.visibility == Visibility::Visible,
                DisplayBehavior::inherit(parent_display, node.display),
                node.child_ids(),
                instance,
                light,
                node.id,
            )
        },
    };
    let (changed, world): (bool, Matrix4) = match cached {
        Some(value) if !parent_changed => (false, value),
        _ => (true, apply2(&math.compose, parent_transform, transform)),
    };
    if changed {
        scene.set_world_cache(id, world);
    }
    proof {
        assert(scene@.nodes.dom() =~= m.nodes.dom());
        assert(only_world_caches(m.nodes, scene@.nodes));
        assert(on.world == world && on.changed == changed && on.display == display);
    }
    if !visible {
        proof {
            assert(frame_of(scene@, *data) =~= given.entered(id, from, model));
        }
        return ;
    }
    if let Some(instance_id) = instance {
        let new = InstanceTransform::new(node_id, instance_id, world, &math.normal).with_display(
            display,
        );
        data.instance_transforms.push(new);
    }
    if let Some(light) = light {
        let (position, direction) = Light::world_position_and_direction(
            &world,
            &math.length2,
            &math.unit,
        );
        data.lights.push(ResolvedLight { light, position, direction });
    }
    let ghost here = given.entered(id, from, model);
    let ghost handles = m.nodes[id].children;
    proof {
        assert(frame_of(scene@, *data) =~= here);
        assert(handles.take(0) =~= Seq::empty());
        assert(given.nodes[id].children == handles);
    }
    let mut i: usize = 0;
    while i < children.len()
        invariant
            i <= children.len(),
            math.definite(),
            model == math.model(),
            m.nodes.contains_key(id),
            handles == m.nodes[id].children,
            children.len() == handles.len(),
            forall|j: int| 0 <= j < children.len() ==> (#[trigger] children@[j]) == handles[j].id,
            only_world_caches(m.nodes, scene@.nodes),
            scene@ == m.with_nodes(scene@.nodes),
            descends(m.nodes, id, depth),
            on == (Inherited { world, display, changed }),
            frame_of(scene@, *data) == here.walked_list(
                handles.take(i as int),
                on,
                (depth - 1) as nat,
                model,
            ),
        decreases children.len() - i,
    {
        let child: NodeId = children[i];
        proof {
            assert(child == handles[i as int].id);
            assert(descends(m.nodes, m.nodes[id].children[i as int].id, (depth - 1) as nat));
            let next = handles.take(i + 1);
            assert(next.drop_last() =~= handles.take(i as int));
            assert(next.last() == handles[i as int]);
        }
        collect_scene_data_recursive(
            scene,
            child,
            world,
            display,
            changed,
            data,
            math,
            Ghost(m),
            Ghost((depth - 1) as nat),
        );
        i = i + 1;
    }
    proof {
        assert(handles.take(handles.len() as int) =~= handles);
        if depth == 0 && handles.len() > 0 {
            assert(descends(m.nodes, m.nodes[id].children[0].id, (depth - 1) as nat));
        }
    }
}

/// Where a walk stands, from the scene and what was collected.
spec fn frame_of(m: SceneModel, data: SceneFrameData) -> FrameModel {
    FrameModel {
        nodes: m.nodes,
        instances: data.instance_transforms@,
        lights: data.lights@,
    }
}

/// Walks the entire scene tree and collects all instances and lights in one pass.
pub fn collect_scene_frame_data<
    F: Fn(Matrix4, Transform) -> Matrix4,
    N: Fn(Matrix4) -> Matrix3,
    L: Fn(Vector3) -> Scalar,
    U: Fn(Vector3) -> Vector3,
>(scene: &mut SceneData, math: &FrameMath<F, N, L, U>) -> (data: SceneFrameData)
    requires
        acyclic(old(scene)@.nodes),
        math.definite(),
    ensures
        data.instance_transforms@ == old(scene)@.frame(math.model()).instances,
        data.lights@ == old(scene)@.frame(math.model()).lights,
        final(scene)@ == old(scene)@.with_nodes(old(scene)@.frame(math.model()).nodes),
        only_world_caches(old(scene)@.nodes, final(scene)@.nodes),
        old(scene)@.sound() ==> final(scene)@.sound(),
        old(scene)@.sound() ==> are_all_visible(old(scene)@, data.instance_transforms@),
{
    let ghost m = scene@;
    let ghost model = math.model();
    let mut data = SceneFrameData { instance_transforms: Vec::new(), lights: Vec::new() };
    let ghost start = frame_of(scene@, data);
    let roots = scene.root_nodes();
    let mut i: usize = 0;
    proof {
        assert(m.with_nodes(m.nodes) =~= m);
        assert(m.roots.take(0) =~= Seq::empty());
        assert(start =~= FrameModel {
            nodes: m.nodes,
            instances: Seq::empty(),
            lights: Seq::empty(),
        });
    }
    while i < roots.len()
        invariant
            i <= roots.len(),
            acyclic(m.nodes),
            math.definite(),
            model == math.model(),
            roots.len() == m.roots.len(),
            forall|j: int| 0 <= j < roots.len() ==> (#[trigger] roots@[j]) == m.roots[j].id,
            only_world_caches(m.nodes, scene@.nodes),
            scene@ == m.with_nodes(scene@.nodes),
            frame_of(scene@, data) == start.walked_roots(m.nodes, m.roots.take(i as int), model),
        decreases roots.len() - i,
    {
        let id: NodeId = roots[i];
        proof {
            assert(id == m.roots[i as int].id);
            assert(descent_ends(m.nodes, id));
            let next = m.roots.take(i + 1);
            assert(next.drop_last() =~= m.roots.take(i as int));
            assert(next.last() == m.roots[i as int]);
        }
        collect_scene_data_recursive(
            scene,
            id,
            Matrix4::identity(),
            DisplayBehavior::default(),
            false,
            &mut data,
            math,
            Ghost(m),
            Ghost(depth_below(m.nodes, id)),
        );
        i = i + 1;
    }
    proof {
        assert(m.roots.take(m.roots.len() as int) =~= m.roots);
        if m.sound() {
            lemma_caches_shape(m.nodes, scene@.nodes);
            assert(only_attributes(m, scene@));
            attributes_keep_sound(m, scene@);
            frames_show_all_that_is_visible(m, model);
        }
    }
    data
}

} // verus!
