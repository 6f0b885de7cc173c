//! Resolving positioned lights to world space.

use super::frame::{only_world_caches, ResolvedLight};
use crate::common::{Aabb, Matrix4, Scalar, Transform, Vector3};
use crate::data::bounds::{
    acyclic, geometry_filled, geometry_query_changes_no_transform, lemma_filled_refl,
    lemma_filled_shape, lemma_filled_trans, lemma_world_is_geometry, node_filled, Geometry,
};
use crate::data::forest::lemma_same_relations;
use crate::data::model::{lists_id, SceneModel};
use crate::data::tree::{above, climb_ends, lemma_above_present, NodeMap};
use crate::data::world::{
    lemma_warmed_filled, rooted, transform_of, warmed, world, world_filled, Compose,
};
use crate::data::SceneData;
use crate::light::{light_direction, light_position, Light, LightSpace, PositionedLight};
use crate::numeric::{apply1, apply2, definite1, definite2, value1, value2};
use crate::resource::handle::NodeId;
use crate::resource::node::NodeModel;
use vstd::prelude::*;

verus! {

/// The arithmetic that resolving lights needs, as functions.
pub struct LightMath<P, F, L, U> {
    /// The matrix of a transform.
    pub matrix: P,
    /// Composes a world transform with a local one.
    pub compose: F,
    /// The squared length of a vector.
    pub length2: L,
    /// The vector of length one in the same direction.
    pub unit: U,
}

/// What the functions of a [`LightMath`] compute.
pub struct LightArithmetic {
    pub matrix: spec_fn(Transform) -> Matrix4,
    pub compose: Compose,
    pub length2: spec_fn(Vector3) -> Scalar,
    pub unit: spec_fn(Vector3) -> Vector3,
}

impl<
    P: Fn(Transform) -> Matrix4,
    F: Fn(Matrix4, Transform) -> Matrix4,
    L: Fn(Vector3) -> Scalar,
    U: Fn(Vector3) -> Vector3,
> LightMath<P, F, L, U> {
    /// Every function accepts every argument and is a function of it.
    pub open spec fn definite(&self) -> bool {
        &&& definite1(self.matrix)
        &&& definite2(self.compose)
        &&& definite1(self.length2)
        &&& definite1(self.unit)
    }

    /// What the functions compute.
    pub open spec fn model(&self) -> LightArithmetic {
        LightArithmetic {
            matrix: value1(self.matrix),
            compose: value2(self.compose),
            length2: value1(self.length2),
            unit: value1(self.unit),
        }
    }
}

impl SceneModel {
    /// Where a light is in the world, when its space can be resolved: a node that the
    /// light is anchored to has to hang off the scene roots.
    pub open spec fn light_pose(
        self,
        posed: PositionedLight,
        camera_pose: Matrix4,
        math: LightArithmetic,
    ) -> Option<Matrix4> {
        match posed.space {
            LightSpace::World => Some((math.matrix)(posed.transform)),
            LightSpace::Camera => Some((math.compose)(camera_pose, posed.transform)),
            LightSpace::Node(id) => if !self.attached(id) {
                None
            } else {
                match transform_of(self.nodes, id, math.compose) {
                    Some(anchor) => Some((math.compose)(anchor, posed.transform)),
                    None => None,
                }
            },
        }
    }

    /// A light resolved to world space, when its space can be resolved.
    pub open spec fn resolved_light(
        self,
        posed: PositionedLight,
        camera_pose: Matrix4,
        math: LightArithmetic,
    ) -> Option<ResolvedLight> {
        match self.light_pose(posed, camera_pose, math) {
            Some(world) => Some(
                ResolvedLight {
                    light: posed.light,
                    position: light_position(world),
                    direction: light_direction(world, math.length2, math.unit),
                },
            ),
            None => None,
        }
    }

    /// Every light that can be resolved, in order.
    pub open spec fn resolved_lights(
        self,
        lights: Seq<PositionedLight>,
        camera_pose: Matrix4,
        math: LightArithmetic,
    ) -> Seq<ResolvedLight>
        decreases lights.len(),
    {
        if lights.len() == 0 {
            Seq::empty()
        } else {
            let before = self.resolved_lights(lights.drop_last(), camera_pose, math);
            match self.resolved_light(lights.last(), camera_pose, math) {
                Some(light) => before.push(light),
                None => before,
            }
        }
    }
}

/// Resolving lights skips only those that cannot be resolved.
pub proof fn resolved_lights_skip_only_the_unresolvable(
    m: SceneModel,
    lights: Seq<PositionedLight>,
    camera_pose: Matrix4,
    math: LightArithmetic,
)
    ensures
        m.resolved_lights(lights, camera_pose, math) == lights.filter(
            |l: PositionedLight| m.resolved_light(l, camera_pose, math) is Some,
        ).map_values(|l: PositionedLight| m.resolved_light(l, camera_pose, math)->0),
    decreases lights.len(),
{
    reveal(Seq::filter);
    let kept = |l: PositionedLight| m.resolved_light(l, camera_pose, math) is Some;
    let out = |l: PositionedLight| m.resolved_light(l, camera_pose, math)->0;
    if lights.len() > 0 {
        resolved_lights_skip_only_the_unresolvable(m, lights.drop_last(), camera_pose, math);
        let before = lights.drop_last().filter(kept);
        assert(before.push(lights.last()).map_values(out) =~= before.map_values(out).push(
            out(lights.last()),
        ));
    }
    assert(m.resolved_lights(lights, camera_pose, math) =~= lights.filter(kept).map_values(out));
}

/// A light in world or camera space can always be resolved; one anchored to a node
/// that is gone or detached cannot.
pub proof fn a_missing_anchor_drops_the_light(
    m: SceneModel,
    posed: PositionedLight,
    camera_pose: Matrix4,
    math: LightArithmetic,
)
    ensures
        posed.space is World || posed.space is Camera ==> m.resolved_light(
            posed,
            camera_pose,
            math,
        ) is Some,
        posed.space matches LightSpace::Node(id) ==> !m.attached(id) ==> m.resolved_light(
            posed,
            camera_pose,
            math,
        ) is None,
{
}

/// A light is resolved in the space that it is posed in: one of the world by its own pose,
/// whatever the camera does; one of the camera by its pose under that of the camera; and
/// one of a node by its pose under the world transform of that node. It stays the light
/// that it is, at the translation of where that puts it.
pub proof fn lights_are_resolved_in_their_space(
    m: SceneModel,
    posed: PositionedLight,
    camera_pose: Matrix4,
    math: LightArithmetic,
)
    requires
        posed.space matches LightSpace::Node(id) ==> m.attached(id) && transform_of(
            m.nodes,
            id,
            math.compose,
        ) is Some,
    ensures
        m.resolved_light(posed, camera_pose, math) is Some,
        ({
            let resolved = m.resolved_light(posed, camera_pose, math)->0;
            let at = match posed.space {
                LightSpace::World => (math.matrix)(posed.transform),
                LightSpace::Camera => (math.compose)(camera_pose, posed.transform),
                LightSpace::Node(id) => (math.compose)(
                    world(m.nodes, id, math.compose),
                    posed.transform,
                ),
            };
            &&& resolved.light == posed.light
            &&& resolved.position == (Vector3 { x: at.w.x, y: at.w.y, z: at.w.z })
            &&& resolved.direction == light_direction(at, math.length2, math.unit)
        }),
{
}

/// Anything computed from boxes with this arithmetic is of no concern here.
spec fn boxless(compose: Compose) -> Geometry {
    Geometry { compose, place: |b: Aabb, w: Matrix4| b, merge: |a: Aabb, b: Aabb| a }
}

proof fn lemma_filled_resolves(
    m: SceneModel,
    b: NodeMap,
    posed: PositionedLight,
    camera_pose: Matrix4,
    math: LightArithmetic,
)
    requires
        acyclic(m.nodes),
        geometry_filled(m, b, boxless(math.compose)),
    ensures
        m.with_nodes(b).resolved_light(posed, camera_pose, math) == m.resolved_light(
            posed,
            camera_pose,
            math,
        ),
{
    if let LightSpace::Node(id) = posed.space {
        assert(climb_ends(m.nodes, id));
        geometry_query_changes_no_transform(m, b, boxless(math.compose), id);
        lemma_filled_shape(m, b, boxless(math.compose));
        let after = m.with_nodes(b);
        if m.attached(id) {
            let r = choose|r: NodeId| #[trigger]
                above(m.nodes, r, id) && m.nodes[r].parent is None && lists_id(m.roots, r);
            lemma_same_relations(m.nodes, b, r, id);
            lemma_above_present(m.nodes, r, id);
            assert(above(after.nodes, r, id));
        }
        if after.attached(id) {
            let r = choose|r: NodeId| #[trigger]
                above(after.nodes, r, id) && after.nodes[r].parent is None && lists_id(
                    after.roots,
                    r,
                );
            lemma_same_relations(m.nodes, b, r, id);
            lemma_above_present(b, r, id);
            assert(above(m.nodes, r, id));
        }
        assert(m.with_nodes(b).attached(id) == m.attached(id));
    }
}

/// Resolves `posed` against the space it is posed in.
///
/// Returns `None` for a light anchored to a node that is missing or detached: an
/// unresolvable anchor drops the light rather than stranding it at the origin.
/// `camera_pose` is the matrix of the camera's pose.
pub fn resolve_light<
    P: Fn(Transform) -> Matrix4,
    F: Fn(Matrix4, Transform) -> Matrix4,
    L: Fn(Vector3) -> Scalar,
    U: Fn(Vector3) -> Vector3,
>(
    posed: &PositionedLight,
    scene: &mut SceneData,
    camera_pose: Matrix4,
    math: &LightMath<P, F, L, U>,
) -> (resolved: Option<ResolvedLight>)
    requires
        posed.space matches LightSpace::Node(id) ==> climb_ends(old(scene)@.nodes, id),
        math.definite(),
    ensures
        resolved == old(scene)@.resolved_light(*posed, camera_pose, math.model()),
        final(scene)@ == old(scene)@.with_nodes(
            match posed.space {
                LightSpace::Node(id) if old(scene)@.attached(id) => warmed(
                    old(scene)@.nodes,
                    id,
                    math.model().compose,
                ),
                _ => old(scene)@.nodes,
            },
        ),
        old(scene)@.sound() ==> final(scene)@.sound(),
{
    let ghost m = scene@;
    proof {
        assert(m.with_nodes(m.nodes) =~= m);
    }
    let world = match posed.space {
        LightSpace::World => apply1(&math.matrix, posed.transform),
        LightSpace::Camera => apply2(&math.compose, camera_pose, posed.transform),
        LightSpace::Node(id) => {
            if !scene.is_node_attached(id) {
                return None;
            }
            match scene.nodes_transform(id, &math.compose) {
                Some(anchor) => apply2(&math.compose, anchor, posed.transform),
                None => {
                    return None;
                },
            }
        },
    };
    let (position, direction) = Light::world_position_and_direction(
        &world,
        &math.length2,
        &math.unit,
    );
    Some(ResolvedLight { light: posed.light, position, direction })
}

/// Resolves every light that can be resolved, preserving order.
pub fn resolve_lights<
    P: Fn(Transform) -> Matrix4,
    F: Fn(Matrix4, Transform) -> Matrix4,
    L: Fn(Vector3) -> Scalar,
    U: Fn(Vector3) -> Vector3,
>(
    lights: &Vec<PositionedLight>,
    scene: &mut SceneData,
    camera_pose: Matrix4,
    math: &LightMath<P, F, L, U>,
) -> (resolved: Vec<ResolvedLight>)
    requires
        acyclic(old(scene)@.nodes),
        math.definite(),
    ensures
        resolved@ == old(scene)@.resolved_lights(lights@, camera_pose, math.model()),
        world_filled(old(scene)@.nodes, final(scene)@.nodes, math.model().compose),
        final(scene)@ == old(scene)@.with_nodes(final(scene)@.nodes),
        old(scene)@.sound() ==> final(scene)@.sound(),
{
    let ghost m = scene@;
    let ghost model = math.model();
    let ghost geo = boxless(model.compose);
    let mut resolved: Vec<ResolvedLight> = Vec::new();
    let mut i: usize = 0;
    proof {
        lemma_filled_refl(m, geo);
        assert(m.with_nodes(m.nodes) =~= m);
        assert(lights@.take(0) =~= Seq::empty());
    }
    while i < lights.len()
        invariant
            i <= lights.len(),
            acyclic(m.nodes),
            math.definite(),
            model == math.model(),
            geo == boxless(model.compose),
            scene@ == m.with_nodes(scene@.nodes),
            geometry_filled(m, scene@.nodes, geo),
            only_world_caches(m.nodes, scene@.nodes),
            resolved@ == m.resolved_lights(lights@.take(i as int), camera_pose, model),
            m.sound() ==> scene@.sound(),
        decreases lights.len() - i,
    {
        let ghost mid = scene@;
        let posed = &lights[i];
        proof {
            lemma_filled_shape(m, mid.nodes, geo);
            lemma_filled_resolves(m, mid.nodes, *posed, camera_pose, model);
            let next = lights@.take(i + 1);
            assert(next.drop_last() =~= lights@.take(i as int));
            assert(next.last() == *posed);
            if let LightSpace::Node(id) = posed.space {
                assert(climb_ends(mid.nodes, id));
            }
        }
        let found = resolve_light(posed, scene, camera_pose, math);
        if let Some(light) = found {
            resolved.push(light);
        }
        proof {
            assert(mid.with_nodes(mid.nodes) =~= mid);
            if let LightSpace::Node(id) = posed.space {
                lemma_world_is_geometry(mid, id, geo);
                lemma_filled_refl(mid, geo);
                lemma_filled_trans(m, mid.nodes, scene@.nodes, geo);
                lemma_warmed_filled(mid.nodes, id, model.compose);
            }
            assert(only_world_caches(mid.nodes, scene@.nodes));
        }
        i = i + 1;
    }
    proof {
        assert(lights@.take(lights.len() as int) =~= lights@);
        assert forall|k: NodeId| #[trigger] m.nodes.contains_key(k) implies scene@.nodes[k]
            == m.nodes[k] || (m.nodes[k].world_cache is None && rooted(m.nodes, k) && climb_ends(
            m.nodes,
            k,
        ) && scene@.nodes[k] == (NodeModel {
            world_cache: Some(world(m.nodes, k, model.compose)),
            ..m.nodes[k]
        })) by {
            assert(node_filled(m, scene@.nodes, k, geo));
            assert(climb_ends(m.nodes, k));
        }
    }
    resolved
}

} // verus!
