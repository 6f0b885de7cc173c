//! Picking everything that touches a volume.

use super::pick_query::{pick_all, PickMath, PickQuery, PickView};
use crate::common::{Aabb, Matrix4, Transform};
use crate::data::bounds::{acyclic, geometry_filled};
use crate::data::SceneData;
use crate::resource::display::DisplayBehavior;
use crate::resource::handle::{InstanceId, NodeId};
use crate::resource::mesh::{Mesh, MeshModel};
use vstd::prelude::*;

verus! {

/// Result of a volume-instance intersection test.
#[derive(Debug)]
pub struct VolumePickResult {
    /// The node that was hit.
    pub node_id: NodeId,
    /// The instance that was hit.
    pub instance_id: InstanceId,
    /// Indices of triangles that intersect the volume, into the mesh's triangle list.
    pub triangle_indices: Vec<usize>,
    /// True if the entire instance is fully contained within the volume.
    pub fully_contained: bool,
}

/// What a volume touches of one mesh.
#[derive(Debug)]
pub struct MeshVolumeHit {
    /// Indices of triangles that intersect the volume, into the mesh's triangle list.
    pub triangle_indices: Vec<usize>,
    /// True if the entire mesh is fully contained within the volume.
    pub fully_contained: bool,
}

/// Adds what a volume touches of the mesh of an instance to the results, if it touches
/// anything.
pub fn collect_volume_hit(
    hit: Option<MeshVolumeHit>,
    node_id: NodeId,
    instance_id: InstanceId,
    results: &mut Vec<VolumePickResult>,
)
    ensures
        final(results)@ == old(results)@ + volume_results(hit, node_id, instance_id),
{
    if let Some(hit) = hit {
        results.push(
            VolumePickResult {
                node_id,
                instance_id,
                triangle_indices: hit.triangle_indices,
                fully_contained: hit.fully_contained,
            },
        );
    }
}

/// What convex volumes can do, as functions.
pub struct VolumeMath<B, T, C> {
    /// Whether a volume might contain a point of a box.
    pub meets: B,
    /// A volume in another coordinate space.
    pub moved: T,
    /// What of a mesh is in a volume. The flag asks for thorough (but slower) tests of
    /// edges against triangles.
    pub cut: C,
}

/// What the functions of a [`VolumeMath`] compute.
#[verifier::reject_recursive_types(V)]
pub struct VolumeModel<V> {
    pub meets: spec_fn(V, Aabb) -> bool,
    pub moved: spec_fn(V, Matrix4) -> V,
    pub cut: spec_fn(V, MeshModel, bool) -> Option<MeshVolumeHit>,
}

/// Whether the functions accept every argument and always return the same for the same
/// ones. Of a mesh only what it holds matters.
pub open spec fn definite_volumes<
    V,
    B: Fn(&V, Aabb) -> bool,
    T: Fn(&V, Matrix4) -> V,
    C: Fn(&V, &Mesh, bool) -> Option<MeshVolumeHit>,
>(math: VolumeMath<B, T, C>) -> bool {
    &&& forall|v: &V, b: Aabb| #[trigger] call_requires(math.meets, (v, b))
    &&& forall|v: &V, b: Aabb, r: bool, s: bool|
        #![trigger call_ensures(math.meets, (v, b), r), call_ensures(math.meets, (v, b), s)]
        call_ensures(math.meets, (v, b), r) && call_ensures(math.meets, (v, b), s) ==> r == s
    &&& forall|v: &V, m: Matrix4| #[trigger] call_requires(math.moved, (v, m))
    &&& forall|v: &V, m: Matrix4, r: V, s: V|
        #![trigger call_ensures(math.moved, (v, m), r), call_ensures(math.moved, (v, m), s)]
        call_ensures(math.moved, (v, m), r) && call_ensures(math.moved, (v, m), s) ==> r == s
    &&& forall|v: &V, mesh: &Mesh, thorough: bool| #[trigger]
        call_requires(math.cut, (v, mesh, thorough))
    &&& forall|
        v: &V,
        a: &Mesh,
        b: &Mesh,
        thorough: bool,
        r: Option<MeshVolumeHit>,
        s: Option<MeshVolumeHit>,
    |
        #![trigger call_ensures(math.cut, (v, a, thorough), r), call_ensures(math.cut, (v, b, thorough), s)]
        a@ == b@ && call_ensures(math.cut, (v, a, thorough), r) && call_ensures(
            math.cut,
            (v, b, thorough),
            s,
        ) ==> r == s
}

/// What the functions compute.
pub open spec fn volume_model<
    V,
    B: Fn(&V, Aabb) -> bool,
    T: Fn(&V, Matrix4) -> V,
    C: Fn(&V, &Mesh, bool) -> Option<MeshVolumeHit>,
>(math: VolumeMath<B, T, C>) -> VolumeModel<V> {
    VolumeModel {
        meets: |v: V, b: Aabb| choose|r: bool| call_ensures(math.meets, (&v, b), r),
        moved: |v: V, m: Matrix4| choose|r: V| call_ensures(math.moved, (&v, m), r),
        cut: |v: V, m: MeshModel, thorough: bool|
            choose|r: Option<MeshVolumeHit>| can_cut(math.cut, v, m, thorough, r),
    }
}

/// Whether a cut of a mesh that holds `m` can give `hit`.
pub open spec fn can_cut<V, C: Fn(&V, &Mesh, bool) -> Option<MeshVolumeHit>>(
    cut: C,
    v: V,
    m: MeshModel,
    thorough: bool,
    hit: Option<MeshVolumeHit>,
) -> bool {
    exists|mesh: &Mesh| mesh@ == m && #[trigger] call_ensures(cut, (&v, mesh, thorough), hit)
}

/// What a volume query gives for what the volume touches of one mesh.
pub open spec fn volume_results(
    hit: Option<MeshVolumeHit>,
    node_id: NodeId,
    instance_id: InstanceId,
) -> Seq<VolumePickResult> {
    match hit {
        Some(hit) => seq![
            VolumePickResult {
                node_id,
                instance_id,
                triangle_indices: hit.triangle_indices,
                fully_contained: hit.fully_contained,
            },
        ],
        None => Seq::empty(),
    }
}

/// Volume picking query over a convex volume.
#[verifier::reject_recursive_types(V)]
pub struct VolumePickQuery<
    'a,
    V,
    B: Fn(&V, Aabb) -> bool,
    T: Fn(&V, Matrix4) -> V,
    C: Fn(&V, &Mesh, bool) -> Option<MeshVolumeHit>,
> {
    /// The volume, in the coordinate space of the query.
    volume: V,
    /// Whether to use thorough (but slower) edge-triangle intersection tests.
    thorough: bool,
    math: &'a VolumeMath<B, T, C>,
}

impl<
    'a,
    V,
    B: Fn(&V, Aabb) -> bool,
    T: Fn(&V, Matrix4) -> V,
    C: Fn(&V, &Mesh, bool) -> Option<MeshVolumeHit>,
> VolumePickQuery<'a, V, B, T, C> {
    /// The volume, in the coordinate space of the query.
    pub closed spec fn volume(self) -> V {
        self.volume
    }

    /// Whether thorough tests are used.
    pub closed spec fn thorough(self) -> bool {
        self.thorough
    }

    /// What volumes can do.
    pub closed spec fn math(self) -> VolumeModel<V> {
        volume_model(*self.math)
    }

    #[verifier::type_invariant]
    spec fn is_definite(self) -> bool {
        definite_volumes(*self.math)
    }

    /// The query for a convex volume.
    pub closed spec fn over(volume: V, thorough: bool, math: &'a VolumeMath<B, T, C>) -> Self {
        VolumePickQuery { volume, thorough, math }
    }

    /// Creates a query for a world-space convex volume. `thorough` enables more
    /// accurate but slower edge-triangle tests.
    pub fn new(volume: V, thorough: bool, math: &'a VolumeMath<B, T, C>) -> (query: Self)
        requires
            definite_volumes(*math),
        ensures
            query == Self::over(volume, thorough, math),
            query.volume() == volume,
            query.thorough() == thorough,
            query.math() == volume_model(*math),
    {
        VolumePickQuery { volume, thorough, math }
    }
}

impl<
    'a,
    V,
    B: Fn(&V, Aabb) -> bool,
    T: Fn(&V, Matrix4) -> V,
    C: Fn(&V, &Mesh, bool) -> Option<MeshVolumeHit>,
> PickQuery for VolumePickQuery<'a, V, B, T, C> {
    type Result = VolumePickResult;

    open spec fn might_intersect(&self, bounds: Aabb) -> bool {
        (self.math().meets)(self.volume(), bounds)
    }

    closed spec fn transformed(&self, matrix: Matrix4) -> Self {
        VolumePickQuery {
            volume: (self.math().moved)(self.volume, matrix),
            thorough: self.thorough,
            math: self.math,
        }
    }

    open spec fn hits(
        &self,
        mesh: MeshModel,
        node_id: NodeId,
        instance_id: InstanceId,
        world_transform: Matrix4,
    ) -> Seq<VolumePickResult> {
        volume_results(
            (self.math().cut)(self.volume(), mesh, self.thorough()),
            node_id,
            instance_id,
        )
    }

    fn might_intersect_bounds(&self, bounds: &Aabb) -> (yes: bool) {
        proof {
            use_type_invariant(self);
        }
        (self.math.meets)(&self.volume, *bounds)
    }

    fn transform(&self, matrix: &Matrix4) -> (query: Self) {
        proof {
            use_type_invariant(self);
        }
        let volume = (self.math.moved)(&self.volume, *matrix);
        VolumePickQuery { volume, thorough: self.thorough, math: self.math }
    }

    fn collect_mesh_hits(
        &self,
        mesh: &Mesh,
        node_id: NodeId,
        instance_id: InstanceId,
        _world_transform: &Matrix4,
        results: &mut Vec<VolumePickResult>,
    ) {
        proof {
            use_type_invariant(self);
        }
        let hit = (self.math.cut)(&self.volume, mesh, self.thorough);
        proof {
            assert(can_cut(self.math.cut, self.volume, mesh@, self.thorough, hit));
        }
        collect_volume_hit(hit, node_id, instance_id, results);
    }
}

/// A query for a volume is made of the volume, the flag and the functions; and in another
/// coordinate space it is the query for the moved volume, with the same flag and functions.
pub proof fn volume_query_moves_with_its_volume<
    'a,
    V,
    B: Fn(&V, Aabb) -> bool,
    T: Fn(&V, Matrix4) -> V,
    C: Fn(&V, &Mesh, bool) -> Option<MeshVolumeHit>,
>(volume: V, thorough: bool, math: &'a VolumeMath<B, T, C>, matrix: Matrix4)
    ensures
        ({
            let query = VolumePickQuery::over(volume, thorough, math);
            let model = volume_model(*math);
            &&& query.volume() == volume
            &&& query.thorough() == thorough
            &&& query.math() == model
            &&& query.transformed(matrix) == VolumePickQuery::over(
                (model.moved)(volume, matrix),
                thorough,
                math,
            )
        }),
{
}

/// Picks all instances intersected by a world-space convex volume.
///
/// Each [`VolumePickResult`] records whether the instance is fully contained within the
/// volume. `thorough` enables more accurate but slower edge-triangle intersection tests,
/// catching volumes that pass through a triangle without any of its vertices being inside
/// and without its edges crossing the volume boundary.
pub fn pick_all_from_volume<
    V,
    B: Fn(&V, Aabb) -> bool,
    T: Fn(&V, Matrix4) -> V,
    C: Fn(&V, &Mesh, bool) -> Option<MeshVolumeHit>,
    F: Fn(Matrix4, Transform) -> Matrix4,
    P: Fn(Aabb, Matrix4) -> Aabb,
    M: Fn(Aabb, Aabb) -> Aabb,
    I: Fn(Matrix4) -> Option<Matrix4>,
    E: Fn(DisplayBehavior, Matrix4, PickView) -> Matrix4,
>(
    volume: V,
    scene: &mut SceneData,
    thorough: bool,
    volumes: &VolumeMath<B, T, C>,
    math: &PickMath<F, P, M, I, E>,
) -> (results: Vec<VolumePickResult>)
    requires
        acyclic(old(scene)@.nodes),
        definite_volumes(*volumes),
        math.definite(),
    ensures
        results@ == old(scene)@.picked_all(
            VolumePickQuery::over(volume, thorough, volumes),
            None,
            math.model(),
        ),
        geometry_filled(old(scene)@, final(scene)@.nodes, math.model().geo),
        final(scene)@ == old(scene)@.with_nodes(final(scene)@.nodes),
        old(scene)@.sound() ==> final(scene)@.sound(),
{
    let query = VolumePickQuery::new(volume, thorough, volumes);
    pick_all(&query, scene, math)
}

} // verus!
