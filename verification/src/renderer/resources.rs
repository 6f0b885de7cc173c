//! Which of a scene's resources are mirrored on the graphics device, and what has to be
//! done before the next frame.
//!
//! The mirrored objects themselves live with the device; here they are known by the id
//! of the scene resource and the generation that was copied.

use super::batching::BatchMaterial;
use crate::data::model::SceneModel;
use crate::data::{SceneData, SceneProperties};
use crate::id_map::IdMap;
use crate::id_set::IdSet;
use crate::resource::handle::{EnvironmentMapId, GenericId, ResourceKind};
use crate::resource::material::{FaceMaterialParts, LineMaterialParts, PointMaterialParts};
use crate::resource::mesh::MeshModel;
use crate::resource::texture::TextureModel;
use vstd::prelude::*;

verus! {

/// Which resources of one kind are mirrored, and at which generation.
pub struct GenCache {
    entries: IdMap<u64>,
}

impl View for GenCache {
    type V = Map<u64, u64>;

    closed spec fn view(&self) -> Map<u64, u64> {
        self.entries@
    }
}

impl GenCache {
    /// Nothing is mirrored.
    pub fn new() -> (cache: Self)
        ensures
            cache@ == Map::<u64, u64>::empty(),
    {
        GenCache { entries: IdMap::new() }
    }

    /// Whether a resource is mirrored, at whatever generation.
    pub fn has(&self, id: u64) -> (found: bool)
        ensures
            found == self@.contains_key(id),
    {
        self.entries.contains(id)
    }

    /// Whether a resource is mirrored at this generation.
    pub fn is_current(&self, id: u64, generation: u64) -> (current: bool)
        ensures
            current == (self@.contains_key(id) && self@[id] == generation),
    {
        match self.entries.get(id) {
            Some(mirrored) => *mirrored == generation,
            None => false,
        }
    }

    /// Notes that a resource is now mirrored at this generation.
    pub fn record(&mut self, id: u64, generation: u64)
        ensures
            final(self)@ == old(self)@.insert(id, generation),
    {
        let _ = self.entries.insert(id, generation);
    }

    /// Notes that a resource is no longer mirrored.
    pub fn remove(&mut self, id: u64)
        ensures
            final(self)@ == old(self)@.remove(id),
    {
        let _ = self.entries.remove(id);
    }

    /// Notes that nothing is mirrored any more.
    pub fn clear(&mut self)
        ensures
            final(self)@ == Map::<u64, u64>::empty(),
    {
        self.entries.clear();
    }
}

/// Which resources of a scene are mirrored on the graphics device.
///
/// One value of this type serves any number of views of the same scene. It owns the
/// destructive [`prepare`](SceneResources::prepare), which must run exactly once per
/// scene per frame.
pub struct SceneResources {
    textures: GenCache,
    face_materials: GenCache,
    line_materials: GenCache,
    point_materials: GenCache,
    meshes: GenCache,
    environments: IdSet,
    lights: Option<u64>,
}

/// What a [`SceneResources`] knows.
#[verifier::ext_equal]
pub struct ResourcesModel {
    /// The generation of every mirrored texture.
    pub textures: Map<u64, u64>,
    /// The generation of every mirrored face material.
    pub face_materials: Map<u64, u64>,
    /// The generation of every mirrored line material.
    pub line_materials: Map<u64, u64>,
    /// The generation of every mirrored point material.
    pub point_materials: Map<u64, u64>,
    /// The generation of every mirrored mesh.
    pub meshes: Map<u64, u64>,
    /// The environment maps that were processed for lighting.
    pub environments: Set<u64>,
    /// The node generation that the lights were last collected at.
    pub lights: Option<u64>,
}

impl View for SceneResources {
    type V = ResourcesModel;

    closed spec fn view(&self) -> ResourcesModel {
        ResourcesModel {
            textures: self.textures@,
            face_materials: self.face_materials@,
            line_materials: self.line_materials@,
            point_materials: self.point_materials@,
            meshes: self.meshes@,
            environments: self.environments@,
            lights: self.lights,
        }
    }
}

/// What has to be done on the graphics device before a frame, in the order of the
/// fields.
pub struct Preparation {
    /// Mirrored resources to drop, in the order in which the scene lost them.
    pub evictions: Vec<(ResourceKind, GenericId)>,
    /// Textures to copy, with their generation. Materials sample them, so they are first.
    pub textures: Vec<(u64, u64)>,
    /// Face materials to copy, with their generation.
    pub face_materials: Vec<(u64, u64)>,
    /// Line materials to copy, with their generation.
    pub line_materials: Vec<(u64, u64)>,
    /// Point materials to copy, with their generation.
    pub point_materials: Vec<(u64, u64)>,
    /// Meshes to copy, with their generation.
    pub meshes: Vec<(u64, u64)>,
    /// The node generation to collect the lights at, when they changed.
    pub lights: Option<u64>,
    /// The environment map to process.
    pub environment: Option<EnvironmentMapId>,
}

/// Whether resources of a kind are mirrored one by one. Instances and nodes are not:
/// they go into batches and lights, which follow the nodes.
pub open spec fn mirrored(kind: ResourceKind) -> bool {
    kind != ResourceKind::Instance && kind != ResourceKind::Node
}

/// The removals that concern mirrored resources.
pub open spec fn evictions(removals: Seq<(ResourceKind, GenericId)>) -> Seq<
    (ResourceKind, GenericId),
> {
    removals.filter(|r: (ResourceKind, GenericId)| mirrored(r.0))
}

/// What is left of the mirrored resources of a kind once the removed ones are dropped.
pub open spec fn surviving(
    cache: Map<u64, u64>,
    kind: ResourceKind,
    removals: Seq<(ResourceKind, GenericId)>,
) -> Map<u64, u64> {
    cache.remove_keys(Set::new(|id: u64| removals.contains((kind, id))))
}

/// The resources that are not mirrored at their present generation.
pub open spec fn stale(cache: Map<u64, u64>, present: Map<u64, u64>) -> Set<(u64, u64)> {
    Set::new(
        |e: (u64, u64)|
            present.contains_key(e.0) && present[e.0] == e.1 && !(cache.contains_key(e.0)
                && cache[e.0] == e.1),
    )
}

/// The generation listed under an id, if there is one.
pub open spec fn looked_up(generations: Map<u64, u64>, id: u64) -> Option<u64> {
    if generations.contains_key(id) {
        Some(generations[id])
    } else {
        None
    }
}

/// What is mirrored once the given resources were copied.
pub open spec fn recorded(cache: Map<u64, u64>, copied: Set<(u64, u64)>) -> Map<u64, u64> {
    Map::new(
        |id: u64| cache.contains_key(id) || exists|g: u64| copied.contains((id, g)),
        |id: u64|
            if exists|g: u64| copied.contains((id, g)) {
                choose|g: u64| copied.contains((id, g))
            } else {
                cache[id]
            },
    )
}

impl SceneModel {
    /// The generation of every texture.
    pub open spec fn texture_generations(self) -> Map<u64, u64> {
        self.textures.map_values(|v: TextureModel| v.generation)
    }

    /// The generation of every face material.
    pub open spec fn face_material_generations(self) -> Map<u64, u64> {
        self.face_materials.map_values(|v: FaceMaterialParts| v.generation)
    }

    /// The generation of every line material.
    pub open spec fn line_material_generations(self) -> Map<u64, u64> {
        self.line_materials.map_values(|v: LineMaterialParts| v.generation)
    }

    /// The generation of every point material.
    pub open spec fn point_material_generations(self) -> Map<u64, u64> {
        self.point_materials.map_values(|v: PointMaterialParts| v.generation)
    }

    /// The generation of every mesh.
    pub open spec fn mesh_generations(self) -> Map<u64, u64> {
        self.meshes.map_values(|v: MeshModel| v.generation)
    }

    /// The environment map that lights the scene, when it is there.
    pub open spec fn lit_by(self) -> Option<EnvironmentMapId> {
        match self.active_environment_map {
            Some(id) if self.environment_maps.contains_key(id) => Some(id),
            _ => None,
        }
    }
}

impl ResourcesModel {
    /// Nothing is mirrored.
    pub open spec fn empty() -> ResourcesModel {
        ResourcesModel {
            textures: Map::empty(),
            face_materials: Map::empty(),
            line_materials: Map::empty(),
            point_materials: Map::empty(),
            meshes: Map::empty(),
            environments: Set::empty(),
            lights: None,
        }
    }

    /// What is left once the removed resources are dropped.
    pub open spec fn evicted(self, removals: Seq<(ResourceKind, GenericId)>) -> ResourcesModel {
        ResourcesModel {
            textures: surviving(self.textures, ResourceKind::Texture, removals),
            face_materials: surviving(self.face_materials, ResourceKind::FaceMaterial, removals),
            line_materials: surviving(self.line_materials, ResourceKind::LineMaterial, removals),
            point_materials: surviving(self.point_materials, ResourceKind::PointMaterial, removals),
            meshes: surviving(self.meshes, ResourceKind::Mesh, removals),
            ..self
        }
    }

    /// Whether a material is mirrored.
    pub open spec fn has_material(self, material: BatchMaterial) -> bool {
        match material {
            BatchMaterial::Face(id) => self.face_materials.contains_key(id),
            BatchMaterial::Line(id) => self.line_materials.contains_key(id),
            BatchMaterial::Point(id) => self.point_materials.contains_key(id),
        }
    }
}

impl Preparation {
    /// Whether this is what bringing `known` up to date with `m` takes: drop what was
    /// removed, copy what is not mirrored at its present generation, collect the lights
    /// when a node changed, and process the environment map in use.
    pub open spec fn brings_up_to_date(self, known: ResourcesModel, m: SceneModel) -> bool {
        let left = known.evicted(m.removals);
        &&& self.evictions@ == evictions(m.removals)
        &&& self.textures@.no_duplicates()
        &&& self.textures@.to_set() == stale(left.textures, m.texture_generations())
        &&& self.face_materials@.no_duplicates()
        &&& self.face_materials@.to_set() == stale(left.face_materials, m.face_material_generations())
        &&& self.line_materials@.no_duplicates()
        &&& self.line_materials@.to_set() == stale(left.line_materials, m.line_material_generations())
        &&& self.point_materials@.no_duplicates()
        &&& self.point_materials@.to_set() == stale(left.point_materials, m.point_material_generations())
        &&& self.meshes@.no_duplicates()
        &&& self.meshes@.to_set() == stale(left.meshes, m.mesh_generations())
        &&& self.lights == (if known.lights == Some(m.node_generation) {
            None
        } else {
            Some(m.node_generation)
        })
        &&& self.environment == m.lit_by()
    }
}

/// A resource that was never mirrored is stale, whatever its generation, and so is one
/// whose generation has moved since.
pub proof fn every_change_is_noticed(cache: Map<u64, u64>, present: Map<u64, u64>, id: u64)
    requires
        present.contains_key(id),
        !cache.contains_key(id) || cache[id] != present[id],
    ensures
        stale(cache, present).contains((id, present[id])),
{
}

/// Once everything stale was copied, nothing is stale, and a mirrored resource that the
/// scene holds is mirrored at its present generation.
pub proof fn copying_brings_up_to_date(cache: Map<u64, u64>, present: Map<u64, u64>)
    ensures
        stale(recorded(cache, stale(cache, present)), present) == Set::<(u64, u64)>::empty(),
        cache.dom().subset_of(present.dom()) ==> recorded(cache, stale(cache, present))
            == present,
{
    let copied = stale(cache, present);
    let after = recorded(cache, copied);
    assert forall|id: u64| present.contains_key(id) implies #[trigger] after.contains_key(id)
        && after[id] == present[id] by {
        if cache.contains_key(id) && cache[id] == present[id] {
            assert(forall|g: u64| !copied.contains((id, g)));
        } else {
            assert(copied.contains((id, present[id])));
        }
    }
    assert(stale(after, present) =~= Set::<(u64, u64)>::empty());
    if cache.dom().subset_of(present.dom()) {
        assert(after =~= present);
    }
}

/// Once the removed resources are dropped, none of them is mirrored.
pub proof fn removed_resources_are_dropped(
    known: ResourcesModel,
    removals: Seq<(ResourceKind, GenericId)>,
    kind: ResourceKind,
    id: u64,
)
    requires
        removals.contains((kind, id)),
    ensures
        kind == ResourceKind::Texture ==> !known.evicted(removals).textures.contains_key(id),
        kind == ResourceKind::FaceMaterial ==> !known.evicted(removals).face_materials.contains_key(id),
        kind == ResourceKind::LineMaterial ==> !known.evicted(removals).line_materials.contains_key(id),
        kind == ResourceKind::PointMaterial ==> !known.evicted(removals).point_materials.contains_key(id),
        kind == ResourceKind::Mesh ==> !known.evicted(removals).meshes.contains_key(id),
{
}

/// Dropping removed resources drops nothing else: what was mirrored and not removed stays
/// mirrored at its generation.
pub proof fn other_resources_stay_mirrored(
    known: ResourcesModel,
    removals: Seq<(ResourceKind, GenericId)>,
    id: u64,
)
    ensures
        ({
            let left = known.evicted(removals);
            &&& !removals.contains((ResourceKind::Texture, id)) ==> looked_up(left.textures, id)
                == looked_up(known.textures, id)
            &&& !removals.contains((ResourceKind::FaceMaterial, id)) ==> looked_up(
                left.face_materials,
                id,
            ) == looked_up(known.face_materials, id)
            &&& !removals.contains((ResourceKind::LineMaterial, id)) ==> looked_up(
                left.line_materials,
                id,
            ) == looked_up(known.line_materials, id)
            &&& !removals.contains((ResourceKind::PointMaterial, id)) ==> looked_up(
                left.point_materials,
                id,
            ) == looked_up(known.point_materials, id)
            &&& !removals.contains((ResourceKind::Mesh, id)) ==> looked_up(left.meshes, id)
                == looked_up(known.meshes, id)
            &&& left.environments == known.environments
            &&& left.lights == known.lights
        }),
{
}

/// Whether a resource is mirrored at a generation and was not removed since.
pub open spec fn current(
    cache: Map<u64, u64>,
    kind: ResourceKind,
    removals: Seq<(ResourceKind, GenericId)>,
    id: u64,
    generation: u64,
) -> bool {
    cache.contains_key(id) && cache[id] == generation && !removals.contains((kind, id))
}

/// Preparing a frame copies exactly what the scene holds and what is not mirrored as it is
/// now: neither less, nor again what is. What was removed is dropped, the lights are
/// collected when a node has changed since, and the environment map in use is processed if
/// it is there.
pub proof fn preparing_copies_exactly_what_changed(
    todo: Preparation,
    known: ResourcesModel,
    m: SceneModel,
    id: u64,
    g: u64,
)
    requires
        todo.brings_up_to_date(known, m),
    ensures
        todo.textures@.contains((id, g)) <==> m.textures.contains_key(id)
            && m.textures[id].generation == g && !current(
            known.textures,
            ResourceKind::Texture,
            m.removals,
            id,
            g,
        ),
        todo.face_materials@.contains((id, g)) <==> m.face_materials.contains_key(id)
            && m.face_materials[id].generation == g && !current(
            known.face_materials,
            ResourceKind::FaceMaterial,
            m.removals,
            id,
            g,
        ),
        todo.line_materials@.contains((id, g)) <==> m.line_materials.contains_key(id)
            && m.line_materials[id].generation == g && !current(
            known.line_materials,
            ResourceKind::LineMaterial,
            m.removals,
            id,
            g,
        ),
        todo.point_materials@.contains((id, g)) <==> m.point_materials.contains_key(id)
            && m.point_materials[id].generation == g && !current(
            known.point_materials,
            ResourceKind::PointMaterial,
            m.removals,
            id,
            g,
        ),
        todo.meshes@.contains((id, g)) <==> m.meshes.contains_key(id) && m.meshes[id].generation
            == g && !current(known.meshes, ResourceKind::Mesh, m.removals, id, g),
        todo.lights is None <==> known.lights == Some(m.node_generation),
        todo.lights is Some ==> todo.lights == Some(m.node_generation),
        todo.environment is Some <==> m.active_environment_map is Some
            && m.environment_maps.contains_key(m.active_environment_map->0),
        todo.environment is Some ==> todo.environment == m.active_environment_map,
        forall|kind: ResourceKind| #[trigger]
            todo.evictions@.contains((kind, id)) <==> m.removals.contains((kind, id))
                && !(kind is Instance) && !(kind is Node),
{
    assert(todo.textures@.contains((id, g)) == todo.textures@.to_set().contains((id, g)));
    assert(todo.face_materials@.contains((id, g)) == todo.face_materials@.to_set().contains(
        (id, g),
    ));
    assert(todo.line_materials@.contains((id, g)) == todo.line_materials@.to_set().contains(
        (id, g),
    ));
    assert(todo.point_materials@.contains((id, g)) == todo.point_materials@.to_set().contains(
        (id, g),
    ));
    assert(todo.meshes@.contains((id, g)) == todo.meshes@.to_set().contains((id, g)));
    let test = |r: (ResourceKind, GenericId)| mirrored(r.0);
    assert forall|kind: ResourceKind| #[trigger]
        todo.evictions@.contains((kind, id)) <==> m.removals.contains((kind, id))
            && !(kind is Instance) && !(kind is Node) by {
        let kept = m.removals.filter(test);
        if kept.contains((kind, id)) {
            m.removals.lemma_filter_contains_rev(test, (kind, id));
            let i = choose|i: int| 0 <= i < kept.len() && kept[i] == (kind, id);
            m.removals.lemma_filter_pred(test, i);
        }
        if m.removals.contains((kind, id)) && mirrored(kind) {
            let i = choose|i: int| 0 <= i < m.removals.len() && m.removals[i] == (kind, id);
            m.removals.lemma_filter_contains(test, i);
        }
    }
}

/// Notes the resources that have to be copied.
fn find_stale<F: Fn(u64) -> Option<u64>>(
    cache: &GenCache,
    ids: &Vec<u64>,
    generation: &F,
    Ghost(present): Ghost<Map<u64, u64>>,
) -> (found: Vec<(u64, u64)>)
    requires
        ids@.no_duplicates(),
        ids@.to_set() == present.dom(),
        forall|id: u64| #[trigger] call_requires(*generation, (id,)),
        forall|id: u64, g: Option<u64>| #[trigger]
            call_ensures(*generation, (id,), g) ==> g == looked_up(present, id),
    ensures
        found@.no_duplicates(),
        found@.to_set() == stale(cache@, present),
{
    let mut found: Vec<(u64, u64)> = Vec::new();
    let mut i: usize = 0;
    while i < ids.len()
        invariant
            i <= ids.len(),
            ids@.no_duplicates(),
            ids@.to_set() == present.dom(),
            forall|id: u64| #[trigger] call_requires(*generation, (id,)),
            forall|id: u64, g: Option<u64>| #[trigger]
                call_ensures(*generation, (id,), g) ==> g == looked_up(present, id),
            found@.no_duplicates(),
            forall|e: (u64, u64)| #[trigger]
                found@.contains(e) <==> stale(cache@, present).contains(e)
                    && ids@.take(i as int).contains(e.0),
        decreases ids.len() - i,
    {
        let id: u64 = ids[i];
        let ghost before = found@;
        proof {
            assert(ids@.contains(id));
            assert(ids@.to_set().contains(id));
            assert(ids@.take(i + 1) =~= ids@.take(i as int).push(id));
            assert(!ids@.take(i as int).contains(id));
            assert forall|k: u64| #[trigger] ids@.take(i + 1).contains(k) <==> ids@.take(
                i as int,
            ).contains(k) || k == id by {
                if k == id {
                    assert(ids@.take(i + 1)[i as int] == id);
                }
                if ids@.take(i as int).contains(k) {
                    let j = choose|j: int|
                        0 <= j < ids@.take(i as int).len() && ids@.take(i as int)[j] == k;
                    assert(ids@.take(i + 1)[j] == k);
                }
            }
        }
        if let Some(g) = generation(id) {
            if !cache.is_current(id, g) {
                found.push((id, g));
                proof {
                    assert(!before.contains((id, g)));
                    assert forall|e: (u64, u64)| #[trigger] found@.contains(e) <==> before.contains(e)
                        || e == (id, g) by {
                        if e == (id, g) {
                            assert(found@[before.len() as int] == e);
                        }
                        if before.contains(e) {
                            let j = choose|j: int| 0 <= j < before.len() && before[j] == e;
                            assert(found@[j] == e);
                        }
                    }
                }
            }
        }
        i = i + 1;
    }
    proof {
        assert(ids@.take(ids.len() as int) =~= ids@);
        assert forall|e: (u64, u64)| found@.to_set().contains(e) <==> #[trigger] stale(
            cache@,
            present,
        ).contains(e) by {
            assert(found@.contains(e) <==> found@.to_set().contains(e));
            if present.contains_key(e.0) {
                assert(ids@.to_set().contains(e.0));
            }
        }
        assert(found@.to_set() =~= stale(cache@, present));
    }
    found
}

impl SceneResources {
    /// Nothing is mirrored.
    pub fn new() -> (resources: Self)
        ensures
            resources@ == ResourcesModel::empty(),
    {
        SceneResources {
            textures: GenCache::new(),
            face_materials: GenCache::new(),
            line_materials: GenCache::new(),
            point_materials: GenCache::new(),
            meshes: GenCache::new(),
            environments: IdSet::new(),
            lights: None,
        }
    }

    /// Forgets all scene-specific resources.
    ///
    /// Call this when the scene is cleared or replaced, so that stale buffers (vertex
    /// data, textures, materials) are not reused. Processed environment maps stay.
    pub fn clear(&mut self)
        ensures
            final(self)@ == (ResourcesModel {
                environments: old(self)@.environments,
                lights: old(self)@.lights,
                ..ResourcesModel::empty()
            }),
    {
        self.meshes.clear();
        self.textures.clear();
        self.face_materials.clear();
        self.line_materials.clear();
        self.point_materials.clear();
    }

    /// Drops what was removed, and returns the removals that concern mirrored
    /// resources.
    fn evict(&mut self, removals: &Vec<(ResourceKind, GenericId)>) -> (dropped: Vec<
        (ResourceKind, GenericId),
    >)
        ensures
            final(self)@ == old(self)@.evicted(removals@),
            dropped@ == evictions(removals@),
    {
        let mut dropped: Vec<(ResourceKind, GenericId)> = Vec::new();
        let ghost known = self@;
        let mut i: usize = 0;
        proof {
            assert(removals@.take(0) =~= Seq::empty());
            assert(known.evicted(removals@.take(0)) =~= known);
            assert(evictions(removals@.take(0)) =~= Seq::empty());
        }
        while i < removals.len()
            invariant
                i <= removals.len(),
                self@ == known.evicted(removals@.take(i as int)),
                dropped@ == evictions(removals@.take(i as int)),
            decreases removals.len() - i,
        {
            let (kind, id) = removals[i];
            let ghost done = removals@.take(i as int);
            match kind {
                ResourceKind::Mesh => {
                    self.meshes.remove(id);
                },
                ResourceKind::Texture => {
                    self.textures.remove(id);
                },
                ResourceKind::FaceMaterial => {
                    self.face_materials.remove(id);
                },
                ResourceKind::LineMaterial => {
                    self.line_materials.remove(id);
                },
                ResourceKind::PointMaterial => {
                    self.point_materials.remove(id);
                },
                ResourceKind::Instance | ResourceKind::Node => {},
            }
            match kind {
                ResourceKind::Instance | ResourceKind::Node => {},
                _ => {
                    dropped.push((kind, id));
                },
            }
            proof {
                let next = removals@.take(i + 1);
                assert(next =~= done.push((kind, id)));
                assert(forall|r: (ResourceKind, GenericId)| #[trigger]
                    next.contains(r) <==> done.contains(r) || r == (kind, id)) by {
                    assert forall|r: (ResourceKind, GenericId)| #[trigger]
                        next.contains(r) <==> done.contains(r) || r == (kind, id) by {
                        if r == (kind, id) {
                            assert(next[done.len() as int] == r);
                        }
                        if done.contains(r) {
                            let j = choose|j: int| 0 <= j < done.len() && done[j] == r;
                            assert(next[j] == r);
                        }
                    }
                }
                let f = |r: (ResourceKind, GenericId)| mirrored(r.0);
                assert(next.drop_last() =~= done);
                reveal(Seq::filter);
                assert(evictions(next) == if mirrored(kind) {
                    evictions(done).push((kind, id))
                } else {
                    evictions(done)
                });
                assert(self@ =~= known.evicted(next));
            }
            i = i + 1;
        }
        proof {
            assert(removals@.take(removals.len() as int) =~= removals@);
        }
        dropped
    }

    /// Drops what the scene has lost since the last call, and lists what has to be done
    /// on the graphics device before the scene can be drawn.
    ///
    /// The caller does it in the order of the fields of the result, and reports what it
    /// has done with [`record`](SceneResources::record),
    /// [`record_lights`](SceneResources::record_lights) and
    /// [`record_environment`](SceneResources::record_environment). When a step fails the
    /// rest is left for another frame.
    pub fn prepare(&mut self, scene: &mut SceneData) -> (todo: Preparation)
        ensures
            todo.brings_up_to_date(old(self)@, old(scene)@),
            final(self)@ == old(self)@.evicted(old(scene)@.removals),
            final(scene)@ == (SceneModel { removals: Seq::empty(), ..old(scene)@ }),
    {
        let ghost m = scene@;
        let removals = scene.take_removals();
        let evictions = self.evict(&removals);
        let now: &SceneData = scene;
        proof {
            assert(m.texture_generations().dom() =~= m.textures.dom());
            assert(m.face_material_generations().dom() =~= m.face_materials.dom());
            assert(m.line_material_generations().dom() =~= m.line_materials.dom());
            assert(m.point_material_generations().dom() =~= m.point_materials.dom());
            assert(m.mesh_generations().dom() =~= m.meshes.dom());
        }
        let of_texture = |id: u64| -> (g: Option<u64>)
            ensures
                g == looked_up(now@.texture_generations(), id),
            {
                match now.get_texture(id) {
                    Some(item) => Some(item.generation()),
                    None => None,
                }
            };
        let ids = now.textures();
        let textures = find_stale(&self.textures, &ids, &of_texture, Ghost(m.texture_generations()));
        let of_face_material = |id: u64| -> (g: Option<u64>)
            ensures
                g == looked_up(now@.face_material_generations(), id),
            {
                match now.get_face_material(id) {
                    Some(item) => Some(item.generation()),
                    None => None,
                }
            };
        let ids = now.face_materials();
        let face_materials = find_stale(&self.face_materials, &ids, &of_face_material, Ghost(m.face_material_generations()));
        let of_line_material = |id: u64| -> (g: Option<u64>)
            ensures
                g == looked_up(now@.line_material_generations(), id),
            {
                match now.get_line_material(id) {
                    Some(item) => Some(item.generation()),
                    None => None,
                }
            };
        let ids = now.line_materials();
        let line_materials = find_stale(&self.line_materials, &ids, &of_line_material, Ghost(m.line_material_generations()));
        let of_point_material = |id: u64| -> (g: Option<u64>)
            ensures
                g == looked_up(now@.point_material_generations(), id),
            {
                match now.get_point_material(id) {
                    Some(item) => Some(item.generation()),
                    None => None,
                }
            };
        let ids = now.point_materials();
        let point_materials = find_stale(&self.point_materials, &ids, &of_point_material, Ghost(m.point_material_generations()));
        let of_mesh = |id: u64| -> (g: Option<u64>)
            ensures
                g == looked_up(now@.mesh_generations(), id),
            {
                match now.get_mesh(id) {
                    Some(item) => Some(item.generation()),
                    None => None,
                }
            };
        let ids = now.meshes();
        let meshes = find_stale(&self.meshes, &ids, &of_mesh, Ghost(m.mesh_generations()));
        let generation: u64 = now.node_generation();
        let lights = match self.lights {
            Some(collected) if collected == generation => None,
            _ => Some(generation),
        };
        let environment = match now.active_environment_map() {
            Some(id) => if now.get_environment_map(id).is_some() {
                Some(id)
            } else {
                None
            },
            None => None,
        };
        Preparation {
            evictions,
            textures,
            face_materials,
            line_materials,
            point_materials,
            meshes,
            lights,
            environment,
        }
    }

    /// Notes that a resource was copied at a generation.
    pub fn record(&mut self, kind: ResourceKind, id: u64, generation: u64)
        ensures
            final(self)@ == (match kind {
                ResourceKind::Texture => ResourcesModel {
                    textures: old(self)@.textures.insert(id, generation),
                    ..old(self)@
                },
                ResourceKind::FaceMaterial => ResourcesModel {
                    face_materials: old(self)@.face_materials.insert(id, generation),
                    ..old(self)@
                },
                ResourceKind::LineMaterial => ResourcesModel {
                    line_materials: old(self)@.line_materials.insert(id, generation),
                    ..old(self)@
                },
                ResourceKind::PointMaterial => ResourcesModel {
                    point_materials: old(self)@.point_materials.insert(id, generation),
                    ..old(self)@
                },
                ResourceKind::Mesh => ResourcesModel {
                    meshes: old(self)@.meshes.insert(id, generation),
                    ..old(self)@
                },
                ResourceKind::Instance | ResourceKind::Node => old(self)@,
            }),
    {
        match kind {
            ResourceKind::Texture => self.textures.record(id, generation),
            ResourceKind::FaceMaterial => self.face_materials.record(id, generation),
            ResourceKind::LineMaterial => self.line_materials.record(id, generation),
            ResourceKind::PointMaterial => self.point_materials.record(id, generation),
            ResourceKind::Mesh => self.meshes.record(id, generation),
            ResourceKind::Instance | ResourceKind::Node => {},
        }
    }

    /// Notes that the lights were collected at a node generation.
    pub fn record_lights(&mut self, generation: u64)
        ensures
            final(self)@ == (ResourcesModel { lights: Some(generation), ..old(self)@ }),
    {
        self.lights = Some(generation);
    }

    /// Notes that an environment map was processed.
    pub fn record_environment(&mut self, id: EnvironmentMapId)
        ensures
            final(self)@ == (ResourcesModel {
                environments: old(self)@.environments.insert(id),
                ..old(self)@
            }),
    {
        let _ = self.environments.insert(id);
    }

    /// Whether a mesh is mirrored.
    pub fn has_mesh(&self, id: u64) -> (found: bool)
        ensures
            found == self@.meshes.contains_key(id),
    {
        self.meshes.has(id)
    }

    /// Whether a material is mirrored.
    pub fn has_material(&self, material: BatchMaterial) -> (found: bool)
        ensures
            found == self@.has_material(material),
    {
        match material {
            BatchMaterial::Face(id) => self.face_materials.has(id),
            BatchMaterial::Line(id) => self.line_materials.has(id),
            BatchMaterial::Point(id) => self.point_materials.has(id),
        }
    }

    /// The scene-level properties that select shader variants: image-based lighting is
    /// on when the environment map in use was processed.
    pub fn scene_properties(&self, scene: &SceneData) -> (props: SceneProperties)
        ensures
            props.has_ibl == (scene@.active_environment_map matches Some(id)
                && self@.environments.contains(id)),
    {
        let has_ibl = match scene.active_environment_map() {
            Some(id) => self.environments.contains(id),
            None => false,
        };
        SceneProperties { has_ibl }
    }
}

} // verus!
