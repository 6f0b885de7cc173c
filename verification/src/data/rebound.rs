//! Rebinding a scene, and copying one.

use super::model::SceneModel;
use super::ownership::{
    face_refs, instance_refs, lemma_total_empty, lemma_total_insert, line_refs, node_refs,
    point_refs, total,
};
use super::rebind::unbind_all;
use super::rebuild::{
    cores_from, face_len, instance_len, lemma_total_part, line_len, node_len, point_len,
};
use super::SceneData;
use crate::id_map::IdMap;
use crate::id_set::IdSet;
use crate::resource::handle::{count_core, Handle, Ledger, NodeId};
use crate::resource::instance::InstanceParts;
use crate::resource::material::{opt_seq, FaceMaterialParts, LineMaterialParts, PointMaterialParts};
use crate::resource::mesh::{Mesh, MeshModel};
use crate::resource::node::{Node, NodeModel, NodePayload};
use crate::resource::texture::{EnvironmentMap, EnvironmentMapModel, Texture, TextureModel};
use vstd::prelude::*;

verus! {

impl SceneModel {
    /// The nodes that are reached from the roots.
    pub open spec fn reachable_nodes(self) -> Set<u64> {
        self.nodes.dom().filter(|k: u64| self.reachable(k))
    }

    /// The instances that reachable nodes carry.
    pub open spec fn live_instances(self) -> Set<u64> {
        self.instances.dom().filter(|k: u64| self.live_instance(k))
    }

    /// The meshes that live instances refer to.
    pub open spec fn live_meshes(self) -> Set<u64> {
        self.meshes.dom().filter(|k: u64| self.live_mesh(k))
    }

    /// The face materials that live instances refer to.
    pub open spec fn live_faces(self) -> Set<u64> {
        self.face_materials.dom().filter(|k: u64| self.live_face(k))
    }

    /// The line materials that live instances refer to.
    pub open spec fn live_lines(self) -> Set<u64> {
        self.line_materials.dom().filter(|k: u64| self.live_line(k))
    }

    /// The point materials that live instances refer to.
    pub open spec fn live_points(self) -> Set<u64> {
        self.point_materials.dom().filter(|k: u64| self.live_point(k))
    }

    /// The textures that live materials refer to.
    pub open spec fn live_textures(self) -> Set<u64> {
        self.textures.dom().filter(|k: u64| self.live_texture(k))
    }

    /// The active camera, unless its node is not reached from the roots.
    pub open spec fn live_camera(self) -> Option<NodeId> {
        match self.active_camera {
            Some(id) => if self.reachable_nodes().contains(id) {
                Some(id)
            } else {
                None
            },
            None => None,
        }
    }

    /// Whether the collections that own handles, and the roots, hold what is live in
    /// `m`, unchanged but for the cores of the handles and the cached bounds and
    /// visibilities.
    pub open spec fn holds_live_of(self, m: SceneModel) -> bool {
        &&& self.nodes.dom() == m.reachable_nodes()
        &&& forall|k: u64| #[trigger]
            self.nodes.contains_key(k) ==> self.nodes[k].unbound() == m.nodes[k].unbound()
                && self.nodes[k].bounds_cache is None && self.nodes[k].visibility_cache is None
        &&& self.instances.dom() == m.live_instances()
        &&& forall|k: u64| #[trigger]
            self.instances.contains_key(k) ==> self.instances[k].unbound()
                == m.instances[k].unbound()
        &&& self.face_materials.dom() == m.live_faces()
        &&& forall|k: u64| #[trigger]
            self.face_materials.contains_key(k) ==> self.face_materials[k].unbound()
                == m.face_materials[k].unbound()
        &&& self.line_materials.dom() == m.live_lines()
        &&& forall|k: u64| #[trigger]
            self.line_materials.contains_key(k) ==> self.line_materials[k].unbound()
                == m.line_materials[k].unbound()
        &&& self.point_materials.dom() == m.live_points()
        &&& forall|k: u64| #[trigger]
            self.point_materials.contains_key(k) ==> self.point_materials[k].unbound()
                == m.point_materials[k].unbound()
        &&& unbind_all(self.roots) == unbind_all(m.roots)
    }

    /// Whether this scene is what rebinding makes of `m`: what is live in `m` is kept
    /// and nothing else, each stored handle is canonical and counted on a fresh core,
    /// no handle outside the scene counts, and no removal waits.
    pub open spec fn rebound(self, m: SceneModel) -> bool {
        &&& self.rebuilt()
        &&& self.holds_live_of(m)
        &&& cores_from(self.ledger, m.ledger.clock)
        &&& self.meshes == m.meshes.restrict(m.live_meshes())
        &&& self.textures == m.textures.restrict(m.live_textures())
        &&& self.environment_maps == m.environment_maps
        &&& self.active_environment_map == m.active_environment_map
        &&& self.active_camera == m.live_camera()
        &&& self.node_generation == m.node_generation
        &&& self.removals.len() == 0
    }
}

/// What is marked for keeping besides the owners of handles.
struct Kept {
    meshes: IdSet,
    textures: IdSet,
}

impl SceneData {
    /// The owners of handles that are live, with canonical handles, in a scene
    /// without meshes, textures and environment maps. Also what of these is live.
    fn rebuild(&self) -> (built: (SceneData, Kept))
        requires
            self@.wf(),
            self@.ledger.clock + self@.handle_total() <= u64::MAX,
        ensures
            built.0@.rebuilt(),
            built.0@.holds_live_of(self@),
            built.0@.wf(),
            cores_from(built.0@.ledger, self@.ledger.clock),
            built.0@.meshes == Map::<u64, MeshModel>::empty(),
            built.0@.textures == Map::<u64, TextureModel>::empty(),
            built.0@.environment_maps == Map::<u64, EnvironmentMapModel>::empty(),
            built.0@.active_environment_map == self@.active_environment_map,
            built.0@.active_camera == self@.live_camera(),
            built.0@.node_generation == self@.node_generation,
            built.0@.removals.len() == 0,
            forall|k: u64| #[trigger] built.1.meshes@.contains(k) <==> self@.live_mesh(k),
            forall|k: u64| #[trigger] built.1.textures@.contains(k) <==> self@.live_texture(k),
    {
        let ghost m = self@;
        let live_nodes = self.mark_nodes();
        let live_instances = self.mark_instances(&live_nodes);
        let meshes = self.mark_meshes(&live_instances);
        let live_face = self.mark_face(&live_instances);
        let live_line = self.mark_line(&live_instances);
        let live_point = self.mark_point(&live_instances);
        let mut textures = IdSet::new();
        self.mark_face_textures(&live_face, &mut textures);
        self.mark_line_textures(&live_line, &mut textures);
        self.mark_point_textures(&live_point, &mut textures);
        let active_camera = match self.active_camera {
            Some(id) => {
                if self.nodes.contains(id) && live_nodes.contains(id) {
                    Some(id)
                } else {
                    None
                }
            },
            None => None,
        };
        let mut out = SceneData {
            meshes: IdMap::new(),
            instances: IdMap::new(),
            nodes: IdMap::new(),
            root_nodes: Vec::new(),
            face_materials: IdMap::new(),
            line_materials: IdMap::new(),
            point_materials: IdMap::new(),
            textures: IdMap::new(),
            environment_maps: IdMap::new(),
            active_environment_map: self.active_environment_map,
            active_camera,
            node_generation: self.node_generation,
            ledger: Ledger::from_clock(self.ledger.now()),
            removals: Vec::new(),
        };
        let ghost nodes = total(m.nodes, node_len());
        let ghost face = total(m.face_materials, face_len());
        let ghost line = total(m.line_materials, line_len());
        let ghost point = total(m.point_materials, point_len());
        let ghost roots = m.roots.len();
        proof {
            assert forall|c: u64| #[trigger] out@.ledger.strong(c) == out@.refs(c) by {
                lemma_total_empty(node_refs(c));
                lemma_total_empty(instance_refs(c));
                lemma_total_empty(face_refs(c));
                lemma_total_empty(line_refs(c));
                lemma_total_empty(point_refs(c));
                assert(out@.roots =~= Seq::empty());
                assert(count_core(out@.roots, c) == 0);
            }
            assert(cores_from(out@.ledger, m.ledger.clock));
        }
        self.rebuild_instances(&mut out, &live_instances, Ghost(face + line + point + nodes + roots));
        self.rebuild_face_materials(&mut out, &live_face, Ghost(line + point + nodes + roots));
        self.rebuild_line_materials(&mut out, &live_line, Ghost(point + nodes + roots));
        self.rebuild_point_materials(&mut out, &live_point, Ghost(nodes + roots));
        self.rebuild_nodes(&mut out, &live_nodes, Ghost(roots));
        self.rebuild_roots(&mut out);
        proof {
            assert(out@.nodes.dom() =~= m.reachable_nodes());
            assert(out@.instances.dom() =~= m.live_instances());
            assert(out@.face_materials.dom() =~= m.live_faces());
            assert(out@.line_materials.dom() =~= m.live_lines());
            assert(out@.point_materials.dom() =~= m.live_points());
            assert forall|k: u64| #[trigger] out@.nodes.contains_key(k) implies out@.nodes[k].id
                == k by {
                assert(m.nodes.contains_key(k));
                assert(out@.nodes[k].unbound().id == m.nodes[k].unbound().id);
            }
            assert(out@.holds_live_of(m));
        }
        (out, Kept { meshes, textures })
    }

    /// Takes the marked meshes out of this scene.
    fn take_meshes(&mut self, live: &IdSet) -> (kept: IdMap<Mesh>)
        ensures
            kept@ == old(self)@.meshes.restrict(live@),
            final(self)@ == (SceneModel { meshes: final(self)@.meshes, ..old(self)@ }),
    {
        let ghost whole = self@.meshes;
        let ghost start = self@;
        let ids = self.meshes.keys();
        let mut kept: IdMap<Mesh> = IdMap::new();
        let mut i: usize = 0;
        while i < ids.len()
            invariant
                i <= ids.len(),
                ids@.no_duplicates(),
                forall|id: u64| #[trigger] ids@.contains(id) <==> whole.contains_key(id),
                self@ == (SceneModel { meshes: self@.meshes, ..start }),
                forall|k: u64| #[trigger]
                    kept@.contains_key(k) <==> live@.contains(k) && exists|j: int|
                        0 <= j < i && ids@[j] == k,
                forall|k: u64| #[trigger]
                    kept@.contains_key(k) ==> whole.contains_key(k) && kept@[k] == whole[k],
                forall|j: int|
                    i <= j < ids.len() ==> self@.meshes.contains_key(#[trigger] ids@[j])
                        && self@.meshes[ids@[j]] == whole[ids@[j]],
            decreases ids.len() - i,
        {
            let id: u64 = ids[i];
            let ghost before = kept@;
            let ghost left = self@.meshes;
            proof {
                assert(ids@.contains(ids@[i as int]));
            }
            if live.contains(id) {
                if let Some(item) = self.meshes.remove(id) {
                    kept.insert(id, item);
                }
            }
            proof {
                assert forall|k: u64| #[trigger] kept@.contains_key(k) <==> live@.contains(k)
                    && exists|j: int| 0 <= j < i + 1 && ids@[j] == k by {
                    if before.contains_key(k) {
                        let j = choose|j: int| 0 <= j < i && ids@[j] == k;
                        assert(0 <= j < i + 1 && ids@[j] == k);
                    }
                    if k == id {
                        assert(ids@[i as int] == k);
                    }
                    if live@.contains(k) && exists|j: int| 0 <= j < i + 1 && ids@[j] == k {
                        let j = choose|j: int| 0 <= j < i + 1 && ids@[j] == k;
                        if j < i {
                            assert(before.contains_key(k));
                        }
                    }
                }
                assert forall|j: int| i + 1 <= j < ids.len() implies self@.meshes.contains_key(
                    #[trigger] ids@[j],
                ) && self@.meshes[ids@[j]] == whole[ids@[j]] by {
                    assert(ids@[j] != ids@[i as int]);
                    assert(left.contains_key(ids@[j]));
                }
            }
            i = i + 1;
        }
        proof {
            assert(kept@ =~= whole.restrict(live@)) by {
                assert forall|k: u64| #[trigger] kept@.contains_key(k) <==> whole.restrict(
                    live@,
                ).contains_key(k) by {
                    if whole.contains_key(k) {
                        assert(ids@.contains(k));
                    }
                }
            }
        }
        kept
    }

    /// Copies of the marked meshes.
    fn copy_meshes(&self, live: &IdSet) -> (kept: IdMap<Mesh>)
        ensures
            kept@ == self@.meshes.restrict(live@),
    {
        let ghost whole = self@.meshes;
        let ids = self.meshes.keys();
        let mut kept: IdMap<Mesh> = IdMap::new();
        let mut i: usize = 0;
        while i < ids.len()
            invariant
                i <= ids.len(),
                whole == self@.meshes,
                forall|id: u64| #[trigger] ids@.contains(id) <==> whole.contains_key(id),
                forall|k: u64| #[trigger]
                    kept@.contains_key(k) <==> live@.contains(k) && exists|j: int|
                        0 <= j < i && ids@[j] == k,
                forall|k: u64| #[trigger]
                    kept@.contains_key(k) ==> whole.contains_key(k) && kept@[k] == whole[k],
            decreases ids.len() - i,
        {
            let id: u64 = ids[i];
            let ghost before = kept@;
            proof {
                assert(ids@.contains(ids@[i as int]));
            }
            if live.contains(id) {
                if let Some(item) = self.meshes.get(id) {
                    kept.insert(id, item.copy());
                }
            }
            proof {
                assert forall|k: u64| #[trigger] kept@.contains_key(k) <==> live@.contains(k)
                    && exists|j: int| 0 <= j < i + 1 && ids@[j] == k by {
                    if before.contains_key(k) {
                        let j = choose|j: int| 0 <= j < i && ids@[j] == k;
                        assert(0 <= j < i + 1 && ids@[j] == k);
                    }
                    if k == id {
                        assert(ids@[i as int] == k);
                    }
                    if live@.contains(k) && exists|j: int| 0 <= j < i + 1 && ids@[j] == k {
                        let j = choose|j: int| 0 <= j < i + 1 && ids@[j] == k;
                        if j < i {
                            assert(before.contains_key(k));
                        }
                    }
                }
            }
            i = i + 1;
        }
        proof {
            assert(kept@ =~= whole.restrict(live@)) by {
                assert forall|k: u64| #[trigger] kept@.contains_key(k) <==> whole.restrict(
                    live@,
                ).contains_key(k) by {
                    if whole.contains_key(k) {
                        assert(ids@.contains(k));
                    }
                }
            }
        }
        kept
    }

    /// Takes the marked textures out of this scene.
    fn take_textures(&mut self, live: &IdSet) -> (kept: IdMap<Texture>)
        ensures
            kept@ == old(self)@.textures.restrict(live@),
            final(self)@ == (SceneModel { textures: final(self)@.textures, ..old(self)@ }),
    {
        let ghost whole = self@.textures;
        let ghost start = self@;
        let ids = self.textures.keys();
        let mut kept: IdMap<Texture> = IdMap::new();
        let mut i: usize = 0;
        while i < ids.len()
            invariant
                i <= ids.len(),
                ids@.no_duplicates(),
                forall|id: u64| #[trigger] ids@.contains(id) <==> whole.contains_key(id),
                self@ == (SceneModel { textures: self@.textures, ..start }),
                forall|k: u64| #[trigger]
                    kept@.contains_key(k) <==> live@.contains(k) && exists|j: int|
                        0 <= j < i && ids@[j] == k,
                forall|k: u64| #[trigger]
                    kept@.contains_key(k) ==> whole.contains_key(k) && kept@[k] == whole[k],
                forall|j: int|
                    i <= j < ids.len() ==> self@.textures.contains_key(#[trigger] ids@[j])
                        && self@.textures[ids@[j]] == whole[ids@[j]],
            decreases ids.len() - i,
        {
            let id: u64 = ids[i];
            let ghost before = kept@;
            let ghost left = self@.textures;
            proof {
                assert(ids@.contains(ids@[i as int]));
            }
            if live.contains(id) {
                if let Some(item) = self.textures.remove(id) {
                    kept.insert(id, item);
                }
            }
            proof {
                assert forall|k: u64| #[trigger] kept@.contains_key(k) <==> live@.contains(k)
                    && exists|j: int| 0 <= j < i + 1 && ids@[j] == k by {
                    if before.contains_key(k) {
                        let j = choose|j: int| 0 <= j < i && ids@[j] == k;
                        assert(0 <= j < i + 1 && ids@[j] == k);
                    }
                    if k == id {
                        assert(ids@[i as int] == k);
                    }
                    if live@.contains(k) && exists|j: int| 0 <= j < i + 1 && ids@[j] == k {
                        let j = choose|j: int| 0 <= j < i + 1 && ids@[j] == k;
                        if j < i {
                            assert(before.contains_key(k));
                        }
                    }
                }
                assert forall|j: int| i + 1 <= j < ids.len() implies self@.textures.contains_key(
                    #[trigger] ids@[j],
                ) && self@.textures[ids@[j]] == whole[ids@[j]] by {
                    assert(ids@[j] != ids@[i as int]);
                    assert(left.contains_key(ids@[j]));
                }
            }
            i = i + 1;
        }
        proof {
            assert(kept@ =~= whole.restrict(live@)) by {
                assert forall|k: u64| #[trigger] kept@.contains_key(k) <==> whole.restrict(
                    live@,
                ).contains_key(k) by {
                    if whole.contains_key(k) {
                        assert(ids@.contains(k));
                    }
                }
            }
        }
        kept
    }

    /// Copies of the marked textures.
    fn copy_textures(&self, live: &IdSet) -> (kept: IdMap<Texture>)
        ensures
            kept@ == self@.textures.restrict(live@),
    {
        let ghost whole = self@.textures;
        let ids = self.textures.keys();
        let mut kept: IdMap<Texture> = IdMap::new();
        let mut i: usize = 0;
        while i < ids.len()
            invariant
                i <= ids.len(),
                whole == self@.textures,
                forall|id: u64| #[trigger] ids@.contains(id) <==> whole.contains_key(id),
                forall|k: u64| #[trigger]
                    kept@.contains_key(k) <==> live@.contains(k) && exists|j: int|
                        0 <= j < i && ids@[j] == k,
                forall|k: u64| #[trigger]
                    kept@.contains_key(k) ==> whole.contains_key(k) && kept@[k] == whole[k],
            decreases ids.len() - i,
        {
            let id: u64 = ids[i];
            let ghost before = kept@;
            proof {
                assert(ids@.contains(ids@[i as int]));
            }
            if live.contains(id) {
                if let Some(item) = self.textures.get(id) {
                    kept.insert(id, item.copy());
                }
            }
            proof {
                assert forall|k: u64| #[trigger] kept@.contains_key(k) <==> live@.contains(k)
                    && exists|j: int| 0 <= j < i + 1 && ids@[j] == k by {
                    if before.contains_key(k) {
                        let j = choose|j: int| 0 <= j < i && ids@[j] == k;
                        assert(0 <= j < i + 1 && ids@[j] == k);
                    }
                    if k == id {
                        assert(ids@[i as int] == k);
                    }
                    if live@.contains(k) && exists|j: int| 0 <= j < i + 1 && ids@[j] == k {
                        let j = choose|j: int| 0 <= j < i + 1 && ids@[j] == k;
                        if j < i {
                            assert(before.contains_key(k));
                        }
                    }
                }
            }
            i = i + 1;
        }
        proof {
            assert(kept@ =~= whole.restrict(live@)) by {
                assert forall|k: u64| #[trigger] kept@.contains_key(k) <==> whole.restrict(
                    live@,
                ).contains_key(k) by {
                    if whole.contains_key(k) {
                        assert(ids@.contains(k));
                    }
                }
            }
        }
        kept
    }

    /// Copies of the environment maps.
    fn copy_environment_maps(&self) -> (kept: IdMap<EnvironmentMap>)
        ensures
            kept@ == self@.environment_maps,
    {
        let ghost whole = self@.environment_maps;
        let ids = self.environment_maps.keys();
        let mut kept: IdMap<EnvironmentMap> = IdMap::new();
        let mut i: usize = 0;
        while i < ids.len()
            invariant
                i <= ids.len(),
                whole == self@.environment_maps,
                forall|id: u64| #[trigger] ids@.contains(id) <==> whole.contains_key(id),
                forall|k: u64| #[trigger]
                    kept@.contains_key(k) ==> whole.contains_key(k) && kept@[k] == whole[k],
                forall|j: int| 0 <= j < i ==> kept@.contains_key(#[trigger] ids@[j]),
            decreases ids.len() - i,
        {
            let id: u64 = ids[i];
            proof {
                assert(ids@.contains(ids@[i as int]));
            }
            if let Some(item) = self.environment_maps.get(id) {
                kept.insert(id, item.copy());
            }
            i = i + 1;
        }
        proof {
            assert(kept@ =~= whole) by {
                assert forall|k: u64| #[trigger] kept@.contains_key(k) <==> whole.contains_key(
                    k,
                ) by {
                    if whole.contains_key(k) {
                        assert(ids@.contains(k));
                        let j = choose|j: int| 0 <= j < ids.len() && ids@[j] == k;
                        assert(kept@.contains_key(ids@[j]));
                    }
                }
            }
        }
        kept
    }

    /// Rebuilds handle ownership from the tree structure.
    ///
    /// For scene data whose handles do not reflect ownership, such as unbound ones:
    /// every stored handle is replaced with a canonical one on a fresh core, and
    /// resources nothing owns are dropped. Existing handles outside this data are
    /// disconnected.
    pub fn rebind(&mut self)
        requires
            old(self)@.wf(),
            old(self)@.ledger.clock + old(self)@.handle_total() <= u64::MAX,
        ensures
            final(self)@.rebound(old(self)@),
            final(self)@.wf(),
    {
        let ghost m = self@;
        let (built, kept) = self.rebuild();
        let mut out = built;
        let ghost b = out@;
        out.meshes = self.take_meshes(&kept.meshes);
        out.textures = self.take_textures(&kept.textures);
        std::mem::swap(&mut self.environment_maps, &mut out.environment_maps);
        proof {
            assert(m.meshes.restrict(kept.meshes@) =~= m.meshes.restrict(m.live_meshes()));
            assert(m.textures.restrict(kept.textures@) =~= m.textures.restrict(m.live_textures()));
            assert(out@ =~= (SceneModel {
                meshes: out@.meshes,
                textures: out@.textures,
                environment_maps: m.environment_maps,
                ..b
            }));
            lemma_outer_parts(b, out@, m);
        }
        *self = out;
    }

    /// Copies the scene contents into an independent scene.
    ///
    /// Handle ownership is rebuilt from the tree as by [`rebind`](SceneData::rebind),
    /// so the copy shares no counts with this scene; resources kept alive here only
    /// by handles outside the scene are not carried over.
    pub fn clone(&self) -> (copy: SceneData)
        requires
            self@.wf(),
            self@.ledger.clock + self@.handle_total() <= u64::MAX,
        ensures
            copy@.rebound(self@),
            copy@.wf(),
    {
        let ghost m = self@;
        let (built, kept) = self.rebuild();
        let mut out = built;
        let ghost b = out@;
        out.meshes = self.copy_meshes(&kept.meshes);
        out.textures = self.copy_textures(&kept.textures);
        out.environment_maps = self.copy_environment_maps();
        proof {
            assert(m.meshes.restrict(kept.meshes@) =~= m.meshes.restrict(m.live_meshes()));
            assert(m.textures.restrict(kept.textures@) =~= m.textures.restrict(m.live_textures()));
            assert(out@ =~= (SceneModel {
                meshes: out@.meshes,
                textures: out@.textures,
                environment_maps: m.environment_maps,
                ..b
            }));
            lemma_outer_parts(b, out@, m);
        }
        out
    }
}

/// The collections that own no handles do not matter to the ownership.
proof fn lemma_outer_parts(b: SceneModel, after: SceneModel, m: SceneModel)
    requires
        m.wf(),
        b.wf(),
        b.rebuilt(),
        b.holds_live_of(m),
        after == (SceneModel {
            meshes: m.meshes.restrict(m.live_meshes()),
            textures: m.textures.restrict(m.live_textures()),
            environment_maps: m.environment_maps,
            ..b
        }),
    ensures
        after.rebuilt(),
        after.holds_live_of(m),
        after.wf(),
{
    assert(after.meshes.dom() =~= m.live_meshes());
    assert(after.textures.dom() =~= m.live_textures());
    assert forall|c: u64| #[trigger] after.ledger.strong(c) == after.refs(c) by {
        assert(b.ledger.strong(c) == b.refs(c));
    }
    assert forall|c: u64| #[trigger] after.ledger.cores.contains_key(c) implies after.refers_to(
        after.ledger.cores[c].kind,
        after.ledger.cores[c].id,
    ) by {
        assert(b.refers_to(b.ledger.cores[c].kind, b.ledger.cores[c].id));
        super::rebuild::lemma_refers_same(
            b,
            after,
            b.ledger.cores[c].kind,
            b.ledger.cores[c].id,
        );
    }
}

/// Takes `n` off a budget, if it is enough.
fn spend(budget: u64, n: usize) -> (left: Option<u64>)
    ensures
        match left {
            Some(rest) => rest == budget - n,
            None => n > budget,
        },
{
    if (n as u64) > budget {
        None
    } else {
        Some(budget - n as u64)
    }
}

/// Takes one off a budget for a handle that is there, if it is enough.
fn spend_opt(budget: u64, handle: &Option<Handle>) -> (left: Option<u64>)
    ensures
        match left {
            Some(rest) => rest == budget - opt_seq(*handle).len(),
            None => opt_seq(*handle).len() > budget,
        },
{
    match handle {
        Some(_) => spend(budget, 1),
        None => Some(budget),
    }
}

/// Takes the handles of one item off a budget, if it is enough.
fn spend_node(budget: u64, item: &Node) -> (left: Option<u64>)
    ensures
        match left {
            Some(rest) => rest == budget - item@.handles().len(),
            None => item@.handles().len() > budget,
        },
{
    match spend(budget, item.children.len()) {
        None => None,
        Some(left) => {
            match &item.payload {
                NodePayload::Instance(_) => spend(left, 1),
                _ => Some(left),
            }
        },
    }
}

/// Takes the handles of one item off a budget, if it is enough.
fn spend_instance(budget: u64, item: &InstanceParts) -> (left: Option<u64>)
    ensures
        match left {
            Some(rest) => rest == budget - item.handles().len(),
            None => item.handles().len() > budget,
        },
{
    match spend(budget, 1) {
        None => None,
        Some(left) => {
            match spend_opt(left, &item.face_material) {
                None => None,
                Some(left1) => {
                    match spend_opt(left1, &item.line_material) {
                        None => None,
                        Some(left2) => {
                            match spend_opt(left2, &item.point_material) {
                                None => None,
                                Some(left3) => {
                                    Some(left3)
                                },
                            }
                        },
                    }
                },
            }
        },
    }
}

/// Takes the handles of one item off a budget, if it is enough.
fn spend_face(budget: u64, item: &FaceMaterialParts) -> (left: Option<u64>)
    ensures
        match left {
            Some(rest) => rest == budget - item.handles().len(),
            None => item.handles().len() > budget,
        },
{
    match spend_opt(budget, &item.base_color_texture) {
        None => None,
        Some(left) => {
            match spend_opt(left, &item.normal_texture) {
                None => None,
                Some(left1) => {
                    match spend_opt(left1, &item.metallic_roughness_texture) {
                        None => None,
                        Some(left2) => {
                            Some(left2)
                        },
                    }
                },
            }
        },
    }
}

/// Takes the handles of one item off a budget, if it is enough.
fn spend_line(budget: u64, item: &LineMaterialParts) -> (left: Option<u64>)
    ensures
        match left {
            Some(rest) => rest == budget - item.handles().len(),
            None => item.handles().len() > budget,
        },
{
    spend_opt(budget, &item.base_color_texture)
}

/// Takes the handles of one item off a budget, if it is enough.
fn spend_point(budget: u64, item: &PointMaterialParts) -> (left: Option<u64>)
    ensures
        match left {
            Some(rest) => rest == budget - item.handles().len(),
            None => item.handles().len() > budget,
        },
{
    spend_opt(budget, &item.base_color_texture)
}

impl SceneData {
    /// Takes the handles that the nodes store off a budget, if it is enough.
    fn spend_nodes(&self, budget: u64) -> (left: Option<u64>)
        ensures
            match left {
                Some(rest) => rest == budget - total(self@.nodes, node_len()),
                None => total(self@.nodes, node_len()) > budget,
            },
    {
        let ghost whole = self@.nodes;
        let ghost mut seen = Map::<u64, NodeModel>::empty();
        let ids = self.nodes.keys();
        let mut left: u64 = budget;
        let mut i: usize = 0;
        proof {
            self.nodes.finite();
            lemma_total_empty(node_len());
        }
        while i < ids.len()
            invariant
                i <= ids.len(),
                whole == self@.nodes,
                whole.dom().finite(),
                seen.dom().finite(),
                ids@.no_duplicates(),
                forall|id: u64| #[trigger] ids@.contains(id) <==> whole.contains_key(id),
                forall|k: u64| #[trigger]
                    seen.contains_key(k) ==> whole.contains_key(k) && seen[k] == whole[k],
                forall|k: u64| #[trigger]
                    seen.contains_key(k) <==> exists|j: int| 0 <= j < i && ids@[j] == k,
                left == budget - total(seen, node_len()),
            decreases ids.len() - i,
        {
            let id: u64 = ids[i];
            let ghost before = seen;
            proof {
                assert(ids@.contains(ids@[i as int]));
                assert(!before.contains_key(id)) by {
                    if before.contains_key(id) {
                        let j = choose|j: int| 0 <= j < i && ids@[j] == id;
                        assert(ids@[j] != ids@[i as int]);
                    }
                }
                lemma_total_insert(before, node_len(), id, whole[id]);
                seen = before.insert(id, whole[id]);
                lemma_total_part(seen, whole, node_len());
                assert forall|k: u64| #[trigger] seen.contains_key(k) <==> exists|j: int|
                    0 <= j < i + 1 && ids@[j] == k by {
                    if before.contains_key(k) {
                        let j = choose|j: int| 0 <= j < i && ids@[j] == k;
                        assert(0 <= j < i + 1 && ids@[j] == k);
                    }
                    if k == id {
                        assert(ids@[i as int] == k);
                    }
                    if exists|j: int| 0 <= j < i + 1 && ids@[j] == k {
                        let j = choose|j: int| 0 <= j < i + 1 && ids@[j] == k;
                        if j < i {
                            assert(before.contains_key(k));
                        }
                    }
                }
            }
            if let Some(item) = self.nodes.get(id) {
                match spend_node(left, item) {
                    None => {
                        return None;
                    },
                    Some(rest) => {
                        left = rest;
                    },
                }
            }
            i = i + 1;
        }
        proof {
            assert(seen =~= whole) by {
                assert forall|k: u64| #[trigger] seen.contains_key(k) <==> whole.contains_key(k) by {
                    if whole.contains_key(k) {
                        assert(ids@.contains(k));
                    }
                }
            }
        }
        Some(left)
    }

    /// Takes the handles that the instances store off a budget, if it is enough.
    fn spend_instances(&self, budget: u64) -> (left: Option<u64>)
        ensures
            match left {
                Some(rest) => rest == budget - total(self@.instances, instance_len()),
                None => total(self@.instances, instance_len()) > budget,
            },
    {
        let ghost whole = self@.instances;
        let ghost mut seen = Map::<u64, InstanceParts>::empty();
        let ids = self.instances.keys();
        let mut left: u64 = budget;
        let mut i: usize = 0;
        proof {
            self.instances.finite();
            lemma_total_empty(instance_len());
        }
        while i < ids.len()
            invariant
                i <= ids.len(),
                whole == self@.instances,
                whole.dom().finite(),
                seen.dom().finite(),
                ids@.no_duplicates(),
                forall|id: u64| #[trigger] ids@.contains(id) <==> whole.contains_key(id),
                forall|k: u64| #[trigger]
                    seen.contains_key(k) ==> whole.contains_key(k) && seen[k] == whole[k],
                forall|k: u64| #[trigger]
                    seen.contains_key(k) <==> exists|j: int| 0 <= j < i && ids@[j] == k,
                left == budget - total(seen, instance_len()),
            decreases ids.len() - i,
        {
            let id: u64 = ids[i];
            let ghost before = seen;
            proof {
                assert(ids@.contains(ids@[i as int]));
                assert(!before.contains_key(id)) by {
                    if before.contains_key(id) {
                        let j = choose|j: int| 0 <= j < i && ids@[j] == id;
                        assert(ids@[j] != ids@[i as int]);
                    }
                }
                lemma_total_insert(before, instance_len(), id, whole[id]);
                seen = before.insert(id, whole[id]);
                lemma_total_part(seen, whole, instance_len());
                assert forall|k: u64| #[trigger] seen.contains_key(k) <==> exists|j: int|
                    0 <= j < i + 1 && ids@[j] == k by {
                    if before.contains_key(k) {
                        let j = choose|j: int| 0 <= j < i && ids@[j] == k;
                        assert(0 <= j < i + 1 && ids@[j] == k);
                    }
                    if k == id {
                        assert(ids@[i as int] == k);
                    }
                    if exists|j: int| 0 <= j < i + 1 && ids@[j] == k {
                        let j = choose|j: int| 0 <= j < i + 1 && ids@[j] == k;
                        if j < i {
                            assert(before.contains_key(k));
                        }
                    }
                }
            }
            if let Some(item) = self.instances.get(id) {
                match spend_instance(left, item.parts()) {
                    None => {
                        return None;
                    },
                    Some(rest) => {
                        left = rest;
                    },
                }
            }
            i = i + 1;
        }
        proof {
            assert(seen =~= whole) by {
                assert forall|k: u64| #[trigger] seen.contains_key(k) <==> whole.contains_key(k) by {
                    if whole.contains_key(k) {
                        assert(ids@.contains(k));
                    }
                }
            }
        }
        Some(left)
    }

    /// Takes the handles that the face materials store off a budget, if it is enough.
    fn spend_face_materials(&self, budget: u64) -> (left: Option<u64>)
        ensures
            match left {
                Some(rest) => rest == budget - total(self@.face_materials, face_len()),
                None => total(self@.face_materials, face_len()) > budget,
            },
    {
        let ghost whole = self@.face_materials;
        let ghost mut seen = Map::<u64, FaceMaterialParts>::empty();
        let ids = self.face_materials.keys();
        let mut left: u64 = budget;
        let mut i: usize = 0;
        proof {
            self.face_materials.finite();
            lemma_total_empty(face_len());
        }
        while i < ids.len()
            invariant
                i <= ids.len(),
                whole == self@.face_materials,
                whole.dom().finite(),
                seen.dom().finite(),
                ids@.no_duplicates(),
                forall|id: u64| #[trigger] ids@.contains(id) <==> whole.contains_key(id),
                forall|k: u64| #[trigger]
                    seen.contains_key(k) ==> whole.contains_key(k) && seen[k] == whole[k],
                forall|k: u64| #[trigger]
                    seen.contains_key(k) <==> exists|j: int| 0 <= j < i && ids@[j] == k,
                left == budget - total(seen, face_len()),
            decreases ids.len() - i,
        {
            let id: u64 = ids[i];
            let ghost before = seen;
            proof {
                assert(ids@.contains(ids@[i as int]));
                assert(!before.contains_key(id)) by {
                    if before.contains_key(id) {
                        let j = choose|j: int| 0 <= j < i && ids@[j] == id;
                        assert(ids@[j] != ids@[i as int]);
                    }
                }
                lemma_total_insert(before, face_len(), id, whole[id]);
                seen = before.insert(id, whole[id]);
                lemma_total_part(seen, whole, face_len());
                assert forall|k: u64| #[trigger] seen.contains_key(k) <==> exists|j: int|
                    0 <= j < i + 1 && ids@[j] == k by {
                    if before.contains_key(k) {
                        let j = choose|j: int| 0 <= j < i && ids@[j] == k;
                        assert(0 <= j < i + 1 && ids@[j] == k);
                    }
                    if k == id {
                        assert(ids@[i as int] == k);
                    }
                    if exists|j: int| 0 <= j < i + 1 && ids@[j] == k {
                        let j = choose|j: int| 0 <= j < i + 1 && ids@[j] == k;
                        if j < i {
                            assert(before.contains_key(k));
                        }
                    }
                }
            }
            if let Some(item) = self.face_materials.get(id) {
                match spend_face(left, item.parts()) {
                    None => {
                        return None;
                    },
                    Some(rest) => {
                        left = rest;
                    },
                }
            }
            i = i + 1;
        }
        proof {
            assert(seen =~= whole) by {
                assert forall|k: u64| #[trigger] seen.contains_key(k) <==> whole.contains_key(k) by {
                    if whole.contains_key(k) {
                        assert(ids@.contains(k));
                    }
                }
            }
        }
        Some(left)
    }

    /// Takes the handles that the line materials store off a budget, if it is enough.
    fn spend_line_materials(&self, budget: u64) -> (left: Option<u64>)
        ensures
            match left {
                Some(rest) => rest == budget - total(self@.line_materials, line_len()),
                None => total(self@.line_materials, line_len()) > budget,
            },
    {
        let ghost whole = self@.line_materials;
        let ghost mut seen = Map::<u64, LineMaterialParts>::empty();
        let ids = self.line_materials.keys();
        let mut left: u64 = budget;
        let mut i: usize = 0;
        proof {
            self.line_materials.finite();
            lemma_total_empty(line_len());
        }
        while i < ids.len()
            invariant
                i <= ids.len(),
                whole == self@.line_materials,
                whole.dom().finite(),
                seen.dom().finite(),
                ids@.no_duplicates(),
                forall|id: u64| #[trigger] ids@.contains(id) <==> whole.contains_key(id),
                forall|k: u64| #[trigger]
                    seen.contains_key(k) ==> whole.contains_key(k) && seen[k] == whole[k],
                forall|k: u64| #[trigger]
                    seen.contains_key(k) <==> exists|j: int| 0 <= j < i && ids@[j] == k,
                left == budget - total(seen, line_len()),
            decreases ids.len() - i,
        {
            let id: u64 = ids[i];
            let ghost before = seen;
            proof {
                assert(ids@.contains(ids@[i as int]));
                assert(!before.contains_key(id)) by {
                    if before.contains_key(id) {
                        let j = choose|j: int| 0 <= j < i && ids@[j] == id;
                        assert(ids@[j] != ids@[i as int]);
                    }
                }
                lemma_total_insert(before, line_len(), id, whole[id]);
                seen = before.insert(id, whole[id]);
                lemma_total_part(seen, whole, line_len());
                assert forall|k: u64| #[trigger] seen.contains_key(k) <==> exists|j: int|
                    0 <= j < i + 1 && ids@[j] == k by {
                    if before.contains_key(k) {
                        let j = choose|j: int| 0 <= j < i && ids@[j] == k;
                        assert(0 <= j < i + 1 && ids@[j] == k);
                    }
                    if k == id {
                        assert(ids@[i as int] == k);
                    }
                    if exists|j: int| 0 <= j < i + 1 && ids@[j] == k {
                        let j = choose|j: int| 0 <= j < i + 1 && ids@[j] == k;
                        if j < i {
                            assert(before.contains_key(k));
                        }
                    }
                }
            }
            if let Some(item) = self.line_materials.get(id) {
                match spend_line(left, item.parts()) {
                    None => {
                        return None;
                    },
                    Some(rest) => {
                        left = rest;
                    },
                }
            }
            i = i + 1;
        }
        proof {
            assert(seen =~= whole) by {
                assert forall|k: u64| #[trigger] seen.contains_key(k) <==> whole.contains_key(k) by {
                    if whole.contains_key(k) {
                        assert(ids@.contains(k));
                    }
                }
            }
        }
        Some(left)
    }

    /// Takes the handles that the point materials store off a budget, if it is enough.
    fn spend_point_materials(&self, budget: u64) -> (left: Option<u64>)
        ensures
            match left {
                Some(rest) => rest == budget - total(self@.point_materials, point_len()),
                None => total(self@.point_materials, point_len()) > budget,
            },
    {
        let ghost whole = self@.point_materials;
        let ghost mut seen = Map::<u64, PointMaterialParts>::empty();
        let ids = self.point_materials.keys();
        let mut left: u64 = budget;
        let mut i: usize = 0;
        proof {
            self.point_materials.finite();
            lemma_total_empty(point_len());
        }
        while i < ids.len()
            invariant
                i <= ids.len(),
                whole == self@.point_materials,
                whole.dom().finite(),
                seen.dom().finite(),
                ids@.no_duplicates(),
                forall|id: u64| #[trigger] ids@.contains(id) <==> whole.contains_key(id),
                forall|k: u64| #[trigger]
                    seen.contains_key(k) ==> whole.contains_key(k) && seen[k] == whole[k],
                forall|k: u64| #[trigger]
                    seen.contains_key(k) <==> exists|j: int| 0 <= j < i && ids@[j] == k,
                left == budget - total(seen, point_len()),
            decreases ids.len() - i,
        {
            let id: u64 = ids[i];
            let ghost before = seen;
            proof {
                assert(ids@.contains(ids@[i as int]));
                assert(!before.contains_key(id)) by {
                    if before.contains_key(id) {
                        let j = choose|j: int| 0 <= j < i && ids@[j] == id;
                        assert(ids@[j] != ids@[i as int]);
                    }
                }
                lemma_total_insert(before, point_len(), id, whole[id]);
                seen = before.insert(id, whole[id]);
                lemma_total_part(seen, whole, point_len());
                assert forall|k: u64| #[trigger] seen.contains_key(k) <==> exists|j: int|
                    0 <= j < i + 1 && ids@[j] == k by {
                    if before.contains_key(k) {
                        let j = choose|j: int| 0 <= j < i && ids@[j] == k;
                        assert(0 <= j < i + 1 && ids@[j] == k);
                    }
                    if k == id {
                        assert(ids@[i as int] == k);
                    }
                    if exists|j: int| 0 <= j < i + 1 && ids@[j] == k {
                        let j = choose|j: int| 0 <= j < i + 1 && ids@[j] == k;
                        if j < i {
                            assert(before.contains_key(k));
                        }
                    }
                }
            }
            if let Some(item) = self.point_materials.get(id) {
                match spend_point(left, item.parts()) {
                    None => {
                        return None;
                    },
                    Some(rest) => {
                        left = rest;
                    },
                }
            }
            i = i + 1;
        }
        proof {
            assert(seen =~= whole) by {
                assert forall|k: u64| #[trigger] seen.contains_key(k) <==> whole.contains_key(k) by {
                    if whole.contains_key(k) {
                        assert(ids@.contains(k));
                    }
                }
            }
        }
        Some(left)
    }

    /// Whether the counters suffice for [`rebind`](SceneData::rebind) and
    /// [`clone`](SceneData::clone), which count every stored handle anew.
    pub fn can_rebind(&self) -> (yes: bool)
        ensures
            yes == (self@.ledger.clock + self@.handle_total() <= u64::MAX),
    {
        let left = spend(self.ledger.room(), self.root_nodes.len());
        match left {
            None => false,
            Some(a) => match self.spend_nodes(a) {
                None => false,
                Some(b) => match self.spend_instances(b) {
                    None => false,
                    Some(c) => match self.spend_face_materials(c) {
                        None => false,
                        Some(d) => match self.spend_line_materials(d) {
                            None => false,
                            Some(e) => self.spend_point_materials(e).is_some(),
                        },
                    },
                },
            },
        }
    }
}

} // verus!
