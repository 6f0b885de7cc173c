//! Emptying a scene.

use super::model::{lemma_release_all, SceneModel};
use super::ownership::{
    face_refs, instance_refs, lemma_release_all_cores, lemma_release_all_strong, lemma_total_empty,
    lemma_total_remove, line_refs, node_refs, point_refs,
};
use super::{
    lemma_release_opt, release_face_material, release_instance, release_node, SceneData,
};
use crate::resource::handle::{count_core, Handle, HandleCore, LedgerModel};
use vstd::prelude::*;

verus! {

impl SceneModel {
    /// The cores that handles outside the scene keep live, with their counts, once
    /// every handle stored in the scene is given up.
    pub open spec fn outside_cores(self) -> Map<u64, HandleCore> {
        Map::new(
            |c: u64|
                self.ledger.cores.contains_key(c) && self.ledger.cores[c].strong > self.refs(c),
            |c: u64|
                HandleCore {
                    strong: (self.ledger.cores[c].strong - self.refs(c)) as u64,
                    ..self.ledger.cores[c]
                },
        )
    }

    /// After emptying the scene. Handles outside it are left, inert.
    pub open spec fn clear(self) -> SceneModel {
        SceneModel {
            node_generation: (self.node_generation + 1) as u64,
            ledger: LedgerModel {
                cores: self.outside_cores(),
                clock: self.ledger.clock,
                ..LedgerModel::empty()
            },
            ..SceneModel::empty()
        }
    }
}

/// Whether `now` is `m` with some of its stored handles given up.
spec fn partly_released(m: SceneModel, now: SceneModel) -> bool {
    &&& now.ledger.wf()
    &&& now.ledger.clock == m.ledger.clock
    &&& forall|c: u64| #[trigger]
        now.ledger.strong(c) == (if m.ledger.strong(c) + now.refs(c) >= m.refs(c) {
            (m.ledger.strong(c) + now.refs(c) - m.refs(c)) as nat
        } else {
            0
        }) && now.refs(c) <= m.refs(c)
    &&& forall|c: u64| #[trigger]
        now.ledger.cores.contains_key(c) ==> m.ledger.cores.contains_key(c)
            && now.ledger.cores[c].id == m.ledger.cores[c].id && now.ledger.cores[c].kind
            == m.ledger.cores[c].kind
}

proof fn lemma_released_more(m: SceneModel, now: SceneModel, next: SceneModel, hs: Seq<Handle>)
    requires
        partly_released(m, now),
        next.ledger == now.ledger.release_all(hs),
        forall|c: u64| #[trigger] next.refs(c) + count_core(hs, c) == now.refs(c),
    ensures
        partly_released(m, next),
{
    lemma_release_all(now.ledger, hs);
    lemma_release_all_cores(now.ledger, hs);
    assert forall|c: u64| #[trigger] next.ledger.strong(c) == (if m.ledger.strong(c) + next.refs(c)
        >= m.refs(c) {
        (m.ledger.strong(c) + next.refs(c) - m.refs(c)) as nat
    } else {
        0
    }) && next.refs(c) <= m.refs(c) by {
        lemma_release_all_strong(now.ledger, hs, c);
        assert(next.refs(c) + count_core(hs, c) == now.refs(c));
        assert(now.ledger.strong(c) == (if m.ledger.strong(c) + now.refs(c) >= m.refs(c) {
            (m.ledger.strong(c) + now.refs(c) - m.refs(c)) as nat
        } else {
            0
        }));
    }
}

impl SceneData {
    /// Takes every node out of the scene, giving up what it owned.
    fn drain_nodes(&mut self, Ghost(m): Ghost<SceneModel>)
        requires
            partly_released(m, old(self)@),
            old(self)@.nodes.dom().finite(),
        ensures
            partly_released(m, final(self)@),
            final(self)@ == (SceneModel {
                nodes: Map::empty(),
                ledger: final(self)@.ledger,
                ..old(self)@
            }),
    {
        let ids = self.nodes.keys();
        let mut i: usize = 0;
        while i < ids.len()
            invariant
                i <= ids.len(),
                ids@.no_duplicates(),
                partly_released(m, self@),
                self@.nodes.dom().finite(),
                self@ == (SceneModel { nodes: self@.nodes, ledger: self@.ledger, ..old(self)@ }),
                forall|k: u64| #[trigger]
                    self@.nodes.contains_key(k) ==> exists|j: int| i <= j < ids.len() && ids@[j] == k,
            decreases ids.len() - i,
        {
            let id: u64 = ids[i];
            let ghost before = self@;
            if let Some(item) = self.nodes.remove(id) {
                let ghost hs = item@.handles();
                release_node(&mut self.ledger, item);
                proof {
                    assert forall|c: u64| #[trigger] self@.refs(c) + count_core(hs, c)
                        == before.refs(c) by {
                        lemma_total_remove(before.nodes, node_refs(c), id);
                    }
                    lemma_released_more(m, before, self@, hs);
                }
            } else {
                proof {
                    assert(self@.nodes =~= before.nodes);
                }
            }
            proof {
                assert forall|k: u64| #[trigger] self@.nodes.contains_key(k) implies exists|j: int|
                    i + 1 <= j < ids.len() && ids@[j] == k by {
                    assert(before.nodes.contains_key(k));
                    let j = choose|j: int| i <= j < ids.len() && ids@[j] == k;
                    assert(j != i);
                }
            }
            i = i + 1;
        }
        proof {
            assert(self@.nodes =~= Map::empty());
        }
    }

    /// Takes every instance out of the scene, giving up what it owned.
    fn drain_instances(&mut self, Ghost(m): Ghost<SceneModel>)
        requires
            partly_released(m, old(self)@),
            old(self)@.instances.dom().finite(),
        ensures
            partly_released(m, final(self)@),
            final(self)@ == (SceneModel {
                instances: Map::empty(),
                ledger: final(self)@.ledger,
                ..old(self)@
            }),
    {
        let ids = self.instances.keys();
        let mut i: usize = 0;
        while i < ids.len()
            invariant
                i <= ids.len(),
                ids@.no_duplicates(),
                partly_released(m, self@),
                self@.instances.dom().finite(),
                self@ == (SceneModel { instances: self@.instances, ledger: self@.ledger, ..old(self)@ }),
                forall|k: u64| #[trigger]
                    self@.instances.contains_key(k) ==> exists|j: int| i <= j < ids.len() && ids@[j] == k,
            decreases ids.len() - i,
        {
            let id: u64 = ids[i];
            let ghost before = self@;
            if let Some(item) = self.instances.remove(id) {
                let ghost hs = item@.handles();
                release_instance(&mut self.ledger, item.into_parts());
                proof {
                    assert forall|c: u64| #[trigger] self@.refs(c) + count_core(hs, c)
                        == before.refs(c) by {
                        lemma_total_remove(before.instances, instance_refs(c), id);
                    }
                    lemma_released_more(m, before, self@, hs);
                }
            } else {
                proof {
                    assert(self@.instances =~= before.instances);
                }
            }
            proof {
                assert forall|k: u64| #[trigger] self@.instances.contains_key(k) implies exists|j: int|
                    i + 1 <= j < ids.len() && ids@[j] == k by {
                    assert(before.instances.contains_key(k));
                    let j = choose|j: int| i <= j < ids.len() && ids@[j] == k;
                    assert(j != i);
                }
            }
            i = i + 1;
        }
        proof {
            assert(self@.instances =~= Map::empty());
        }
    }

    /// Takes every face material out of the scene, giving up what it owned.
    fn drain_face_materials(&mut self, Ghost(m): Ghost<SceneModel>)
        requires
            partly_released(m, old(self)@),
            old(self)@.face_materials.dom().finite(),
        ensures
            partly_released(m, final(self)@),
            final(self)@ == (SceneModel {
                face_materials: Map::empty(),
                ledger: final(self)@.ledger,
                ..old(self)@
            }),
    {
        let ids = self.face_materials.keys();
        let mut i: usize = 0;
        while i < ids.len()
            invariant
                i <= ids.len(),
                ids@.no_duplicates(),
                partly_released(m, self@),
                self@.face_materials.dom().finite(),
                self@ == (SceneModel { face_materials: self@.face_materials, ledger: self@.ledger, ..old(self)@ }),
                forall|k: u64| #[trigger]
                    self@.face_materials.contains_key(k) ==> exists|j: int| i <= j < ids.len() && ids@[j] == k,
            decreases ids.len() - i,
        {
            let id: u64 = ids[i];
            let ghost before = self@;
            if let Some(item) = self.face_materials.remove(id) {
                let ghost hs = item@.handles();
                release_face_material(&mut self.ledger, item.into_parts());
                proof {
                    assert forall|c: u64| #[trigger] self@.refs(c) + count_core(hs, c)
                        == before.refs(c) by {
                        lemma_total_remove(before.face_materials, face_refs(c), id);
                    }
                    lemma_released_more(m, before, self@, hs);
                }
            } else {
                proof {
                    assert(self@.face_materials =~= before.face_materials);
                }
            }
            proof {
                assert forall|k: u64| #[trigger] self@.face_materials.contains_key(k) implies exists|j: int|
                    i + 1 <= j < ids.len() && ids@[j] == k by {
                    assert(before.face_materials.contains_key(k));
                    let j = choose|j: int| i <= j < ids.len() && ids@[j] == k;
                    assert(j != i);
                }
            }
            i = i + 1;
        }
        proof {
            assert(self@.face_materials =~= Map::empty());
        }
    }

    /// Takes every line material out of the scene, giving up what it owned.
    fn drain_line_materials(&mut self, Ghost(m): Ghost<SceneModel>)
        requires
            partly_released(m, old(self)@),
            old(self)@.line_materials.dom().finite(),
        ensures
            partly_released(m, final(self)@),
            final(self)@ == (SceneModel {
                line_materials: Map::empty(),
                ledger: final(self)@.ledger,
                ..old(self)@
            }),
    {
        let ids = self.line_materials.keys();
        let mut i: usize = 0;
        while i < ids.len()
            invariant
                i <= ids.len(),
                ids@.no_duplicates(),
                partly_released(m, self@),
                self@.line_materials.dom().finite(),
                self@ == (SceneModel { line_materials: self@.line_materials, ledger: self@.ledger, ..old(self)@ }),
                forall|k: u64| #[trigger]
                    self@.line_materials.contains_key(k) ==> exists|j: int| i <= j < ids.len() && ids@[j] == k,
            decreases ids.len() - i,
        {
            let id: u64 = ids[i];
            let ghost before = self@;
            if let Some(item) = self.line_materials.remove(id) {
                let parts = item.into_parts();
                let ghost hs = parts.handles();
                proof {
                    lemma_release_opt(before.ledger, parts.base_color_texture);
                }
                self.ledger.release_opt(parts.base_color_texture);
                proof {
                    assert forall|c: u64| #[trigger] self@.refs(c) + count_core(hs, c)
                        == before.refs(c) by {
                        lemma_total_remove(before.line_materials, line_refs(c), id);
                    }
                    lemma_released_more(m, before, self@, hs);
                }
            } else {
                proof {
                    assert(self@.line_materials =~= before.line_materials);
                }
            }
            proof {
                assert forall|k: u64| #[trigger] self@.line_materials.contains_key(k) implies exists|j: int|
                    i + 1 <= j < ids.len() && ids@[j] == k by {
                    assert(before.line_materials.contains_key(k));
                    let j = choose|j: int| i <= j < ids.len() && ids@[j] == k;
                    assert(j != i);
                }
            }
            i = i + 1;
        }
        proof {
            assert(self@.line_materials =~= Map::empty());
        }
    }

    /// Takes every point material out of the scene, giving up what it owned.
    fn drain_point_materials(&mut self, Ghost(m): Ghost<SceneModel>)
        requires
            partly_released(m, old(self)@),
            old(self)@.point_materials.dom().finite(),
        ensures
            partly_released(m, final(self)@),
            final(self)@ == (SceneModel {
                point_materials: Map::empty(),
                ledger: final(self)@.ledger,
                ..old(self)@
            }),
    {
        let ids = self.point_materials.keys();
        let mut i: usize = 0;
        while i < ids.len()
            invariant
                i <= ids.len(),
                ids@.no_duplicates(),
                partly_released(m, self@),
                self@.point_materials.dom().finite(),
                self@ == (SceneModel { point_materials: self@.point_materials, ledger: self@.ledger, ..old(self)@ }),
                forall|k: u64| #[trigger]
                    self@.point_materials.contains_key(k) ==> exists|j: int| i <= j < ids.len() && ids@[j] == k,
            decreases ids.len() - i,
        {
            let id: u64 = ids[i];
            let ghost before = self@;
            if let Some(item) = self.point_materials.remove(id) {
                let parts = item.into_parts();
                let ghost hs = parts.handles();
                proof {
                    lemma_release_opt(before.ledger, parts.base_color_texture);
                }
                self.ledger.release_opt(parts.base_color_texture);
                proof {
                    assert forall|c: u64| #[trigger] self@.refs(c) + count_core(hs, c)
                        == before.refs(c) by {
                        lemma_total_remove(before.point_materials, point_refs(c), id);
                    }
                    lemma_released_more(m, before, self@, hs);
                }
            } else {
                proof {
                    assert(self@.point_materials =~= before.point_materials);
                }
            }
            proof {
                assert forall|k: u64| #[trigger] self@.point_materials.contains_key(k) implies exists|j: int|
                    i + 1 <= j < ids.len() && ids@[j] == k by {
                    assert(before.point_materials.contains_key(k));
                    let j = choose|j: int| i <= j < ids.len() && ids@[j] == k;
                    assert(j != i);
                }
            }
            i = i + 1;
        }
        proof {
            assert(self@.point_materials =~= Map::empty());
        }
    }

    /// Clears the scene, resetting it to an empty state.
    ///
    /// Forceful: resources are removed even while handles for them exist; those
    /// handles become inert.
    pub fn clear(&mut self)
        requires
            old(self)@.wf(),
            old(self)@.node_generation < u64::MAX,
        ensures
            final(self)@ == old(self)@.clear(),
            final(self)@.wf(),
            final(self)@.sound(),
    {
        let ghost m = self@;
        self.drain_nodes(Ghost(m));
        self.drain_instances(Ghost(m));
        self.drain_face_materials(Ghost(m));
        self.drain_line_materials(Ghost(m));
        self.drain_point_materials(Ghost(m));
        let ghost before = self@;
        let mut roots: Vec<Handle> = Vec::new();
        std::mem::swap(&mut roots, &mut self.root_nodes);
        let ghost mid = self@;
        self.ledger.release_all(roots);
        proof {
            assert forall|c: u64| #[trigger] self@.refs(c) + count_core(m.roots, c) == before.refs(
                c,
            ) && self@.refs(c) == 0 by {
                lemma_total_empty(node_refs(c));
                lemma_total_empty(instance_refs(c));
                lemma_total_empty(face_refs(c));
                lemma_total_empty(line_refs(c));
                lemma_total_empty(point_refs(c));
            }
            lemma_released_more(m, before, self@, m.roots);
            let now = self@;
            assert(now.ledger.cores =~= m.outside_cores()) by {
                assert forall|c: u64| #[trigger] now.ledger.cores.contains_key(c)
                    <==> m.outside_cores().contains_key(c) by {
                    assert(now.refs(c) == 0);
                    assert(now.ledger.strong(c) == (if m.ledger.strong(c) + now.refs(c) >= m.refs(
                        c,
                    ) {
                        (m.ledger.strong(c) + now.refs(c) - m.refs(c)) as nat
                    } else {
                        0
                    }));
                }
                assert forall|c: u64| #[trigger] now.ledger.cores.contains_key(
                    c,
                ) implies now.ledger.cores[c] == m.outside_cores()[c] by {
                    assert(now.refs(c) == 0);
                    assert(m.outside_cores().contains_key(c));
                    assert(now.ledger.strong(c) == now.ledger.cores[c].strong);
                }
            }
        }
        self.meshes.clear();
        self.textures.clear();
        self.environment_maps.clear();
        self.active_environment_map = None;
        self.active_camera = None;
        self.node_generation = self.node_generation + 1;
        self.ledger.forget_all();
        self.removals.clear();
        proof {
            assert(self@ =~= m.clear());
            super::soundness::cleared_is_sound(m, self@);
        }
    }
}

} // verus!
