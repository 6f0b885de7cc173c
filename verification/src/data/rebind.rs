//! Completeness, and rebuilding ownership from the tree.
//!
//! A scene can arrive with handles that do not reflect ownership: a copy, or data
//! assembled outside a scene with unbound handles. Rebinding walks the ownership
//! edges from the roots, drops what nothing owns, and replaces every stored handle
//! by a canonical one.

use super::model::{reached, SceneModel};
use super::nodes::{ids_of, lemma_below_present};
use super::tree::{below, below_within};
use super::SceneData;
use crate::id_set::IdSet;
use crate::resource::handle::{GenericId, Handle, NodeHandle, NodeId};
use crate::resource::instance::{opt_id, InstanceParts};
use crate::resource::material::{FaceMaterialParts, LineMaterialParts, PointMaterialParts};
use crate::resource::node::{NodeModel, NodePayload};
use vstd::prelude::*;

verus! {

/// The handle stripped of its core.
pub open spec fn unbind(h: Handle) -> Handle {
    Handle { core: None, id: h.id }
}

/// The handles stripped of their cores.
pub open spec fn unbind_all(handles: Seq<Handle>) -> Seq<Handle> {
    handles.map_values(|h: Handle| unbind(h))
}

/// The handle, if any, stripped of its core.
pub open spec fn unbind_opt(handle: Option<Handle>) -> Option<Handle> {
    match handle {
        Some(h) => Some(unbind(h)),
        None => None,
    }
}

/// The payload with its handle stripped of its core.
pub open spec fn unbind_payload(payload: NodePayload) -> NodePayload {
    match payload {
        NodePayload::Instance(h) => NodePayload::Instance(unbind(h)),
        other => other,
    }
}

impl NodeModel {
    /// The node with its handles stripped of their cores, and with no bounds or
    /// visibility cached.
    pub open spec fn unbound(self) -> NodeModel {
        NodeModel {
            children: unbind_all(self.children),
            payload: unbind_payload(self.payload),
            bounds_cache: None,
            visibility_cache: None,
            ..self
        }
    }
}

impl InstanceParts {
    /// The instance with its handles stripped of their cores.
    pub open spec fn unbound(self) -> InstanceParts {
        InstanceParts {
            mesh: unbind(self.mesh),
            face_material: unbind_opt(self.face_material),
            line_material: unbind_opt(self.line_material),
            point_material: unbind_opt(self.point_material),
            ..self
        }
    }
}

impl FaceMaterialParts {
    /// The material with its handles stripped of their cores.
    pub open spec fn unbound(self) -> FaceMaterialParts {
        FaceMaterialParts {
            base_color_texture: unbind_opt(self.base_color_texture),
            normal_texture: unbind_opt(self.normal_texture),
            metallic_roughness_texture: unbind_opt(self.metallic_roughness_texture),
            ..self
        }
    }
}

impl LineMaterialParts {
    /// The material with its handles stripped of their cores.
    pub open spec fn unbound(self) -> LineMaterialParts {
        LineMaterialParts { base_color_texture: unbind_opt(self.base_color_texture), ..self }
    }
}

impl PointMaterialParts {
    /// The material with its handles stripped of their cores.
    pub open spec fn unbound(self) -> PointMaterialParts {
        PointMaterialParts { base_color_texture: unbind_opt(self.base_color_texture), ..self }
    }
}

impl SceneModel {
    /// Whether an instance and all that it refers to are there.
    pub open spec fn instance_complete(self, id: GenericId) -> bool {
        &&& self.instances.contains_key(id)
        &&& self.meshes.contains_key(self.instances[id].mesh.id)
        &&& opt_id(self.instances[id].face_material) matches Some(x)
            ==> self.face_materials.contains_key(x)
        &&& opt_id(self.instances[id].line_material) matches Some(x)
            ==> self.line_materials.contains_key(x)
        &&& opt_id(self.instances[id].point_material) matches Some(x)
            ==> self.point_materials.contains_key(x)
    }

    /// Whether everything that a node refers to is there.
    pub open spec fn node_complete(self, id: NodeId) -> bool {
        &&& forall|i: int|
            0 <= i < self.nodes[id].children.len() ==> self.nodes.contains_key(
                (#[trigger] self.nodes[id].children[i]).id,
            )
        &&& self.nodes[id].payload.handle() matches Some(h) ==> self.instance_complete(h.id)
    }

    /// Whether there are no dangling references from nodes, and from what they carry.
    pub open spec fn nodes_complete(self) -> bool {
        forall|id: NodeId| #[trigger] self.nodes.contains_key(id) ==> self.node_complete(id)
    }

    /// Whether there are no dangling references, be it from nodes or from instances.
    pub open spec fn complete(self) -> bool {
        &&& self.nodes_complete()
        &&& forall|id: GenericId| #[trigger]
            self.instances.contains_key(id) ==> self.instance_complete(id)
    }

    /// Whether a node is reached from the roots along the lists of children.
    pub open spec fn reachable(self, id: NodeId) -> bool {
        exists|i: int|
            0 <= i < self.roots.len() && below(self.nodes, id, (#[trigger] self.roots[i]).id)
    }

    /// Whether a reachable node carries the instance.
    pub open spec fn live_instance(self, id: GenericId) -> bool {
        exists|k: NodeId| #[trigger]
            self.reachable(k) && opt_id(self.nodes[k].payload.handle()) == Some(id)
    }

    /// Whether a live instance refers to the mesh.
    pub open spec fn live_mesh(self, id: GenericId) -> bool {
        exists|k: GenericId| #[trigger]
            self.live_instance(k) && self.instances.contains_key(k) && self.instances[k].mesh.id
                == id
    }

    /// Whether a live instance refers to the face material.
    pub open spec fn live_face(self, id: GenericId) -> bool {
        exists|k: GenericId| #[trigger]
            self.live_instance(k) && self.instances.contains_key(k) && opt_id(
                self.instances[k].face_material,
            ) == Some(id)
    }

    /// Whether a live instance refers to the line material.
    pub open spec fn live_line(self, id: GenericId) -> bool {
        exists|k: GenericId| #[trigger]
            self.live_instance(k) && self.instances.contains_key(k) && opt_id(
                self.instances[k].line_material,
            ) == Some(id)
    }

    /// Whether a live instance refers to the point material.
    pub open spec fn live_point(self, id: GenericId) -> bool {
        exists|k: GenericId| #[trigger]
            self.live_instance(k) && self.instances.contains_key(k) && opt_id(
                self.instances[k].point_material,
            ) == Some(id)
    }

    /// Whether a live face material refers to the texture.
    pub open spec fn live_face_samples(self, id: GenericId) -> bool {
        exists|k: GenericId| #[trigger]
            self.live_face(k) && self.face_materials.contains_key(k)
                && self.face_materials[k].samples(id)
    }

    /// Whether a live line material refers to the texture.
    pub open spec fn live_line_samples(self, id: GenericId) -> bool {
        exists|k: GenericId| #[trigger]
            self.live_line(k) && self.line_materials.contains_key(k) && opt_id(
                self.line_materials[k].base_color_texture,
            ) == Some(id)
    }

    /// Whether a live point material refers to the texture.
    pub open spec fn live_point_samples(self, id: GenericId) -> bool {
        exists|k: GenericId| #[trigger]
            self.live_point(k) && self.point_materials.contains_key(k) && opt_id(
                self.point_materials[k].base_color_texture,
            ) == Some(id)
    }

    /// Whether a live material refers to the texture.
    pub open spec fn live_texture(self, id: GenericId) -> bool {
        self.live_face_samples(id) || self.live_line_samples(id) || self.live_point_samples(id)
    }
}

impl FaceMaterialParts {
    /// Whether one of the texture slots holds the texture.
    pub open spec fn samples(self, id: GenericId) -> bool {
        ||| opt_id(self.base_color_texture) == Some(id)
        ||| opt_id(self.normal_texture) == Some(id)
        ||| opt_id(self.metallic_roughness_texture) == Some(id)
    }
}

impl SceneData {
    /// Whether an instance and all that it refers to are there.
    fn is_instance_complete(&self, id: GenericId) -> (yes: bool)
        ensures
            yes == self@.instance_complete(id),
    {
        match self.instances.get(id) {
            None => false,
            Some(instance) => {
                if !self.meshes.contains(instance.mesh()) {
                    return false;
                }
                if let Some(x) = instance.face_material() {
                    if !self.face_materials.contains(x) {
                        return false;
                    }
                }
                if let Some(x) = instance.line_material() {
                    if !self.line_materials.contains(x) {
                        return false;
                    }
                }
                if let Some(x) = instance.point_material() {
                    if !self.point_materials.contains(x) {
                        return false;
                    }
                }
                true
            },
        }
    }

    /// Whether everything that a node refers to is there.
    fn is_node_complete(&self, id: NodeId) -> (yes: bool)
        requires
            self@.nodes.contains_key(id),
        ensures
            yes == self@.node_complete(id),
    {
        match self.nodes.get(id) {
            None => true,
            Some(node) => {
                let mut i: usize = 0;
                while i < node.children.len()
                    invariant
                        i <= node.children.len(),
                        node@ == self@.nodes[id],
                        forall|j: int|
                            0 <= j < i ==> self@.nodes.contains_key(
                                (#[trigger] self@.nodes[id].children[j]).id,
                            ),
                    decreases node.children.len() - i,
                {
                    if !self.nodes.contains(node.children[i].id) {
                        assert(!self@.nodes.contains_key(
                            self@.nodes[id].children[i as int].id,
                        ));
                        return false;
                    }
                    i = i + 1;
                }
                if let NodePayload::Instance(h) = &node.payload {
                    return self.is_instance_complete(h.id);
                }
                true
            },
        }
    }

    /// Returns `true` if the scene contains no dangling references.
    ///
    /// Specifically checks that every node listed as a child exists, that every
    /// instance payload refers to an instance that exists, and that every instance's
    /// mesh and materials exist, whether or not a node carries it. A scene under
    /// construction is expected to fail this; use it to assert that a scene has settled.
    pub fn is_complete(&self) -> (yes: bool)
        ensures
            yes == self@.complete(),
    {
        let ids = self.nodes.keys();
        let mut i: usize = 0;
        while i < ids.len()
            invariant
                i <= ids.len(),
                forall|id: u64| #[trigger] ids@.contains(id) <==> self@.nodes.contains_key(id),
                forall|j: int| 0 <= j < i ==> self@.node_complete(#[trigger] ids@[j]),
            decreases ids.len() - i,
        {
            proof {
                assert(ids@.contains(ids@[i as int]));
            }
            if !self.is_node_complete(ids[i]) {
                return false;
            }
            i = i + 1;
        }
        proof {
            assert forall|id: NodeId| #[trigger] self@.nodes.contains_key(
                id,
            ) implies self@.node_complete(id) by {
                assert(ids@.contains(id));
                let j = choose|j: int| 0 <= j < ids.len() && ids@[j] == id;
                assert(self@.node_complete(ids@[j]));
            }
        }
        let drawn = self.instances.keys();
        let mut i: usize = 0;
        while i < drawn.len()
            invariant
                i <= drawn.len(),
                forall|id: u64| #[trigger]
                    drawn@.contains(id) <==> self@.instances.contains_key(id),
                forall|j: int| 0 <= j < i ==> self@.instance_complete(#[trigger] drawn@[j]),
            decreases drawn.len() - i,
        {
            proof {
                assert(drawn@.contains(drawn@[i as int]));
            }
            if !self.is_instance_complete(drawn[i]) {
                return false;
            }
            i = i + 1;
        }
        proof {
            assert forall|id: GenericId| #[trigger] self@.instances.contains_key(
                id,
            ) implies self@.instance_complete(id) by {
                assert(drawn@.contains(id));
                let j = choose|j: int| 0 <= j < drawn.len() && drawn@[j] == id;
                assert(self@.instance_complete(drawn@[j]));
            }
        }
        true
    }

    /// The nodes that are reached from the roots.
    pub(super) fn mark_nodes(&self) -> (live: IdSet)
        requires
            self@.nodes.dom().finite(),
        ensures
            forall|k: NodeId| #[trigger] live@.contains(k) <==> self@.reachable(k),
    {
        let (live, ids) = self.mark_below(&self.root_nodes);
        live
    }

    /// The nodes that are reached from those that `handles` lists, as a set and as a
    /// list.
    pub(super) fn mark_below(&self, handles: &Vec<NodeHandle>) -> (marked: (IdSet, Vec<NodeId>))
        requires
            self@.nodes.dom().finite(),
        ensures
            forall|k: NodeId| #[trigger]
                marked.0@.contains(k) <==> reached(self@.nodes, handles@, k),
            forall|k: NodeId| #[trigger]
                marked.1@.contains(k) <==> reached(self@.nodes, handles@, k),
    {
        let ghost m = SceneModel { roots: handles@, ..self@ };
        let mut live = IdSet::new();
        let mut ids: Vec<NodeId> = Vec::new();
        let mut stack: Vec<NodeId> = ids_of(handles);
        proof {
            assert forall|i: int| 0 <= i < stack.len() implies pending(m, #[trigger] stack@[i]) by {
                assert(m.roots[i].id == stack@[i]);
                if m.nodes.contains_key(stack@[i]) {
                    assert(below_within(m.nodes, stack@[i], m.roots[i].id, 0));
                    assert(below(m.nodes, stack@[i], m.roots[i].id));
                }
            }
            assert forall|i: int| 0 <= i < m.roots.len() implies covered(
                m,
                live@,
                stack@,
                (#[trigger] m.roots[i]).id,
            ) by {
                assert(stack@[i] == m.roots[i].id);
            }
        }
        while stack.len() > 0
            invariant
                m == (SceneModel { roots: handles@, ..self@ }),
                forall|k: NodeId| #[trigger] ids@.contains(k) <==> live@.contains(k),
                m.nodes.dom().finite(),
                live@.finite(),
                forall|k: NodeId| #[trigger]
                    live@.contains(k) ==> m.nodes.contains_key(k) && m.reachable(k),
                forall|i: int| 0 <= i < stack.len() ==> pending(m, #[trigger] stack@[i]),
                forall|i: int|
                    0 <= i < m.roots.len() ==> covered(
                        m,
                        live@,
                        stack@,
                        (#[trigger] m.roots[i]).id,
                    ),
                forall|k: NodeId, i: int|
                    live@.contains(k) && 0 <= i < m.nodes[k].children.len() ==> covered(
                        m,
                        live@,
                        stack@,
                        (#[trigger] m.nodes[k].children[i]).id,
                    ),
            decreases m.nodes.dom().difference(live@).len(), stack.len(),
        {
            let ghost was_live = live@;
            let ghost was_stack = stack@;
            let id: u64 = stack.pop().unwrap();
            proof {
                assert(was_stack[was_stack.len() - 1] == id);
                assert(pending(m, was_stack[was_stack.len() - 1]));
            }
            let mut expanded = false;
            if let Some(node) = self.nodes.get(id) {
                if live.insert(id) {
                    expanded = true;
                    let ghost was_ids = ids@;
                    ids.push(id);
                    proof {
                        assert forall|k: NodeId| #[trigger] ids@.contains(k) <==> live@.contains(
                            k,
                        ) by {
                            if was_ids.contains(k) {
                                let j = choose|j: int| 0 <= j < was_ids.len() && was_ids[j] == k;
                                assert(ids@[j] == k);
                            }
                            assert(ids@[was_ids.len() as int] == id);
                            if live@.contains(k) && k != id {
                                assert(was_live.contains(k));
                                assert(was_ids.contains(k));
                            }
                        }
                    }
                    let mut i: usize = 0;
                    let ghost popped = stack@;
                    while i < node.children.len()
                        invariant
                            i <= node.children.len(),
                            node@ == m.nodes[id],
                            stack@ == popped + m.nodes[id].children.take(i as int).map_values(
                                |h: Handle| h.id,
                            ),
                        decreases node.children.len() - i,
                    {
                        stack.push(node.children[i].id);
                        i = i + 1;
                        assert(stack@ =~= popped + m.nodes[id].children.take(i as int).map_values(
                            |h: Handle| h.id,
                        ));
                    }
                    proof {
                        let kids = m.nodes[id].children;
                        assert(kids.take(i as int) =~= kids);
                        let r = choose|r: int|
                            0 <= r < m.roots.len() && below(
                                m.nodes,
                                id,
                                (#[trigger] m.roots[r]).id,
                            );
                        assert forall|j: int| 0 <= j < stack.len() implies pending(
                            m,
                            #[trigger] stack@[j],
                        ) by {
                            if j < popped.len() {
                                assert(stack@[j] == was_stack[j]);
                            } else {
                                let c = stack@[j];
                                assert(kids[j - popped.len()].id == c);
                                if m.nodes.contains_key(c) {
                                    lemma_below_child(
                                        m.nodes,
                                        m.roots[r].id,
                                        id,
                                        j - popped.len(),
                                    );
                                    assert(below(m.nodes, c, m.roots[r].id));
                                }
                            }
                        }
                        assert forall|x: NodeId| covered(m, was_live, was_stack, x) implies covered(
                            m,
                            live@,
                            stack@,
                            x,
                        ) by {
                            if was_stack.contains(x) && x != id {
                                let j = choose|j: int|
                                    0 <= j < was_stack.len() && was_stack[j] == x;
                                assert(stack@[j] == x);
                            }
                        }
                        assert forall|j: int| 0 <= j < kids.len() implies covered(
                            m,
                            live@,
                            stack@,
                            (#[trigger] kids[j]).id,
                        ) by {
                            assert(stack@[popped.len() + j] == kids[j].id);
                        }
                        assert(m.nodes.dom().difference(live@) =~= m.nodes.dom().difference(
                            was_live,
                        ).remove(id));
                        assert(m.nodes.dom().difference(was_live).contains(id));
                    }
                }
            }
            proof {
                if !expanded {
                    assert(live@ =~= was_live);
                    assert forall|j: int| 0 <= j < stack.len() implies pending(
                        m,
                        #[trigger] stack@[j],
                    ) by {
                        assert(stack@[j] == was_stack[j]);
                    }
                    assert forall|x: NodeId| covered(m, was_live, was_stack, x) implies covered(
                        m,
                        live@,
                        stack@,
                        x,
                    ) by {
                        if was_stack.contains(x) && x != id {
                            let j = choose|j: int| 0 <= j < was_stack.len() && was_stack[j] == x;
                            assert(stack@[j] == x);
                        }
                    }
                }
                assert forall|i: int| 0 <= i < m.roots.len() implies covered(
                    m,
                    live@,
                    stack@,
                    (#[trigger] m.roots[i]).id,
                ) by {
                    assert(covered(m, was_live, was_stack, m.roots[i].id));
                }
                assert forall|k: NodeId, i: int|
                    live@.contains(k) && 0 <= i < m.nodes[k].children.len() implies covered(
                    m,
                    live@,
                    stack@,
                    (#[trigger] m.nodes[k].children[i]).id,
                ) by {
                    if was_live.contains(k) {
                        assert(covered(m, was_live, was_stack, m.nodes[k].children[i].id));
                    }
                }
            }
        }
        proof {
            assert forall|k: NodeId| #[trigger] live@.contains(k) <==> m.reachable(k) by {
                if m.reachable(k) {
                    let r = choose|r: int|
                        0 <= r < m.roots.len() && below(m.nodes, k, (#[trigger] m.roots[r]).id);
                    let n = choose|n: nat| below_within(m.nodes, k, m.roots[r].id, n);
                    assert(covered(m, live@, stack@, m.roots[r].id));
                    lemma_closed_contains(m, live@, k, m.roots[r].id, n);
                }
            }
        }
        (live, ids)
    }
}

/// Whether an id on the stack is reachable, if it is a node at all.
spec fn pending(m: SceneModel, id: NodeId) -> bool {
    m.nodes.contains_key(id) ==> m.reachable(id)
}

/// Whether an id is taken care of: marked, on the stack, or not a node.
spec fn covered(m: SceneModel, live: Set<NodeId>, stack: Seq<NodeId>, id: NodeId) -> bool {
    live.contains(id) || stack.contains(id) || !m.nodes.contains_key(id)
}

/// A child of a reached node is reached.
pub proof fn lemma_below_child(
    nodes: super::tree::NodeMap,
    top: NodeId,
    id: NodeId,
    i: int,
)
    requires
        below(nodes, id, top),
        0 <= i < nodes[id].children.len(),
        nodes.contains_key(nodes[id].children[i].id),
    ensures
        below(nodes, nodes[id].children[i].id, top),
{
    let n = choose|n: nat| below_within(nodes, id, top, n);
    lemma_below_child_within(nodes, top, id, i, n);
}

proof fn lemma_below_child_within(
    nodes: super::tree::NodeMap,
    top: NodeId,
    id: NodeId,
    i: int,
    n: nat,
)
    requires
        below_within(nodes, id, top, n),
        0 <= i < nodes[id].children.len(),
        nodes.contains_key(nodes[id].children[i].id),
    ensures
        below_within(nodes, nodes[id].children[i].id, top, n + 1),
    decreases n,
{
    let c = nodes[id].children[i].id;
    if id == top {
        assert(below_within(nodes, c, c, n));
        assert(below_within(nodes, c, nodes[top].children[i].id, ((n + 1) - 1) as nat));
    } else {
        let j = choose|j: int|
            0 <= j < nodes[top].children.len() && below_within(
                nodes,
                id,
                (#[trigger] nodes[top].children[j]).id,
                (n - 1) as nat,
            );
        lemma_below_child_within(nodes, nodes[top].children[j].id, id, i, (n - 1) as nat);
        assert(below_within(nodes, c, nodes[top].children[j].id, ((n + 1) - 1) as nat));
    }
}

/// A set that holds `top` and is closed under children holds the whole subtree.
proof fn lemma_closed_contains(
    m: SceneModel,
    live: Set<NodeId>,
    k: NodeId,
    top: NodeId,
    n: nat,
)
    requires
        below_within(m.nodes, k, top, n),
        live.contains(top),
        forall|x: NodeId, i: int|
            live.contains(x) && 0 <= i < m.nodes[x].children.len() ==> live.contains(
                (#[trigger] m.nodes[x].children[i]).id,
            ) || !m.nodes.contains_key(m.nodes[x].children[i].id),
    ensures
        live.contains(k),
    decreases n,
{
    if k != top {
        let j = choose|j: int|
            0 <= j < m.nodes[top].children.len() && below_within(
                m.nodes,
                k,
                (#[trigger] m.nodes[top].children[j]).id,
                (n - 1) as nat,
            );
        lemma_below_present(m.nodes, k, m.nodes[top].children[j].id, (n - 1) as nat);
        lemma_closed_contains(m, live, k, m.nodes[top].children[j].id, (n - 1) as nat);
    }
}

impl SceneData {
    /// The instances that marked nodes carry.
    pub(super) fn mark_instances(&self, live_nodes: &IdSet) -> (live: IdSet)
        requires
            forall|k: NodeId| #[trigger] live_nodes@.contains(k) <==> self@.reachable(k),
        ensures
            forall|x: GenericId| #[trigger] live@.contains(x) <==> self@.live_instance(x),
    {
        let ghost m = self@;
        let ids = self.nodes.keys();
        let mut live = IdSet::new();
        let mut i: usize = 0;
        while i < ids.len()
            invariant
                i <= ids.len(),
                m == self@,
                forall|k: NodeId| #[trigger] live_nodes@.contains(k) <==> m.reachable(k),
                forall|id: u64| #[trigger] ids@.contains(id) <==> m.nodes.contains_key(id),
                forall|x: GenericId| #[trigger]
                    live@.contains(x) <==> exists|j: int|
                        0 <= j < i && m.reachable(#[trigger] ids@[j]) && opt_id(
                            m.nodes[ids@[j]].payload.handle(),
                        ) == Some(x),
            decreases ids.len() - i,
        {
            let id: u64 = ids[i];
            let ghost before = live@;
            proof {
                assert(ids@.contains(id));
            }
            if live_nodes.contains(id) {
                if let Some(node) = self.nodes.get(id) {
                    if let NodePayload::Instance(h) = &node.payload {
                        live.insert(h.id);
                    }
                }
            }
            proof {
                assert forall|x: GenericId| #[trigger] live@.contains(x) <==> exists|j: int|
                    0 <= j < i + 1 && m.reachable(#[trigger] ids@[j]) && opt_id(
                        m.nodes[ids@[j]].payload.handle(),
                    ) == Some(x) by {
                    if before.contains(x) {
                        let j = choose|j: int|
                            0 <= j < i && m.reachable(#[trigger] ids@[j]) && opt_id(
                                m.nodes[ids@[j]].payload.handle(),
                            ) == Some(x);
                        assert(0 <= j < i + 1 && m.reachable(ids@[j]));
                    }
                    if live@.contains(x) && !before.contains(x) {
                        assert(m.reachable(ids@[i as int]));
                    }
                }
            }
            i = i + 1;
        }
        proof {
            assert forall|x: GenericId| #[trigger] live@.contains(x) <==> m.live_instance(x) by {
                if m.live_instance(x) {
                    let k = choose|k: NodeId| #[trigger]
                        m.reachable(k) && opt_id(m.nodes[k].payload.handle()) == Some(x);
                    lemma_reachable_present(m, k);
                    assert(ids@.contains(k));
                    let j = choose|j: int| 0 <= j < ids.len() && ids@[j] == k;
                    assert(m.reachable(ids@[j]));
                }
            }
        }
        live
    }

    /// The meshes that marked instances refer to.
    pub(super) fn mark_meshes(&self, live_instances: &IdSet) -> (live: IdSet)
        requires
            forall|k: GenericId| #[trigger] live_instances@.contains(k) <==> self@.live_instance(k),
        ensures
            forall|x: GenericId| #[trigger] live@.contains(x) <==> self@.live_mesh(x),
    {
        let ghost m = self@;
        let ids = self.instances.keys();
        let mut live = IdSet::new();
        let mut i: usize = 0;
        while i < ids.len()
            invariant
                i <= ids.len(),
                m == self@,
                forall|k: GenericId| #[trigger]
                    live_instances@.contains(k) <==> m.live_instance(k),
                forall|id: u64| #[trigger] ids@.contains(id) <==> m.instances.contains_key(id),
                forall|x: GenericId| #[trigger]
                    live@.contains(x) <==> exists|j: int|
                        0 <= j < i && m.live_instance(#[trigger] ids@[j]) && m.instances[ids@[j]].mesh.id == x,
            decreases ids.len() - i,
        {
            let id: u64 = ids[i];
            let ghost before = live@;
            proof {
                assert(ids@.contains(id));
            }
            if live_instances.contains(id) {
                if let Some(instance) = self.instances.get(id) {
                    live.insert(instance.mesh());
                }
            }
            proof {
                assert forall|x: GenericId| #[trigger] live@.contains(x) <==> exists|j: int|
                    0 <= j < i + 1 && m.live_instance(#[trigger] ids@[j]) && m.instances[ids@[j]].mesh.id == x by {
                    if before.contains(x) {
                        let j = choose|j: int|
                            0 <= j < i && m.live_instance(#[trigger] ids@[j]) && m.instances[ids@[j]].mesh.id == x;
                        assert(0 <= j < i + 1 && m.live_instance(ids@[j]));
                    }
                    if live@.contains(x) && !before.contains(x) {
                        assert(m.live_instance(ids@[i as int]));
                    }
                }
            }
            i = i + 1;
        }
        proof {
            assert forall|x: GenericId| #[trigger] live@.contains(x) <==> m.live_mesh(x) by {
                if m.live_mesh(x) {
                    let k = choose|k: GenericId| #[trigger]
                        m.live_instance(k) && m.instances.contains_key(k) && m.instances[k].mesh.id == x;
                    assert(ids@.contains(k));
                    let j = choose|j: int| 0 <= j < ids.len() && ids@[j] == k;
                    assert(m.live_instance(ids@[j]));
                }
                if live@.contains(x) {
                    let j = choose|j: int|
                        0 <= j < ids.len() && m.live_instance(#[trigger] ids@[j]) && m.instances[ids@[j]].mesh.id == x;
                    assert(ids@.contains(ids@[j]));
                }
            }
        }
        live
    }

    /// The face materials that marked instances refer to.
    pub(super) fn mark_face(&self, live_instances: &IdSet) -> (live: IdSet)
        requires
            forall|k: GenericId| #[trigger] live_instances@.contains(k) <==> self@.live_instance(k),
        ensures
            forall|x: GenericId| #[trigger] live@.contains(x) <==> self@.live_face(x),
    {
        let ghost m = self@;
        let ids = self.instances.keys();
        let mut live = IdSet::new();
        let mut i: usize = 0;
        while i < ids.len()
            invariant
                i <= ids.len(),
                m == self@,
                forall|k: GenericId| #[trigger]
                    live_instances@.contains(k) <==> m.live_instance(k),
                forall|id: u64| #[trigger] ids@.contains(id) <==> m.instances.contains_key(id),
                forall|x: GenericId| #[trigger]
                    live@.contains(x) <==> exists|j: int|
                        0 <= j < i && m.live_instance(#[trigger] ids@[j]) && opt_id(m.instances[ids@[j]].face_material) == Some(x),
            decreases ids.len() - i,
        {
            let id: u64 = ids[i];
            let ghost before = live@;
            proof {
                assert(ids@.contains(id));
            }
            if live_instances.contains(id) {
                if let Some(instance) = self.instances.get(id) {
                    if let Some(x) = instance.face_material() {
                        live.insert(x);
                    }
                }
            }
            proof {
                assert forall|x: GenericId| #[trigger] live@.contains(x) <==> exists|j: int|
                    0 <= j < i + 1 && m.live_instance(#[trigger] ids@[j]) && opt_id(m.instances[ids@[j]].face_material) == Some(x) by {
                    if before.contains(x) {
                        let j = choose|j: int|
                            0 <= j < i && m.live_instance(#[trigger] ids@[j]) && opt_id(m.instances[ids@[j]].face_material) == Some(x);
                        assert(0 <= j < i + 1 && m.live_instance(ids@[j]));
                    }
                    if live@.contains(x) && !before.contains(x) {
                        assert(m.live_instance(ids@[i as int]));
                    }
                }
            }
            i = i + 1;
        }
        proof {
            assert forall|x: GenericId| #[trigger] live@.contains(x) <==> m.live_face(x) by {
                if m.live_face(x) {
                    let k = choose|k: GenericId| #[trigger]
                        m.live_instance(k) && m.instances.contains_key(k) && opt_id(m.instances[k].face_material) == Some(x);
                    assert(ids@.contains(k));
                    let j = choose|j: int| 0 <= j < ids.len() && ids@[j] == k;
                    assert(m.live_instance(ids@[j]));
                }
                if live@.contains(x) {
                    let j = choose|j: int|
                        0 <= j < ids.len() && m.live_instance(#[trigger] ids@[j]) && opt_id(m.instances[ids@[j]].face_material) == Some(x);
                    assert(ids@.contains(ids@[j]));
                }
            }
        }
        live
    }

    /// The line materials that marked instances refer to.
    pub(super) fn mark_line(&self, live_instances: &IdSet) -> (live: IdSet)
        requires
            forall|k: GenericId| #[trigger] live_instances@.contains(k) <==> self@.live_instance(k),
        ensures
            forall|x: GenericId| #[trigger] live@.contains(x) <==> self@.live_line(x),
    {
        let ghost m = self@;
        let ids = self.instances.keys();
        let mut live = IdSet::new();
        let mut i: usize = 0;
        while i < ids.len()
            invariant
                i <= ids.len(),
                m == self@,
                forall|k: GenericId| #[trigger]
                    live_instances@.contains(k) <==> m.live_instance(k),
                forall|id: u64| #[trigger] ids@.contains(id) <==> m.instances.contains_key(id),
                forall|x: GenericId| #[trigger]
                    live@.contains(x) <==> exists|j: int|
                        0 <= j < i && m.live_instance(#[trigger] ids@[j]) && opt_id(m.instances[ids@[j]].line_material) == Some(x),
            decreases ids.len() - i,
        {
            let id: u64 = ids[i];
            let ghost before = live@;
            proof {
                assert(ids@.contains(id));
            }
            if live_instances.contains(id) {
                if let Some(instance) = self.instances.get(id) {
                    if let Some(x) = instance.line_material() {
                        live.insert(x);
                    }
                }
            }
            proof {
                assert forall|x: GenericId| #[trigger] live@.contains(x) <==> exists|j: int|
                    0 <= j < i + 1 && m.live_instance(#[trigger] ids@[j]) && opt_id(m.instances[ids@[j]].line_material) == Some(x) by {
                    if before.contains(x) {
                        let j = choose|j: int|
                            0 <= j < i && m.live_instance(#[trigger] ids@[j]) && opt_id(m.instances[ids@[j]].line_material) == Some(x);
                        assert(0 <= j < i + 1 && m.live_instance(ids@[j]));
                    }
                    if live@.contains(x) && !before.contains(x) {
                        assert(m.live_instance(ids@[i as int]));
                    }
                }
            }
            i = i + 1;
        }
        proof {
            assert forall|x: GenericId| #[trigger] live@.contains(x) <==> m.live_line(x) by {
                if m.live_line(x) {
                    let k = choose|k: GenericId| #[trigger]
                        m.live_instance(k) && m.instances.contains_key(k) && opt_id(m.instances[k].line_material) == Some(x);
                    assert(ids@.contains(k));
                    let j = choose|j: int| 0 <= j < ids.len() && ids@[j] == k;
                    assert(m.live_instance(ids@[j]));
                }
                if live@.contains(x) {
                    let j = choose|j: int|
                        0 <= j < ids.len() && m.live_instance(#[trigger] ids@[j]) && opt_id(m.instances[ids@[j]].line_material) == Some(x);
                    assert(ids@.contains(ids@[j]));
                }
            }
        }
        live
    }

    /// The point materials that marked instances refer to.
    pub(super) fn mark_point(&self, live_instances: &IdSet) -> (live: IdSet)
        requires
            forall|k: GenericId| #[trigger] live_instances@.contains(k) <==> self@.live_instance(k),
        ensures
            forall|x: GenericId| #[trigger] live@.contains(x) <==> self@.live_point(x),
    {
        let ghost m = self@;
        let ids = self.instances.keys();
        let mut live = IdSet::new();
        let mut i: usize = 0;
        while i < ids.len()
            invariant
                i <= ids.len(),
                m == self@,
                forall|k: GenericId| #[trigger]
                    live_instances@.contains(k) <==> m.live_instance(k),
                forall|id: u64| #[trigger] ids@.contains(id) <==> m.instances.contains_key(id),
                forall|x: GenericId| #[trigger]
                    live@.contains(x) <==> exists|j: int|
                        0 <= j < i && m.live_instance(#[trigger] ids@[j]) && opt_id(m.instances[ids@[j]].point_material) == Some(x),
            decreases ids.len() - i,
        {
            let id: u64 = ids[i];
            let ghost before = live@;
            proof {
                assert(ids@.contains(id));
            }
            if live_instances.contains(id) {
                if let Some(instance) = self.instances.get(id) {
                    if let Some(x) = instance.point_material() {
                        live.insert(x);
                    }
                }
            }
            proof {
                assert forall|x: GenericId| #[trigger] live@.contains(x) <==> exists|j: int|
                    0 <= j < i + 1 && m.live_instance(#[trigger] ids@[j]) && opt_id(m.instances[ids@[j]].point_material) == Some(x) by {
                    if before.contains(x) {
                        let j = choose|j: int|
                            0 <= j < i && m.live_instance(#[trigger] ids@[j]) && opt_id(m.instances[ids@[j]].point_material) == Some(x);
                        assert(0 <= j < i + 1 && m.live_instance(ids@[j]));
                    }
                    if live@.contains(x) && !before.contains(x) {
                        assert(m.live_instance(ids@[i as int]));
                    }
                }
            }
            i = i + 1;
        }
        proof {
            assert forall|x: GenericId| #[trigger] live@.contains(x) <==> m.live_point(x) by {
                if m.live_point(x) {
                    let k = choose|k: GenericId| #[trigger]
                        m.live_instance(k) && m.instances.contains_key(k) && opt_id(m.instances[k].point_material) == Some(x);
                    assert(ids@.contains(k));
                    let j = choose|j: int| 0 <= j < ids.len() && ids@[j] == k;
                    assert(m.live_instance(ids@[j]));
                }
                if live@.contains(x) {
                    let j = choose|j: int|
                        0 <= j < ids.len() && m.live_instance(#[trigger] ids@[j]) && opt_id(m.instances[ids@[j]].point_material) == Some(x);
                    assert(ids@.contains(ids@[j]));
                }
            }
        }
        live
    }

    /// Adds the textures that marked face materials refer to.
    pub(super) fn mark_face_textures(&self, live_materials: &IdSet, live: &mut IdSet)
        requires
            forall|k: GenericId| #[trigger] live_materials@.contains(k) <==> self@.live_face(k),
        ensures
            forall|x: GenericId| #[trigger]
                final(live)@.contains(x) <==> old(live)@.contains(x) || self@.live_face_samples(x),
    {
        let ghost m = self@;
        let ghost start = live@;
        let ids = self.face_materials.keys();
        let mut i: usize = 0;
        while i < ids.len()
            invariant
                i <= ids.len(),
                m == self@,
                forall|k: GenericId| #[trigger] live_materials@.contains(k) <==> m.live_face(k),
                forall|id: u64| #[trigger] ids@.contains(id) <==> m.face_materials.contains_key(id),
                forall|x: GenericId| #[trigger]
                    live@.contains(x) <==> start.contains(x) || exists|j: int|
                        0 <= j < i && m.live_face(#[trigger] ids@[j]) && m.face_materials[ids@[j]].samples(x),
            decreases ids.len() - i,
        {
            let id: u64 = ids[i];
            let ghost before = live@;
            proof {
                assert(ids@.contains(id));
            }
            if live_materials.contains(id) {
                if let Some(material) = self.face_materials.get(id) {
                    if let Some(h) = &material.parts().base_color_texture {
                        live.insert(h.id);
                    }
                    if let Some(h) = &material.parts().normal_texture {
                        live.insert(h.id);
                    }
                    if let Some(h) = &material.parts().metallic_roughness_texture {
                        live.insert(h.id);
                    }
                }
            }
            proof {
                assert forall|x: GenericId| #[trigger] live@.contains(x) <==> start.contains(x)
                    || exists|j: int|
                    0 <= j < i + 1 && m.live_face(#[trigger] ids@[j]) && m.face_materials[ids@[j]].samples(x) by {
                    if before.contains(x) && !start.contains(x) {
                        let j = choose|j: int|
                            0 <= j < i && m.live_face(#[trigger] ids@[j]) && m.face_materials[ids@[j]].samples(x);
                        assert(0 <= j < i + 1 && m.live_face(ids@[j]));
                    }
                    if live@.contains(x) && !before.contains(x) {
                        assert(m.live_face(ids@[i as int]));
                    }
                }
            }
            i = i + 1;
        }
        proof {
            assert forall|x: GenericId| #[trigger] live@.contains(x) <==> start.contains(x)
                || m.live_face_samples(x) by {
                if m.live_face_samples(x) {
                    let k = choose|k: GenericId| #[trigger]
                        m.live_face(k) && m.face_materials.contains_key(k) && m.face_materials[k].samples(x);
                    assert(ids@.contains(k));
                    let j = choose|j: int| 0 <= j < ids.len() && ids@[j] == k;
                    assert(m.live_face(ids@[j]));
                }
                if live@.contains(x) && !start.contains(x) {
                    let j = choose|j: int|
                        0 <= j < ids.len() && m.live_face(#[trigger] ids@[j]) && m.face_materials[ids@[j]].samples(x);
                    assert(ids@.contains(ids@[j]));
                }
            }
        }
    }

    /// Adds the textures that marked line materials refer to.
    pub(super) fn mark_line_textures(&self, live_materials: &IdSet, live: &mut IdSet)
        requires
            forall|k: GenericId| #[trigger] live_materials@.contains(k) <==> self@.live_line(k),
        ensures
            forall|x: GenericId| #[trigger]
                final(live)@.contains(x) <==> old(live)@.contains(x) || self@.live_line_samples(x),
    {
        let ghost m = self@;
        let ghost start = live@;
        let ids = self.line_materials.keys();
        let mut i: usize = 0;
        while i < ids.len()
            invariant
                i <= ids.len(),
                m == self@,
                forall|k: GenericId| #[trigger] live_materials@.contains(k) <==> m.live_line(k),
                forall|id: u64| #[trigger] ids@.contains(id) <==> m.line_materials.contains_key(id),
                forall|x: GenericId| #[trigger]
                    live@.contains(x) <==> start.contains(x) || exists|j: int|
                        0 <= j < i && m.live_line(#[trigger] ids@[j]) && opt_id(m.line_materials[ids@[j]].base_color_texture) == Some(x),
            decreases ids.len() - i,
        {
            let id: u64 = ids[i];
            let ghost before = live@;
            proof {
                assert(ids@.contains(id));
            }
            if live_materials.contains(id) {
                if let Some(material) = self.line_materials.get(id) {
                    if let Some(h) = &material.parts().base_color_texture {
                        live.insert(h.id);
                    }
                }
            }
            proof {
                assert forall|x: GenericId| #[trigger] live@.contains(x) <==> start.contains(x)
                    || exists|j: int|
                    0 <= j < i + 1 && m.live_line(#[trigger] ids@[j]) && opt_id(m.line_materials[ids@[j]].base_color_texture) == Some(x) by {
                    if before.contains(x) && !start.contains(x) {
                        let j = choose|j: int|
                            0 <= j < i && m.live_line(#[trigger] ids@[j]) && opt_id(m.line_materials[ids@[j]].base_color_texture) == Some(x);
                        assert(0 <= j < i + 1 && m.live_line(ids@[j]));
                    }
                    if live@.contains(x) && !before.contains(x) {
                        assert(m.live_line(ids@[i as int]));
                    }
                }
            }
            i = i + 1;
        }
        proof {
            assert forall|x: GenericId| #[trigger] live@.contains(x) <==> start.contains(x)
                || m.live_line_samples(x) by {
                if m.live_line_samples(x) {
                    let k = choose|k: GenericId| #[trigger]
                        m.live_line(k) && m.line_materials.contains_key(k) && opt_id(m.line_materials[k].base_color_texture) == Some(x);
                    assert(ids@.contains(k));
                    let j = choose|j: int| 0 <= j < ids.len() && ids@[j] == k;
                    assert(m.live_line(ids@[j]));
                }
                if live@.contains(x) && !start.contains(x) {
                    let j = choose|j: int|
                        0 <= j < ids.len() && m.live_line(#[trigger] ids@[j]) && opt_id(m.line_materials[ids@[j]].base_color_texture) == Some(x);
                    assert(ids@.contains(ids@[j]));
                }
            }
        }
    }

    /// Adds the textures that marked point materials refer to.
    pub(super) fn mark_point_textures(&self, live_materials: &IdSet, live: &mut IdSet)
        requires
            forall|k: GenericId| #[trigger] live_materials@.contains(k) <==> self@.live_point(k),
        ensures
            forall|x: GenericId| #[trigger]
                final(live)@.contains(x) <==> old(live)@.contains(x) || self@.live_point_samples(x),
    {
        let ghost m = self@;
        let ghost start = live@;
        let ids = self.point_materials.keys();
        let mut i: usize = 0;
        while i < ids.len()
            invariant
                i <= ids.len(),
                m == self@,
                forall|k: GenericId| #[trigger] live_materials@.contains(k) <==> m.live_point(k),
                forall|id: u64| #[trigger] ids@.contains(id) <==> m.point_materials.contains_key(id),
                forall|x: GenericId| #[trigger]
                    live@.contains(x) <==> start.contains(x) || exists|j: int|
                        0 <= j < i && m.live_point(#[trigger] ids@[j]) && opt_id(m.point_materials[ids@[j]].base_color_texture) == Some(x),
            decreases ids.len() - i,
        {
            let id: u64 = ids[i];
            let ghost before = live@;
            proof {
                assert(ids@.contains(id));
            }
            if live_materials.contains(id) {
                if let Some(material) = self.point_materials.get(id) {
                    if let Some(h) = &material.parts().base_color_texture {
                        live.insert(h.id);
                    }
                }
            }
            proof {
                assert forall|x: GenericId| #[trigger] live@.contains(x) <==> start.contains(x)
                    || exists|j: int|
                    0 <= j < i + 1 && m.live_point(#[trigger] ids@[j]) && opt_id(m.point_materials[ids@[j]].base_color_texture) == Some(x) by {
                    if before.contains(x) && !start.contains(x) {
                        let j = choose|j: int|
                            0 <= j < i && m.live_point(#[trigger] ids@[j]) && opt_id(m.point_materials[ids@[j]].base_color_texture) == Some(x);
                        assert(0 <= j < i + 1 && m.live_point(ids@[j]));
                    }
                    if live@.contains(x) && !before.contains(x) {
                        assert(m.live_point(ids@[i as int]));
                    }
                }
            }
            i = i + 1;
        }
        proof {
            assert forall|x: GenericId| #[trigger] live@.contains(x) <==> start.contains(x)
                || m.live_point_samples(x) by {
                if m.live_point_samples(x) {
                    let k = choose|k: GenericId| #[trigger]
                        m.live_point(k) && m.point_materials.contains_key(k) && opt_id(m.point_materials[k].base_color_texture) == Some(x);
                    assert(ids@.contains(k));
                    let j = choose|j: int| 0 <= j < ids.len() && ids@[j] == k;
                    assert(m.live_point(ids@[j]));
                }
                if live@.contains(x) && !start.contains(x) {
                    let j = choose|j: int|
                        0 <= j < ids.len() && m.live_point(#[trigger] ids@[j]) && opt_id(m.point_materials[ids@[j]].base_color_texture) == Some(x);
                    assert(ids@.contains(ids@[j]));
                }
            }
        }
    }
}

/// A reachable node is there.
pub proof fn lemma_reachable_present(m: SceneModel, id: NodeId)
    requires
        m.reachable(id),
    ensures
        m.nodes.contains_key(id),
{
    let r = choose|r: int|
        0 <= r < m.roots.len() && below(m.nodes, id, (#[trigger] m.roots[r]).id);
    let n = choose|n: nat| below_within(m.nodes, id, m.roots[r].id, n);
    lemma_below_present(m.nodes, id, m.roots[r].id, n);
}

} // verus!
