//! Adding, moving, detaching and changing nodes.

use super::forest::{attached_nodes, detached_nodes, detached_roots, free, same_shape};
use super::model::{reached, SceneModel};
use super::tree::{
    above, below, below_within, climb, climb_ends, climbs, descends, descent_ends,
    lemma_above_present, lemma_above_step, NodeMap,
};
use super::{release_node, SceneData};
use crate::common::{identity_transform, Point3, Quaternion, RgbaColor, Transform, Vector3, ONE};
use crate::error::SceneError;
use crate::id_set::IdSet;
use crate::light::Light;
use crate::resource::display::DisplayBehavior;
use crate::resource::handle::{Handle, LedgerModel, NodeHandle, NodeId, ResourceKind};
use crate::resource::instance::{Instance, InstanceParts};
use crate::resource::material::opt_seq;
use crate::resource::node::{
    first_for, opt_chars, take_first, Node, NodeFlags, NodeModel, NodePayload, Visibility,
};
use vstd::prelude::*;

verus! {

/// The bit pattern of `0.3`, the intensity of the default fill light.
pub const FILL_INTENSITY: u32 = 0x3e99_999a;

/// The bit pattern of the square of `cos(22.5 degrees)`, about `0.853553`.
pub const CORNER_SCALAR: u32 = 0x3f5a_8279;

/// The bit pattern of `sin(22.5 degrees) * cos(22.5 degrees)`, about `0.353553`.
pub const CORNER_SIDE: u32 = 0x3eb5_04f4;

/// The bit pattern of `-sin(22.5 degrees) * cos(22.5 degrees)`.
pub const CORNER_SIDE_NEGATED: u32 = 0xbeb5_04f4;

/// The bit pattern of the square of `sin(22.5 degrees)`, about `0.146447`.
pub const CORNER_TWIST: u32 = 0x3e15_f61b;

/// How the default key light is turned: by -45 degrees about the vertical axis, then by as
/// much about the horizontal one, so that it shines from the upper left.
pub open spec fn key_rotation() -> Quaternion {
    Quaternion {
        s: CORNER_SCALAR,
        v: Vector3 { x: CORNER_SIDE_NEGATED, y: CORNER_SIDE_NEGATED, z: CORNER_TWIST },
    }
}

/// How the default fill light is turned: by 45 degrees about the vertical axis, then by as
/// much about the horizontal one, so that it shines from the lower right.
pub open spec fn fill_rotation() -> Quaternion {
    Quaternion {
        s: CORNER_SCALAR,
        v: Vector3 { x: CORNER_SIDE, y: CORNER_SIDE, z: CORNER_TWIST },
    }
}

impl NodeModel {
    /// The node with its cached bounds given up.
    pub open spec fn bounds_dirtied(self) -> NodeModel {
        NodeModel { bounds_cache: None, ..self }
    }

    /// The node with its cached world transform and bounds given up.
    pub open spec fn transform_dirtied(self) -> NodeModel {
        NodeModel { world_cache: None, bounds_cache: None, ..self }
    }

    /// The node with its cached effective visibility given up.
    pub open spec fn visibility_dirtied(self) -> NodeModel {
        NodeModel { visibility_cache: None, ..self }
    }

    /// The node with what is cached of its subtree given up: its bounds, and what is shown
    /// of it.
    pub open spec fn summary_dirtied(self) -> NodeModel {
        NodeModel { bounds_cache: None, visibility_cache: None, ..self }
    }

    /// The node made invisible.
    pub open spec fn hidden(self) -> NodeModel {
        NodeModel { visibility: Visibility::Invisible, visibility_cache: None, ..self }
    }
}

/// The nodes above `id`, with `id` itself.
pub open spec fn ancestors(nodes: NodeMap, id: NodeId) -> Set<NodeId> {
    nodes.dom().filter(|k: NodeId| above(nodes, k, id))
}

/// The nodes of the subtree of `id`.
pub open spec fn subtree(nodes: NodeMap, id: NodeId) -> Set<NodeId> {
    nodes.dom().filter(|k: NodeId| below(nodes, k, id))
}

/// The nodes, with the cached bounds of those in `ids` given up.
pub open spec fn dirty_bounds(nodes: NodeMap, ids: Set<NodeId>) -> NodeMap {
    nodes.map_entries(
        |k: NodeId, n: NodeModel|
            if ids.contains(k) {
                n.bounds_dirtied()
            } else {
                n
            },
    )
}

/// The nodes, with the cached transforms and bounds of those in `ids` given up.
pub open spec fn dirty_transforms(nodes: NodeMap, ids: Set<NodeId>) -> NodeMap {
    nodes.map_entries(
        |k: NodeId, n: NodeModel|
            if ids.contains(k) {
                n.transform_dirtied()
            } else {
                n
            },
    )
}

/// The nodes, with the cached visibility of those in `ids` given up.
pub open spec fn dirty_visibility(nodes: NodeMap, ids: Set<NodeId>) -> NodeMap {
    nodes.map_entries(
        |k: NodeId, n: NodeModel|
            if ids.contains(k) {
                n.visibility_dirtied()
            } else {
                n
            },
    )
}

/// The nodes, with what those in `ids` have cached of their subtrees given up.
pub open spec fn dirty_summaries(nodes: NodeMap, ids: Set<NodeId>) -> NodeMap {
    nodes.map_entries(
        |k: NodeId, n: NodeModel|
            if ids.contains(k) {
                n.summary_dirtied()
            } else {
                n
            },
    )
}

/// A parent and the nodes above it; none where there is no parent.
pub open spec fn line_above(nodes: NodeMap, parent: Option<NodeId>) -> Set<NodeId> {
    match parent {
        Some(p) => ancestors(nodes, p),
        None => Set::empty(),
    }
}

/// The nodes, with those in `ids` made invisible.
pub open spec fn made_invisible(nodes: NodeMap, ids: Set<NodeId>) -> NodeMap {
    nodes.map_entries(
        |k: NodeId, n: NodeModel|
            if ids.contains(k) {
                n.hidden()
            } else {
                n
            },
    )
}

/// None of these touches a link.
pub proof fn lemma_edits_keep_shape(nodes: NodeMap, ids: Set<NodeId>)
    ensures
        same_shape(nodes, dirty_bounds(nodes, ids)),
        same_shape(nodes, dirty_transforms(nodes, ids)),
        same_shape(nodes, dirty_visibility(nodes, ids)),
        same_shape(nodes, dirty_summaries(nodes, ids)),
        same_shape(nodes, made_invisible(nodes, ids)),
{
    assert(dirty_bounds(nodes, ids).dom() =~= nodes.dom());
    assert(dirty_transforms(nodes, ids).dom() =~= nodes.dom());
    assert(dirty_visibility(nodes, ids).dom() =~= nodes.dom());
    assert(dirty_summaries(nodes, ids).dom() =~= nodes.dom());
    assert(made_invisible(nodes, ids).dom() =~= nodes.dom());
}

/// Any number of steps that can reach a node below can be cut to the depth of the
/// subtree.
pub proof fn lemma_below_bound(nodes: NodeMap, k: NodeId, id: NodeId, n: nat, depth: nat)
    requires
        below_within(nodes, k, id, n),
        descends(nodes, id, depth),
    ensures
        below_within(nodes, k, id, depth),
    decreases n,
{
    if k != id {
        let i = choose|i: int|
            0 <= i < nodes[id].children.len() && below_within(
                nodes,
                k,
                (#[trigger] nodes[id].children[i]).id,
                (n - 1) as nat,
            );
        assert(descends(nodes, nodes[id].children[i].id, (depth - 1) as nat));
        lemma_below_bound(
            nodes,
            k,
            nodes[id].children[i].id,
            (n - 1) as nat,
            (depth - 1) as nat,
        );
    }
}

/// What is below some node is there.
pub proof fn lemma_below_present(nodes: NodeMap, k: NodeId, id: NodeId, n: nat)
    requires
        below_within(nodes, k, id, n),
    ensures
        nodes.contains_key(k),
        nodes.contains_key(id),
    decreases n,
{
    if k != id {
        let i = choose|i: int|
            0 <= i < nodes[id].children.len() && below_within(
                nodes,
                k,
                (#[trigger] nodes[id].children[i]).id,
                (n - 1) as nat,
            );
        lemma_below_present(nodes, k, nodes[id].children[i].id, (n - 1) as nat);
    }
}

/// What is reached is there.
pub proof fn lemma_reached_present(nodes: NodeMap, handles: Seq<Handle>, k: NodeId)
    requires
        reached(nodes, handles, k),
    ensures
        nodes.contains_key(k),
{
    let i = choose|i: int|
        0 <= i < handles.len() && below(nodes, k, (#[trigger] handles[i]).id);
    let n = choose|n: nat| below_within(nodes, k, handles[i].id, n);
    lemma_below_present(nodes, k, handles[i].id, n);
}

pub proof fn lemma_climb_stops(nodes: NodeMap, id: NodeId, n: nat, more: nat)
    requires
        climb(nodes, id, n) is None,
        n <= more,
    ensures
        climb(nodes, id, more) is None,
    decreases n,
{
    if nodes.contains_key(id) && n > 0 && nodes[id].parent is Some {
        lemma_climb_stops(nodes, nodes[id].parent->0, (n - 1) as nat, (more - 1) as nat);
    }
}

pub proof fn lemma_climb_next(nodes: NodeMap, id: NodeId, n: nat)
    ensures
        climb(nodes, id, n + 1) == (match climb(nodes, id, n) {
            Some(k) => match nodes[k].parent {
                Some(p) => if nodes.contains_key(p) {
                    Some(p)
                } else {
                    None
                },
                None => None,
            },
            None => None,
        }),
    decreases n,
{
    if nodes.contains_key(id) {
        if n == 0 {
            if nodes[id].parent is Some {
                assert(climb(nodes, nodes[id].parent->0, 0) is Some <==> nodes.contains_key(
                    nodes[id].parent->0,
                ));
            }
        } else if nodes[id].parent is Some {
            lemma_climb_next(nodes, nodes[id].parent->0, (n - 1) as nat);
        }
    }
}

impl SceneModel {
    /// After one more change to the nodes.
    pub open spec fn bumped(self) -> SceneModel {
        SceneModel { node_generation: (self.node_generation + 1) as u64, ..self }
    }

    /// The model with other nodes.
    pub open spec fn with_nodes(self, nodes: NodeMap) -> SceneModel {
        SceneModel { nodes, ..self }
    }

    /// After giving up what a parent and the nodes above it have cached of their subtrees,
    /// as something is about to change below.
    pub open spec fn unsummed(self, parent: Option<NodeId>) -> SceneModel {
        self.with_nodes(dirty_summaries(self.nodes, line_above(self.nodes, parent)))
    }

    /// Whether nothing in the scene tree refers to `id`.
    pub open spec fn unreferenced(self, id: NodeId) -> bool {
        !self.nodes.contains_key(id) && free(self.nodes, self.roots, id)
    }

    /// After hanging `handle`'s node below `parent`, or appending it to the roots.
    pub open spec fn hung(self, handle: Handle, parent: Option<NodeId>) -> SceneModel {
        match parent {
            Some(p) => self.with_nodes(attached_nodes(self.nodes, handle, p)),
            None => SceneModel { roots: self.roots.push(handle), ..self },
        }
    }

    /// After adding a fresh node: two handles for it are counted, one for the tree
    /// and one that is handed out. What is cached of the subtrees that it joins is given
    /// up.
    pub open spec fn add_node(
        self,
        id: NodeId,
        parent: Option<NodeId>,
        name: Option<Seq<char>>,
        transform: Transform,
        flags: NodeFlags,
    ) -> SceneModel {
        let handle = self.ledger.minted(id);
        SceneModel {
            nodes: self.unsummed(parent).nodes.insert(
                id,
                NodeModel::fresh(id, name, transform, flags),
            ),
            ledger: self.ledger.mint(id, ResourceKind::Node).retain(handle),
            ..self
        }.hung(handle, parent).bumped()
    }

    /// After adding an instance and a fresh node that carries it.
    pub open spec fn add_instance_node(
        self,
        id: NodeId,
        parent: Option<NodeId>,
        instance: InstanceParts,
        name: Option<Seq<char>>,
        transform: Transform,
        flags: NodeFlags,
    ) -> SceneModel {
        let payload = self.added_instance(instance);
        let added = self.add_instance(instance).add_node(id, parent, name, transform, flags);
        added.with_nodes(
            added.nodes.insert(
                id,
                NodeModel { payload: NodePayload::Instance(payload), ..added.nodes[id] },
            ),
        )
    }

    /// After an instance was added and its handle given up again, as the node that was to
    /// carry it could not be added.
    pub open spec fn failed_instance_node(self, instance: InstanceParts) -> SceneModel {
        let added = self.add_instance(instance);
        added.with_ledger(added.ledger.release(self.added_instance(instance)))
    }

    /// The ledger once the node stored under `id` has let go of what it owns.
    pub open spec fn without_node(self, id: NodeId) -> LedgerModel {
        if self.nodes.contains_key(id) {
            self.ledger.release_all(self.nodes[id].handles())
        } else {
            self.ledger
        }
    }

    /// After inserting a pre-built node: it hangs below its recorded parent when
    /// that is there, belongs to the roots when it has none, and stays detached
    /// otherwise. What it had cached where it came from does not come with it, and what
    /// is cached of the subtrees that it joins is given up.
    pub open spec fn insert_node(self, node: NodeModel) -> SceneModel {
        let handle = self.without_node(node.id).minted(node.id);
        let minted = self.without_node(node.id).mint(node.id, ResourceKind::Node);
        let nodes = self.unsummed(node.parent).nodes.insert(node.id, node.authored());
        match node.parent {
            None => SceneModel {
                nodes,
                roots: self.roots.push(handle),
                ledger: minted.retain(handle),
                ..self
            }.bumped(),
            Some(p) => if nodes.contains_key(p) {
                SceneModel {
                    nodes: nodes.insert(
                        p,
                        nodes[p].with_children(nodes[p].children.push(handle)),
                    ),
                    ledger: minted.retain(handle),
                    ..self
                }.bumped()
            } else {
                SceneModel { nodes, ledger: minted, ..self }.bumped()
            },
        }
    }

    /// Whether a pre-built node can be taken in as it is: no resource has its id, it lists
    /// no children, its recorded parent is there or it has none, and its payload's handle
    /// exists outside the scene.
    pub open spec fn insertable(self, node: NodeModel) -> bool {
        &&& forall|kind: ResourceKind| !#[trigger] self.present(kind, node.id)
        &&& node.children.len() == 0
        &&& node.parent matches Some(p) ==> self.nodes.contains_key(p)
        &&& self.holds_outside(opt_seq(node.payload.handle()))
    }

    /// The handle through which the tree owns a node, if it does.
    pub open spec fn tree_handle(self, id: NodeId) -> Option<Handle> {
        match self.nodes[id].parent {
            Some(p) => if self.nodes.contains_key(p) {
                first_for(self.nodes[p].children, id)
            } else {
                None
            },
            None => first_for(self.roots, id),
        }
    }

    /// After taking a node from its parent or from the roots, with no cache touched yet
    /// but those of the parent.
    pub open spec fn unhung(self, id: NodeId) -> SceneModel {
        SceneModel {
            nodes: detached_nodes(self.nodes, id),
            roots: detached_roots(self.nodes, self.roots, id),
            ..self
        }
    }

    /// After taking a node from its parent or from the roots. What was cached of the
    /// subtrees that it leaves is given up, and so are the transforms and bounds of its
    /// own subtree, which is placed elsewhere now.
    pub open spec fn detach(self, id: NodeId) -> SceneModel {
        let cut = self.unhung(id);
        let left = cut.unsummed(self.nodes[id].parent);
        left.with_nodes(dirty_transforms(left.nodes, subtree(cut.nodes, id)))
    }

    /// After detaching a node's subtree, releasing the tree's handle for it and
    /// reaping.
    pub open spec fn remove_node(self, id: NodeId) -> SceneModel {
        if !self.nodes.contains_key(id) {
            self
        } else {
            let cut = self.detach(id);
            cut.with_ledger(cut.ledger.release_opt(self.tree_handle(id))).bumped().reaped()
        }
    }

    /// Why a node cannot be moved, if so.
    pub open spec fn reparent_error(
        self,
        id: NodeId,
        new_parent: Option<NodeId>,
    ) -> Option<SceneError> {
        if !self.nodes.contains_key(id) {
            Some(SceneError::NodeNotFound(id))
        } else {
            match new_parent {
                Some(p) => if !self.nodes.contains_key(p) {
                    Some(SceneError::ParentNotFound(p))
                } else if above(self.nodes, id, p) {
                    Some(SceneError::Cycle { node: id, parent: p })
                } else {
                    None
                },
                None => None,
            }
        }
    }

    /// The handle that a moved node hangs by: the tree's own, or a new one for a
    /// detached node.
    pub open spec fn moved_handle(self, id: NodeId) -> Handle {
        match self.tree_handle(id) {
            Some(h) => h,
            None => self.ledger.minted(id),
        }
    }

    /// The ledger after a node has been moved.
    pub open spec fn moved_ledger(self, id: NodeId) -> LedgerModel {
        match self.tree_handle(id) {
            Some(_) => self.ledger,
            None => self.ledger.mint(id, ResourceKind::Node),
        }
    }

    /// After moving a node: it is detached and hung below the new parent. What is cached
    /// above both places, and the transforms below the node, turn dirty.
    pub open spec fn reparent_node(self, id: NodeId, new_parent: Option<NodeId>) -> SceneModel {
        self.detach(id).unsummed(new_parent).with_ledger(self.moved_ledger(id)).hung(
            self.moved_handle(id),
            new_parent,
        ).bumped()
    }

    /// After replacing one node, leaving its links alone.
    pub open spec fn with_node(self, id: NodeId, node: NodeModel) -> SceneModel {
        self.with_nodes(self.nodes.insert(id, node))
    }

    /// After setting a node's payload.
    pub open spec fn set_node_payload(self, id: NodeId, payload: NodePayload) -> SceneModel {
        if !self.nodes.contains_key(id) {
            self.with_ledger(self.ledger.release_opt(payload.handle()))
        } else {
            SceneModel {
                nodes: dirty_bounds(
                    self.nodes.insert(id, NodeModel { payload, ..self.nodes[id] }),
                    ancestors(self.nodes, id),
                ),
                ledger: self.ledger.release_opt(self.nodes[id].payload.handle()),
                ..self
            }.bumped()
        }
    }

    /// After setting a node's local transform.
    pub open spec fn set_node_transform(self, id: NodeId, transform: Transform) -> SceneModel {
        if !self.nodes.contains_key(id) {
            self
        } else {
            self.with_nodes(
                dirty_bounds(
                    dirty_transforms(
                        self.nodes.insert(id, NodeModel { transform, ..self.nodes[id] }),
                        subtree(self.nodes, id),
                    ),
                    ancestors(self.nodes, id),
                ),
            ).bumped()
        }
    }

    /// After setting a node's behavior flags.
    pub open spec fn set_node_flags(self, id: NodeId, flags: NodeFlags) -> SceneModel {
        if !self.nodes.contains_key(id) {
            self
        } else {
            self.with_nodes(
                dirty_bounds(
                    self.nodes.insert(id, NodeModel { flags, ..self.nodes[id] }),
                    ancestors(self.nodes, id),
                ),
            ).bumped()
        }
    }

    /// After setting a node's visibility: hiding hides the whole subtree, showing
    /// shows the node alone.
    pub open spec fn set_node_visibility(self, id: NodeId, visibility: Visibility) -> SceneModel {
        if !self.nodes.contains_key(id) {
            self
        } else {
            match visibility {
                Visibility::Visible => self.with_nodes(
                    dirty_visibility(
                        self.nodes.insert(id, NodeModel { visibility, ..self.nodes[id] }),
                        ancestors(self.nodes, id),
                    ),
                ).bumped(),
                Visibility::Invisible => self.with_nodes(
                    match self.nodes[id].parent {
                        Some(p) => dirty_visibility(
                            made_invisible(self.nodes, subtree(self.nodes, id)),
                            ancestors(self.nodes, p),
                        ),
                        None => made_invisible(self.nodes, subtree(self.nodes, id)),
                    },
                ).bumped(),
            }
        }
    }

    /// After adding one of the default lights below the camera node.
    pub open spec fn add_default_light(
        self,
        id: NodeId,
        camera: NodeId,
        name: Seq<char>,
        rotation: Quaternion,
        light: Light,
    ) -> SceneModel {
        let handle = self.ledger.minted(id);
        let added = self.add_node(
            id,
            Some(camera),
            Some(name),
            Transform { rotation, ..identity_transform() },
            NodeFlags { bits: 0 },
        );
        let lit = added.with_node(
            id,
            NodeModel { payload: NodePayload::Light(light), ..added.nodes[id] },
        );
        lit.with_ledger(lit.ledger.release(handle)).bumped()
    }
}

impl SceneData {
    /// The ids of a node and the nodes above it, nearest first.
    pub(super) fn ancestor_ids(&self, id: NodeId) -> (ids: Vec<NodeId>)
        requires
            climb_ends(self@.nodes, id),
        ensures
            ids@.to_set() == ancestors(self@.nodes, id),
            forall|i: int| 0 <= i < ids.len() ==> climb(self@.nodes, id, i as nat) == Some(
                #[trigger] ids@[i],
            ),
            climb(self@.nodes, id, ids.len() as nat) is None,
    {
        let ghost nodes = self@.nodes;
        let ghost mut left: nat = choose|n: nat| climbs(nodes, id, n);
        let mut ids: Vec<NodeId> = Vec::new();
        let mut current: Option<NodeId> = Some(id);
        while current.is_some()
            invariant
                nodes == self@.nodes,
                forall|i: int| 0 <= i < ids.len() ==> climb(nodes, id, i as nat) == Some(
                    #[trigger] ids@[i],
                ),
                match current {
                    Some(k) => climbs(nodes, k, left) && climb(nodes, id, ids.len() as nat) == (
                    if nodes.contains_key(k) {
                        Some(k)
                    } else {
                        None
                    }),
                    None => climb(nodes, id, ids.len() as nat) is None,
                },
            decreases (if current is Some {
                left + 1
            } else {
                0
            }),
        {
            let k: u64 = current.unwrap();
            match self.nodes.get(k) {
                Some(node) => {
                    proof {
                        lemma_climb_next(nodes, id, ids.len() as nat);
                        if nodes[k].parent is Some {
                            left = (left - 1) as nat;
                        }
                    }
                    ids.push(k);
                    current = node.parent;
                },
                None => {
                    current = None;
                },
            }
        }
        proof {
            assert forall|k: NodeId| ids@.to_set().contains(k) <==> ancestors(nodes, id).contains(
                k,
            ) by {
                if ids@.contains(k) {
                    let i = choose|i: int| 0 <= i < ids.len() && ids@[i] == k;
                    assert(climb(nodes, id, i as nat) == Some(k));
                    assert(above(nodes, k, id));
                    lemma_above_present(nodes, k, id);
                }
                if above(nodes, k, id) {
                    let n = choose|n: nat| climb(nodes, id, n) == Some(k);
                    if n >= ids.len() {
                        lemma_climb_stops(nodes, id, ids.len() as nat, n);
                    }
                    assert(ids@[n as int] == k);
                    assert(ids@.contains(k));
                }
            }
            assert(ids@.to_set() =~= ancestors(nodes, id));
        }
        ids
    }

    /// Appends the ids of a subtree to `out`, a node before its children.
    fn collect_subtree(&self, id: NodeId, out: &mut Vec<NodeId>, Ghost(depth): Ghost<nat>)
        requires
            descends(self@.nodes, id, depth),
        ensures
            final(out)@.len() >= old(out)@.len(),
            final(out)@.take(old(out)@.len() as int) == old(out)@,
            forall|k: NodeId| #[trigger]
                final(out)@.contains(k) <==> old(out)@.contains(k) || below_within(
                    self@.nodes,
                    k,
                    id,
                    depth,
                ),
        decreases depth,
    {
        let ghost nodes = self@.nodes;
        let ghost before = out@;
        if let Some(node) = self.nodes.get(id) {
            out.push(id);
            let mut i: usize = 0;
            proof {
                assert(out@.take(before.len() as int) =~= before);
                assert forall|k: NodeId| #[trigger] out@.contains(k) <==> before.contains(k) || k
                    == id by {
                    if before.contains(k) {
                        let j = choose|j: int| 0 <= j < before.len() && before[j] == k;
                        assert(out@[j] == k);
                    }
                    assert(out@[before.len() as int] == id);
                }
            }
            while i < node.children.len()
                invariant
                    nodes == self@.nodes,
                    nodes.contains_key(id),
                    node@ == nodes[id],
                    descends(nodes, id, depth),
                    i <= node.children.len(),
                    out@.len() >= before.len(),
                    out@.take(before.len() as int) == before,
                    forall|k: NodeId| #[trigger]
                        out@.contains(k) <==> before.contains(k) || k == id || exists|j: int|
                            0 <= j < i && below_within(
                                nodes,
                                k,
                                (#[trigger] nodes[id].children[j]).id,
                                (depth - 1) as nat,
                            ),
                decreases node.children.len() - i,
            {
                let child: u64 = node.children[i].id;
                let ghost so_far = out@;
                proof {
                    assert(nodes[id].children[i as int].id == child);
                    assert(depth > 0 && descends(nodes, child, (depth - 1) as nat));
                }
                self.collect_subtree(child, out, Ghost((depth - 1) as nat));
                proof {
                    assert(out@.take(before.len() as int) =~= out@.take(so_far.len() as int).take(
                        before.len() as int,
                    ));
                    assert forall|k: NodeId| #[trigger]
                        out@.contains(k) <==> before.contains(k) || k == id || exists|j: int|
                            0 <= j < i + 1 && below_within(
                                nodes,
                                k,
                                (#[trigger] nodes[id].children[j]).id,
                                (depth - 1) as nat,
                            ) by {
                        assert(out@.contains(k) <==> so_far.contains(k) || below_within(
                            nodes,
                            k,
                            nodes[id].children[i as int].id,
                            (depth - 1) as nat,
                        ));
                        if so_far.contains(k) && !before.contains(k) && k != id {
                            let j = choose|j: int|
                                0 <= j < i && below_within(
                                    nodes,
                                    k,
                                    (#[trigger] nodes[id].children[j]).id,
                                    (depth - 1) as nat,
                                );
                            assert(0 <= j < i + 1);
                        }
                    }
                }
                i = i + 1;
            }
        } else {
            proof {
                assert(out@.take(before.len() as int) =~= before);
            }
        }
    }

    /// The ids of a node's subtree.
    pub(super) fn subtree_ids(&self, id: NodeId) -> (ids: Vec<NodeId>)
        requires
            descent_ends(self@.nodes, id),
        ensures
            ids@.to_set() == subtree(self@.nodes, id),
    {
        let ghost depth = choose|n: nat| descends(self@.nodes, id, n);
        let mut ids: Vec<NodeId> = Vec::new();
        self.collect_subtree(id, &mut ids, Ghost(depth));
        proof {
            let nodes = self@.nodes;
            assert forall|k: NodeId| ids@.to_set().contains(k) <==> subtree(nodes, id).contains(
                k,
            ) by {
                assert(ids@.contains(k) <==> below_within(nodes, k, id, depth));
                if below_within(nodes, k, id, depth) {
                    lemma_below_present(nodes, k, id, depth);
                    assert(below(nodes, k, id));
                }
                if below(nodes, k, id) {
                    let n = choose|n: nat| below_within(nodes, k, id, n);
                    lemma_below_bound(nodes, k, id, n, depth);
                }
            }
            assert(ids@.to_set() =~= subtree(nodes, id));
        }
        ids
    }

    /// Gives up the cached bounds of the nodes in `ids`.
    fn mark_bounds_dirty(&mut self, ids: &Vec<NodeId>)
        ensures
            final(self)@ == old(self)@.with_nodes(
                dirty_bounds(old(self)@.nodes, ids@.to_set()),
            ),
    {
        let mut i: usize = 0;
        proof {
            assert(dirty_bounds(self@.nodes, ids@.take(0).to_set()) =~= self@.nodes);
        }
        while i < ids.len()
            invariant
                i <= ids.len(),
                self@ == old(self)@.with_nodes(
                    dirty_bounds(old(self)@.nodes, ids@.take(i as int).to_set()),
                ),
            decreases ids.len() - i,
        {
            let id: u64 = ids[i];
            if let Some(node) = self.nodes.get_mut(id) {
                node.bounds_cache = None;
            }
            proof {
                lemma_take_set(ids@, i as int);
                assert(self@.nodes =~= dirty_bounds(old(self)@.nodes, ids@.take(i + 1).to_set()));
            }
            i = i + 1;
        }
        proof {
            assert(ids@.take(i as int) =~= ids@);
        }
    }

    /// Gives up what the nodes in `ids` have cached of their subtrees.
    fn mark_summaries_dirty(&mut self, ids: &Vec<NodeId>)
        ensures
            final(self)@ == old(self)@.with_nodes(
                dirty_summaries(old(self)@.nodes, ids@.to_set()),
            ),
    {
        let mut i: usize = 0;
        proof {
            assert(dirty_summaries(self@.nodes, ids@.take(0).to_set()) =~= self@.nodes);
        }
        while i < ids.len()
            invariant
                i <= ids.len(),
                self@ == old(self)@.with_nodes(
                    dirty_summaries(old(self)@.nodes, ids@.take(i as int).to_set()),
                ),
            decreases ids.len() - i,
        {
            let id: u64 = ids[i];
            if let Some(node) = self.nodes.get_mut(id) {
                node.bounds_cache = None;
                node.visibility_cache = None;
            }
            proof {
                lemma_take_set(ids@, i as int);
                assert(self@.nodes =~= dirty_summaries(
                    old(self)@.nodes,
                    ids@.take(i + 1).to_set(),
                ));
            }
            i = i + 1;
        }
        proof {
            assert(ids@.take(i as int) =~= ids@);
        }
    }

    /// The ids of a node and the nodes above it, each once, also where the links lead
    /// round in a circle.
    fn line_ids(&self, id: NodeId) -> (ids: Vec<NodeId>)
        requires
            self@.nodes.dom().finite(),
        ensures
            ids@.to_set() == ancestors(self@.nodes, id),
    {
        let ghost nodes = self@.nodes;
        let mut seen = IdSet::new();
        let mut ids: Vec<NodeId> = Vec::new();
        let mut current: Option<NodeId> = Some(id);
        while current.is_some()
            invariant
                nodes == self@.nodes,
                nodes.dom().finite(),
                seen@.finite(),
                seen@.subset_of(nodes.dom()),
                ids@.to_set() == seen@,
                forall|i: int| 0 <= i < ids.len() ==> climb(nodes, id, i as nat) == Some(
                    #[trigger] ids@[i],
                ),
                match current {
                    Some(k) => climb(nodes, id, ids.len() as nat) == (if nodes.contains_key(k) {
                        Some(k)
                    } else {
                        None
                    }),
                    None => match climb(nodes, id, ids.len() as nat) {
                        Some(k) => seen@.contains(k),
                        None => true,
                    },
                },
            decreases nodes.dom().difference(seen@).len(), (if current is Some {
                1nat
            } else {
                0nat
            }),
        {
            let k: u64 = current.unwrap();
            match self.nodes.get(k) {
                Some(node) => {
                    let ghost before = seen@;
                    if seen.insert(k) {
                        let ghost was = ids@;
                        ids.push(k);
                        current = node.parent;
                        proof {
                            lemma_climb_next(nodes, id, was.len());
                            assert(ids@.to_set() =~= seen@) by {
                                assert forall|x: NodeId| ids@.contains(x) <==> was.contains(x) || x
                                    == k by {
                                    if was.contains(x) {
                                        let j = choose|j: int| 0 <= j < was.len() && was[j] == x;
                                        assert(ids@[j] == x);
                                    }
                                    assert(ids@[was.len() as int] == k);
                                }
                                assert forall|x: NodeId| was.contains(x) <==> before.contains(x) by {
                                    assert(was.to_set().contains(x) == before.contains(x));
                                }
                            }
                            assert(nodes.dom().difference(seen@) =~= nodes.dom().difference(
                                before,
                            ).remove(k));
                            assert(nodes.dom().difference(before).contains(k));
                        }
                    } else {
                        current = None;
                        proof {
                            assert(seen@ =~= before);
                        }
                    }
                },
                None => {
                    current = None;
                },
            }
        }
        proof {
            assert forall|k: NodeId| ids@.to_set().contains(k) <==> ancestors(nodes, id).contains(
                k,
            ) by {
                if ids@.contains(k) {
                    let i = choose|i: int| 0 <= i < ids.len() && ids@[i] == k;
                    assert(climb(nodes, id, i as nat) == Some(k));
                    assert(above(nodes, k, id));
                    lemma_above_present(nodes, k, id);
                }
                if above(nodes, k, id) {
                    let n = choose|n: nat| climb(nodes, id, n) == Some(k);
                    lemma_line_closed(nodes, id, ids@, n);
                }
            }
            assert(ids@.to_set() =~= ancestors(nodes, id));
        }
        ids
    }

    /// Gives up what a parent and the nodes above it have cached of their subtrees.
    fn give_up_above(&mut self, parent: Option<NodeId>)
        requires
            old(self)@.nodes.dom().finite(),
        ensures
            final(self)@ == old(self)@.unsummed(parent),
    {
        match parent {
            Some(p) => {
                let ids = self.line_ids(p);
                self.mark_summaries_dirty(&ids);
            },
            None => {
                proof {
                    assert(dirty_summaries(self@.nodes, Set::empty()) =~= self@.nodes);
                    assert(self@ =~= self@.unsummed(parent));
                }
            },
        }
    }

    /// Gives up the cached transforms and bounds of the nodes in `ids`.
    pub(super) fn mark_transforms_dirty(&mut self, ids: &Vec<NodeId>)
        ensures
            final(self)@ == old(self)@.with_nodes(
                dirty_transforms(old(self)@.nodes, ids@.to_set()),
            ),
    {
        let mut i: usize = 0;
        proof {
            assert(dirty_transforms(self@.nodes, ids@.take(0).to_set()) =~= self@.nodes);
        }
        while i < ids.len()
            invariant
                i <= ids.len(),
                self@ == old(self)@.with_nodes(
                    dirty_transforms(old(self)@.nodes, ids@.take(i as int).to_set()),
                ),
            decreases ids.len() - i,
        {
            let id: u64 = ids[i];
            if let Some(node) = self.nodes.get_mut(id) {
                node.world_cache = None;
                node.bounds_cache = None;
            }
            proof {
                lemma_take_set(ids@, i as int);
                assert(self@.nodes =~= dirty_transforms(
                    old(self)@.nodes,
                    ids@.take(i + 1).to_set(),
                ));
            }
            i = i + 1;
        }
        proof {
            assert(ids@.take(i as int) =~= ids@);
        }
    }

    /// Gives up the cached effective visibility of the nodes in `ids`.
    fn mark_visibility_dirty(&mut self, ids: &Vec<NodeId>)
        ensures
            final(self)@ == old(self)@.with_nodes(
                dirty_visibility(old(self)@.nodes, ids@.to_set()),
            ),
    {
        let mut i: usize = 0;
        proof {
            assert(dirty_visibility(self@.nodes, ids@.take(0).to_set()) =~= self@.nodes);
        }
        while i < ids.len()
            invariant
                i <= ids.len(),
                self@ == old(self)@.with_nodes(
                    dirty_visibility(old(self)@.nodes, ids@.take(i as int).to_set()),
                ),
            decreases ids.len() - i,
        {
            let id: u64 = ids[i];
            if let Some(node) = self.nodes.get_mut(id) {
                node.visibility_cache = None;
            }
            proof {
                lemma_take_set(ids@, i as int);
                assert(self@.nodes =~= dirty_visibility(
                    old(self)@.nodes,
                    ids@.take(i + 1).to_set(),
                ));
            }
            i = i + 1;
        }
        proof {
            assert(ids@.take(i as int) =~= ids@);
        }
    }

    /// Makes the nodes in `ids` invisible.
    fn mark_hidden(&mut self, ids: &Vec<NodeId>)
        ensures
            final(self)@ == old(self)@.with_nodes(made_invisible(old(self)@.nodes, ids@.to_set())),
    {
        let mut i: usize = 0;
        proof {
            assert(made_invisible(self@.nodes, ids@.take(0).to_set()) =~= self@.nodes);
        }
        while i < ids.len()
            invariant
                i <= ids.len(),
                self@ == old(self)@.with_nodes(
                    made_invisible(old(self)@.nodes, ids@.take(i as int).to_set()),
                ),
            decreases ids.len() - i,
        {
            let id: u64 = ids[i];
            if let Some(node) = self.nodes.get_mut(id) {
                node.set_visibility(Visibility::Invisible);
            }
            proof {
                lemma_take_set(ids@, i as int);
                assert(self@.nodes =~= made_invisible(old(self)@.nodes, ids@.take(i + 1).to_set()));
            }
            i = i + 1;
        }
        proof {
            assert(ids@.take(i as int) =~= ids@);
        }
    }
}

impl SceneData {
    /// Gets a reference to a node by id.
    pub fn get_node(&self, id: NodeId) -> (found: Option<&Node>)
        ensures
            match found {
                Some(n) => self@.nodes.contains_key(id) && n@ == self@.nodes[id],
                None => !self@.nodes.contains_key(id),
            },
    {
        self.nodes.get(id)
    }

    /// The ids of all nodes, in no particular order.
    pub fn nodes(&self) -> (ids: Vec<NodeId>)
        ensures
            ids@.no_duplicates(),
            ids@.to_set() == self@.nodes.dom(),
    {
        self.nodes.keys()
    }

    /// Returns the number of nodes in the scene.
    pub fn node_count(&self) -> (n: usize)
        ensures
            n == self@.nodes.dom().len(),
    {
        self.nodes.len()
    }

    /// Returns true if a node with the given id exists in the scene.
    pub fn has_node(&self, id: NodeId) -> (yes: bool)
        ensures
            yes == self@.nodes.contains_key(id),
    {
        self.nodes.contains(id)
    }

    /// The ids of the root nodes, in order.
    pub fn root_nodes(&self) -> (ids: Vec<NodeId>)
        ensures
            ids@ == self@.roots.map_values(|h: Handle| h.id),
    {
        ids_of(&self.root_nodes)
    }

    /// An owning handle for an existing node.
    pub fn node_handle(&mut self, id: NodeId) -> (handle: Option<NodeHandle>)
        requires
            old(self)@.wf(),
            old(self)@.ledger.clock < u64::MAX,
        ensures
            handle == old(self)@.handle_of(ResourceKind::Node, id),
            final(self)@ == old(self)@.take_handle(ResourceKind::Node, id),
            final(self)@.wf(),
    {
        if self.nodes.contains(id) {
            Some(self.ledger.mint(id, ResourceKind::Node))
        } else {
            None
        }
    }

    /// Hangs a node without a parent below `parent`, or appends it to the roots.
    fn hang(&mut self, handle: NodeHandle, parent: Option<NodeId>)
        requires
            old(self)@.nodes.contains_key(handle.id),
            parent matches Some(p) ==> old(self)@.nodes.contains_key(p) && p != handle.id,
        ensures
            final(self)@ == old(self)@.hung(handle, parent),
    {
        match parent {
            Some(p) => {
                if let Some(node) = self.nodes.get_mut(handle.id) {
                    node.set_parent_unchecked(Some(p));
                }
                let ghost linked = self@.nodes;
                if let Some(node) = self.nodes.get_mut(p) {
                    node.add_child_unchecked(handle);
                }
                assert(self@.nodes =~= attached_nodes(old(self)@.nodes, handle, p));
            },
            None => {
                self.root_nodes.push(handle);
            },
        }
    }

    /// Adds a new node to the scene tree, returning its owning handle.
    ///
    /// The tree itself owns attached nodes, so the returned handle may be released
    /// freely; keep it for direct access or to own the node across a
    /// [`remove_node`](Self::remove_node). `id` must be fresh.
    pub fn add_node(
        &mut self,
        id: NodeId,
        parent: Option<NodeId>,
        name: Option<String>,
        transform: Transform,
        flags: NodeFlags,
    ) -> (added: Result<NodeHandle, SceneError>)
        requires
            old(self)@.wf(),
            old(self)@.ledger.clock + 2 <= u64::MAX,
            old(self)@.node_generation < u64::MAX,
            !old(self)@.nodes.contains_key(id),
        ensures
            match added {
                Ok(handle) => {
                    &&& parent matches Some(p) ==> old(self)@.nodes.contains_key(p)
                    &&& handle == old(self)@.ledger.minted(id)
                    &&& final(self)@ == old(self)@.add_node(
                        id,
                        parent,
                        opt_chars(name),
                        transform,
                        flags,
                    )
                },
                Err(error) => {
                    &&& parent matches Some(p) && !old(self)@.nodes.contains_key(p) && error
                        == SceneError::ParentNotFound(p)
                    &&& final(self)@ == old(self)@
                },
            },
            final(self)@.wf(),
            old(self)@.sound() && (forall|kind: ResourceKind| !#[trigger]
                old(self)@.present(kind, id)) ==> final(self)@.sound(),
    {
        if let Some(p) = parent {
            if !self.nodes.contains(p) {
                return Err(SceneError::ParentNotFound(p));
            }
        }
        let chars = Ghost(opt_chars(name));
        self.give_up_above(parent);
        proof {
            lemma_edits_keep_shape(
                old(self)@.nodes,
                line_above(old(self)@.nodes, parent),
            );
        }
        self.nodes.insert(id, Node::new(id, name, transform, flags));
        let handle = self.ledger.mint(id, ResourceKind::Node);
        let for_tree = self.ledger.retain(&handle);
        self.hang(for_tree, parent);
        self.node_generation = self.node_generation + 1;
        proof {
            assert(self@ =~= old(self)@.add_node(id, parent, chars@, transform, flags));
            assert(self@.wf()) by {
                assert(self@.nodes.dom() =~= old(self)@.nodes.dom().insert(id));
                assert forall|k: u64| #[trigger] self@.nodes.contains_key(
                    k,
                ) implies self@.nodes[k].id == k by {
                    if k != id {
                        assert(old(self)@.nodes.contains_key(k));
                    }
                }
            }
            if old(self)@.sound() && (forall|kind: ResourceKind| !#[trigger]
                old(self)@.present(kind, id)) {
                super::node_laws::add_node_keeps_sound(
                    old(self)@,
                    id,
                    parent,
                    chars@,
                    transform,
                    flags,
                );
            }
        }
        Ok(handle)
    }

    /// Adds a node with default transform (identity) and no flags.
    pub fn add_default_node(
        &mut self,
        id: NodeId,
        parent: Option<NodeId>,
        name: Option<String>,
    ) -> (added: Result<NodeHandle, SceneError>)
        requires
            old(self)@.wf(),
            old(self)@.ledger.clock + 2 <= u64::MAX,
            old(self)@.node_generation < u64::MAX,
            !old(self)@.nodes.contains_key(id),
        ensures
            match added {
                Ok(handle) => {
                    &&& parent matches Some(p) ==> old(self)@.nodes.contains_key(p)
                    &&& handle == old(self)@.ledger.minted(id)
                    &&& final(self)@ == old(self)@.add_node(
                        id,
                        parent,
                        opt_chars(name),
                        identity_transform(),
                        NodeFlags { bits: 0 },
                    )
                },
                Err(error) => {
                    &&& parent matches Some(p) && !old(self)@.nodes.contains_key(p) && error
                        == SceneError::ParentNotFound(p)
                    &&& final(self)@ == old(self)@
                },
            },
            final(self)@.wf(),
            old(self)@.sound() && (forall|kind: ResourceKind| !#[trigger]
                old(self)@.present(kind, id)) ==> final(self)@.sound(),
    {
        self.add_node(id, parent, name, Transform::identity(), NodeFlags::none())
    }

    /// Adds a new node with an instance attached.
    ///
    /// The instance is added in any case; when the parent is missing its handle is
    /// given up again, so that the next [`reap`](Self::reap) removes it.
    pub fn add_instance_node(
        &mut self,
        id: NodeId,
        parent: Option<NodeId>,
        instance: Instance,
        name: Option<String>,
        transform: Transform,
        flags: NodeFlags,
    ) -> (added: Result<NodeHandle, SceneError>)
        requires
            old(self)@.wf(),
            old(self)@.ledger.clock + 3 <= u64::MAX,
            old(self)@.node_generation < u64::MAX,
            !old(self)@.nodes.contains_key(id),
        ensures
            match added {
                Ok(handle) => {
                    &&& parent matches Some(p) ==> old(self)@.nodes.contains_key(p)
                    &&& handle == old(self)@.add_instance(instance@).ledger.minted(id)
                    &&& final(self)@ == old(self)@.add_instance_node(
                        id,
                        parent,
                        instance@,
                        opt_chars(name),
                        transform,
                        flags,
                    )
                },
                Err(error) => {
                    &&& parent matches Some(p) && !old(self)@.nodes.contains_key(p) && error
                        == SceneError::ParentNotFound(p)
                    &&& final(self)@ == old(self)@.failed_instance_node(instance@)
                },
            },
            final(self)@.wf(),
            old(self)@.sound() && (forall|kind: ResourceKind| !#[trigger]
                old(self)@.present(kind, id)) && id != instance@.id && old(self)@.id_open(
                ResourceKind::Instance,
                instance@.id,
            ) && old(self)@.holds_outside(instance@.handles()) ==> final(self)@.sound(),
    {
        let ghost m = old(self)@;
        let ghost chars = opt_chars(name);
        let ghost was = instance@;
        let payload = self.add_instance(instance);
        let ghost mid = self@;
        proof {
            super::laws::lemma_add_instance_clock(m, was);
        }
        match self.add_node(id, parent, name, transform, flags) {
            Err(error) => {
                self.ledger.release(payload);
                proof {
                    if m.sound() && (forall|kind: ResourceKind| !#[trigger] m.present(kind, id))
                        && id != was.id && m.id_open(ResourceKind::Instance, was.id)
                        && m.holds_outside(was.handles()) {
                        super::laws::add_instance_keeps_sound(m, was);
                        super::node_laws::lemma_give_up_sound(mid, payload);
                    }
                }
                Err(error)
            },
            Ok(handle) => {
                let ghost added = self@;
                if let Some(node) = self.nodes.get_mut(id) {
                    let nothing = node.set_payload(NodePayload::Instance(payload));
                }
                proof {
                    assert(self@ =~= m.add_instance_node(
                        id,
                        parent,
                        was,
                        chars,
                        transform,
                        flags,
                    ));
                    assert(self@.nodes.dom() =~= added.nodes.dom());
                    assert forall|k: u64| #[trigger] self@.nodes.contains_key(
                        k,
                    ) implies self@.nodes[k].id == k by {
                        assert(added.nodes.contains_key(k));
                    }
                    if m.sound() && (forall|kind: ResourceKind| !#[trigger] m.present(kind, id))
                        && id != was.id && m.id_open(ResourceKind::Instance, was.id)
                        && m.holds_outside(was.handles()) {
                        super::node_laws::add_instance_node_keeps_sound(
                            m,
                            id,
                            parent,
                            was,
                            chars,
                            transform,
                            flags,
                        );
                    }
                }
                Ok(handle)
            },
        }
    }

    /// Inserts a pre-built node under its own id, returning its owning handle.
    ///
    /// The node is attached under its recorded parent when that parent exists, or to
    /// the roots when it has none. With a recorded parent that is absent from the
    /// scene, the node stays detached: the returned handle is then its only owner.
    pub fn insert_node(&mut self, node: Node) -> (handle: NodeHandle)
        requires
            old(self)@.wf(),
            old(self)@.ledger.clock + 2 <= u64::MAX,
            old(self)@.node_generation < u64::MAX,
        ensures
            handle == old(self)@.without_node(node@.id).minted(node@.id),
            final(self)@ == old(self)@.insert_node(node@),
            final(self)@.wf(),
            old(self)@.sound() && old(self)@.insertable(node@) ==> final(self)@.sound(),
            old(self)@.tree() && old(self)@.unreferenced(node@.id) && node@.children.len() == 0
                && (node@.parent matches Some(p) ==> old(self)@.nodes.contains_key(p))
                ==> final(self)@.tree(),
    {
        let ghost model = node@;
        proof {
            let m = self@;
            if m.sound() && m.insertable(model) {
                super::node_laws::insert_node_keeps_sound(m, model);
            }
            if m.tree() && m.unreferenced(model.id) && model.children.len() == 0 && (model.parent
                is Some ==> m.nodes.contains_key(model.parent->0)) {
                super::node_laws::lemma_insert_tree(m, model);
            }
        }
        let id: u64 = node.id;
        let parent = node.parent;
        let mut node = node;
        node.world_cache = None;
        node.bounds_cache = None;
        node.visibility_cache = None;
        self.give_up_above(parent);
        proof {
            lemma_edits_keep_shape(
                old(self)@.nodes,
                line_above(old(self)@.nodes, parent),
            );
        }
        let replaced = self.nodes.insert(id, node);
        if let Some(old_one) = replaced {
            release_node(&mut self.ledger, old_one);
        }
        let handle = self.ledger.mint(id, ResourceKind::Node);
        match parent {
            None => {
                let for_tree = self.ledger.retain(&handle);
                self.root_nodes.push(for_tree);
            },
            Some(p) => {
                if self.nodes.contains(p) {
                    let for_tree = self.ledger.retain(&handle);
                    if let Some(parent_node) = self.nodes.get_mut(p) {
                        parent_node.add_child_unchecked(for_tree);
                    }
                }
            },
        }
        self.node_generation = self.node_generation + 1;
        proof {
            assert(self@ =~= old(self)@.insert_node(model));
            assert(self@.nodes.dom() =~= old(self)@.nodes.dom().insert(id));
            assert forall|k: u64| #[trigger] self@.nodes.contains_key(k) implies self@.nodes[k].id
                == k by {
                if k != id {
                    assert(old(self)@.nodes.contains_key(k));
                }
            }
        }
        handle
    }

    /// Takes a node from its parent or from the roots, handing back the handle the
    /// tree owned it by.
    fn detach(&mut self, id: NodeId) -> (handle: Option<NodeHandle>)
        requires
            old(self)@.nodes.dom().finite(),
            old(self)@.nodes.contains_key(id),
        ensures
            handle == old(self)@.tree_handle(id),
            final(self)@ == old(self)@.detach(id),
    {
        let ghost m = self@;
        proof {
            lemma_unhung(m, id);
        }
        let parent = match self.nodes.get(id) {
            Some(node) => node.parent,
            None => None,
        };
        let handle = match parent {
            Some(p) => {
                let mut handle: Option<NodeHandle> = None;
                if let Some(parent_node) = self.nodes.get_mut(p) {
                    handle = parent_node.take_child_unchecked(id);
                }
                if let Some(node) = self.nodes.get_mut(id) {
                    node.set_parent_unchecked(None);
                }
                handle
            },
            None => take_first(&mut self.root_nodes, id),
        };
        proof {
            assert(self@.nodes =~= m.unhung(id).nodes);
            assert(self@ =~= m.unhung(id));
        }
        let mut top: Vec<NodeHandle> = Vec::new();
        top.push(Handle::unbound(id));
        let (set, below) = self.mark_below(&top);
        proof {
            lemma_reached_from_one(self@.nodes, top@, id);
            assert(below@.to_set() =~= subtree(self@.nodes, id));
        }
        self.give_up_above(parent);
        self.mark_transforms_dirty(&below);
        handle
    }

    /// Detaches a node's subtree from the scene tree.
    ///
    /// The tree's ownership of the node is released: unless other handles for it
    /// exist, the node, its descendants and the resources they exclusively own are
    /// removed. A node kept alive by an outstanding handle survives detached, still
    /// in the scene but not rendered or traversed, and can be reattached with
    /// [`reparent_node`](Self::reparent_node).
    pub fn remove_node(&mut self, id: NodeId)
        requires
            old(self)@.wf(),
            old(self)@.node_generation + 1 + old(self)@.nodes.dom().len() <= u64::MAX,
        ensures
            final(self)@ == old(self)@.remove_node(id),
            final(self)@.wf(),
            old(self)@.sound() ==> final(self)@.sound(),
    {
        if !self.nodes.contains(id) {
            return ;
        }
        let ghost m = self@;
        proof {
            lemma_detach_wf(m, id);
            if m.sound() {
                super::node_laws::remove_node_keeps_sound(m, id);
            }
        }
        let handle = self.detach(id);
        self.ledger.release_opt(handle);
        self.node_generation = self.node_generation + 1;
        proof {
            assert(self@ =~= super::node_laws::let_go(m, id));
        }
        self.reap();
    }

    /// Moves a node under a new parent, or to the roots with `None`.
    ///
    /// Also reattaches a node that was detached by
    /// [`remove_node`](Self::remove_node) while a handle kept it alive. Fails if
    /// either node is missing or the move would create a cycle.
    pub fn reparent_node(&mut self, id: NodeId, new_parent: Option<NodeId>) -> (moved: Result<
        (),
        SceneError,
    >)
        requires
            old(self)@.wf(),
            new_parent matches Some(p) ==> climb_ends(old(self)@.nodes, p),
            old(self)@.ledger.clock < u64::MAX,
            old(self)@.node_generation < u64::MAX,
        ensures
            match moved {
                Ok(_) => {
                    &&& old(self)@.reparent_error(id, new_parent) is None
                    &&& final(self)@ == old(self)@.reparent_node(id, new_parent)
                },
                Err(error) => {
                    &&& old(self)@.reparent_error(id, new_parent) == Some(error)
                    &&& final(self)@ == old(self)@
                },
            },
            final(self)@.wf(),
            old(self)@.tree() ==> final(self)@.tree(),
            old(self)@.sound() ==> final(self)@.sound(),
    {
        let ghost m = self@;
        if !self.nodes.contains(id) {
            return Err(SceneError::NodeNotFound(id));
        }
        if let Some(p) = new_parent {
            if !self.nodes.contains(p) {
                return Err(SceneError::ParentNotFound(p));
            }
            if self.is_above(id, p) {
                return Err(SceneError::Cycle { node: id, parent: p });
            }
        }
        proof {
            lemma_detach_wf(m, id);
            if m.sound() {
                super::node_laws::reparent_keeps_sound(m, id, new_parent);
            }
            super::coherence::lemma_moved_id(m, id);
        }
        let taken = self.detach(id);
        proof {
            lemma_edits_keep_shape(self@.nodes, line_above(self@.nodes, new_parent));
        }
        self.give_up_above(new_parent);
        let handle = match taken {
            Some(handle) => handle,
            None => self.ledger.mint(id, ResourceKind::Node),
        };
        proof {
            assert(handle == m.moved_handle(id));
            if let Some(p) = new_parent {
                lemma_above_step(m.nodes, p, p);
            }
        }
        self.hang(handle, new_parent);
        self.node_generation = self.node_generation + 1;
        proof {
            assert(self@ =~= m.reparent_node(id, new_parent));
            assert(self@.nodes.dom() =~= m.nodes.dom());
            assert forall|k: u64| #[trigger] self@.nodes.contains_key(k) implies self@.nodes[k].id
                == k by {
                assert(m.nodes.contains_key(k));
            }
            if m.tree() {
                super::node_laws::lemma_reparent_tree(m, id, new_parent);
            }
        }
        Ok(())
    }

    /// Whether `a` is `id` or a node above it.
    fn is_above(&self, a: NodeId, id: NodeId) -> (yes: bool)
        requires
            climb_ends(self@.nodes, id),
        ensures
            yes == above(self@.nodes, a, id),
    {
        let ids = self.ancestor_ids(id);
        let mut i: usize = 0;
        while i < ids.len()
            invariant
                i <= ids.len(),
                ids@.to_set() == ancestors(self@.nodes, id),
                forall|j: int| 0 <= j < i ==> ids@[j] != a,
            decreases ids.len() - i,
        {
            if ids[i] == a {
                proof {
                    assert(ids@.contains(a));
                    assert(ids@.to_set().contains(a));
                }
                return true;
            }
            i = i + 1;
        }
        proof {
            if above(self@.nodes, a, id) {
                lemma_above_present(self@.nodes, a, id);
                assert(ids@.to_set().contains(a));
                assert(ids@.contains(a));
            }
        }
        false
    }

    /// Sets the payload of a node and invalidates the bounds above it. Does nothing
    /// if the node does not exist.
    pub fn set_node_payload(&mut self, id: NodeId, payload: NodePayload)
        requires
            old(self)@.wf(),
            climb_ends(old(self)@.nodes, id),
            old(self)@.node_generation < u64::MAX,
        ensures
            final(self)@ == old(self)@.set_node_payload(id, payload),
            final(self)@.wf(),
            old(self)@.sound() && old(self)@.holds_outside(
                crate::resource::material::opt_seq(payload.handle()),
            ) ==> final(self)@.sound(),
    {
        let ghost m = self@;
        let ghost new = payload;
        proof {
            if m.sound() && m.holds_outside(crate::resource::material::opt_seq(new.handle())) {
                super::node_laws::set_payload_keeps_sound(m, id, new);
            }
        }
        if !self.nodes.contains(id) {
            self.ledger.release_opt(payload.into_handle());
            return ;
        }
        let ids = self.ancestor_ids(id);
        if let Some(node) = self.nodes.get_mut(id) {
            let replaced = node.set_payload(payload);
            self.ledger.release_opt(replaced);
        }
        self.mark_bounds_dirty(&ids);
        self.node_generation = self.node_generation + 1;
        proof {
            lemma_above_step(m.nodes, id, id);
            assert(ancestors(m.nodes, id).contains(id));
            assert(self@.nodes =~= m.set_node_payload(id, new).nodes);
            assert(self@ =~= m.set_node_payload(id, new));
            assert(self@.nodes.dom() =~= m.nodes.dom());
            lemma_same_ids(m, self@);
        }
    }

    /// Sets the transform of a node and invalidates dependent caches. Does nothing
    /// if the node does not exist.
    pub fn set_node_transform(&mut self, id: NodeId, transform: Transform)
        requires
            old(self)@.wf(),
            climb_ends(old(self)@.nodes, id),
            descent_ends(old(self)@.nodes, id),
            old(self)@.node_generation < u64::MAX,
        ensures
            final(self)@ == old(self)@.set_node_transform(id, transform),
            final(self)@.wf(),
            old(self)@.sound() ==> final(self)@.sound(),
    {
        let ghost m = self@;
        if !self.nodes.contains(id) {
            return ;
        }
        let above_ids = self.ancestor_ids(id);
        let below_ids = self.subtree_ids(id);
        if let Some(node) = self.nodes.get_mut(id) {
            node.set_transform(transform);
        }
        self.mark_transforms_dirty(&below_ids);
        self.mark_bounds_dirty(&above_ids);
        self.node_generation = self.node_generation + 1;
        proof {
            lemma_above_step(m.nodes, id, id);
            assert(ancestors(m.nodes, id).contains(id));
            assert(below_within(m.nodes, id, id, 0));
            assert(subtree(m.nodes, id).contains(id));
            assert(self@.nodes =~= m.set_node_transform(id, transform).nodes);
            assert(self@ =~= m.set_node_transform(id, transform));
            assert(self@.nodes.dom() =~= m.nodes.dom());
            lemma_same_ids(m, self@);
            if m.sound() {
                super::node_laws::attributes_keep_sound(m, self@);
            }
        }
    }

    /// Sets the position of a node and invalidates dependent caches. Does nothing if
    /// the node does not exist.
    pub fn set_node_position(&mut self, id: NodeId, position: Point3)
        requires
            old(self)@.wf(),
            climb_ends(old(self)@.nodes, id),
            descent_ends(old(self)@.nodes, id),
            old(self)@.node_generation < u64::MAX,
        ensures
            final(self)@ == old(self)@.set_node_transform(
                id,
                (Transform { position, ..old(self)@.nodes[id].transform }),
            ),
            final(self)@.wf(),
            old(self)@.sound() ==> final(self)@.sound(),
    {
        if let Some(node) = self.nodes.get(id) {
            let mut transform: Transform = node.transform;
            transform.position = position;
            self.set_node_transform(id, transform);
        }
    }

    /// Sets the rotation of a node and invalidates dependent caches. Does nothing if
    /// the node does not exist.
    pub fn set_node_rotation(&mut self, id: NodeId, rotation: Quaternion)
        requires
            old(self)@.wf(),
            climb_ends(old(self)@.nodes, id),
            descent_ends(old(self)@.nodes, id),
            old(self)@.node_generation < u64::MAX,
        ensures
            final(self)@ == old(self)@.set_node_transform(
                id,
                (Transform { rotation, ..old(self)@.nodes[id].transform }),
            ),
            final(self)@.wf(),
            old(self)@.sound() ==> final(self)@.sound(),
    {
        if let Some(node) = self.nodes.get(id) {
            let mut transform: Transform = node.transform;
            transform.rotation = rotation;
            self.set_node_transform(id, transform);
        }
    }

    /// Sets the scale of a node and invalidates dependent caches. Does nothing if the
    /// node does not exist.
    pub fn set_node_scale(&mut self, id: NodeId, scale: Vector3)
        requires
            old(self)@.wf(),
            climb_ends(old(self)@.nodes, id),
            descent_ends(old(self)@.nodes, id),
            old(self)@.node_generation < u64::MAX,
        ensures
            final(self)@ == old(self)@.set_node_transform(
                id,
                (Transform { scale, ..old(self)@.nodes[id].transform }),
            ),
            final(self)@.wf(),
            old(self)@.sound() ==> final(self)@.sound(),
    {
        if let Some(node) = self.nodes.get(id) {
            let mut transform: Transform = node.transform;
            transform.scale = scale;
            self.set_node_transform(id, transform);
        }
    }

    /// Sets a node's render-presentation behavior, which inherits down the subtree.
    /// Does nothing if the node does not exist.
    pub fn set_node_display(&mut self, id: NodeId, display: DisplayBehavior)
        requires
            old(self)@.wf(),
            old(self)@.node_generation < u64::MAX,
        ensures
            final(self)@ == (if old(self)@.nodes.contains_key(id) {
                old(self)@.with_node(
                    id,
                    NodeModel { display, ..old(self)@.nodes[id] },
                ).bumped()
            } else {
                old(self)@
            }),
            final(self)@.wf(),
            old(self)@.sound() ==> final(self)@.sound(),
    {
        let ghost m = self@;
        if let Some(node) = self.nodes.get_mut(id) {
            node.display = display;
            self.node_generation = self.node_generation + 1;
        }
        proof {
            assert(self@.nodes.dom() =~= m.nodes.dom());
            lemma_same_ids(m, self@);
            if m.sound() {
                super::node_laws::attributes_keep_sound(m, self@);
            }
        }
    }

    /// Sets a node's name. Does nothing if the node does not exist.
    pub fn set_node_name(&mut self, id: NodeId, name: Option<String>)
        requires
            old(self)@.wf(),
            old(self)@.node_generation < u64::MAX,
        ensures
            final(self)@ == (if old(self)@.nodes.contains_key(id) {
                old(self)@.with_node(
                    id,
                    NodeModel { name: opt_chars(name), ..old(self)@.nodes[id] },
                ).bumped()
            } else {
                old(self)@
            }),
            final(self)@.wf(),
            old(self)@.sound() ==> final(self)@.sound(),
    {
        let ghost m = self@;
        if let Some(node) = self.nodes.get_mut(id) {
            node.name = name;
            self.node_generation = self.node_generation + 1;
        }
        proof {
            assert(self@.nodes.dom() =~= m.nodes.dom());
            lemma_same_ids(m, self@);
            if m.sound() {
                super::node_laws::attributes_keep_sound(m, self@);
            }
        }
    }

    /// Sets a node's behavior flags and invalidates the bounds above it. Does nothing
    /// if the node does not exist.
    pub fn set_node_flags(&mut self, id: NodeId, flags: NodeFlags)
        requires
            old(self)@.wf(),
            climb_ends(old(self)@.nodes, id),
            old(self)@.node_generation < u64::MAX,
        ensures
            final(self)@ == old(self)@.set_node_flags(id, flags),
            final(self)@.wf(),
            old(self)@.sound() ==> final(self)@.sound(),
    {
        let ghost m = self@;
        if !self.nodes.contains(id) {
            return ;
        }
        let ids = self.ancestor_ids(id);
        if let Some(node) = self.nodes.get_mut(id) {
            node.set_flags(flags);
        }
        self.mark_bounds_dirty(&ids);
        self.node_generation = self.node_generation + 1;
        proof {
            lemma_above_step(m.nodes, id, id);
            assert(ancestors(m.nodes, id).contains(id));
            assert(self@.nodes =~= m.set_node_flags(id, flags).nodes);
            assert(self@ =~= m.set_node_flags(id, flags));
            assert(self@.nodes.dom() =~= m.nodes.dom());
            lemma_same_ids(m, self@);
            if m.sound() {
                super::node_laws::attributes_keep_sound(m, self@);
            }
        }
    }

    /// Sets the visibility of a node and propagates invisibility to descendants.
    ///
    /// When setting to invisible, all descendants are also marked invisible. When
    /// setting to visible, only this node is changed.
    pub fn set_node_visibility(&mut self, id: NodeId, visibility: Visibility)
        requires
            old(self)@.wf(),
            climb_ends(old(self)@.nodes, id),
            descent_ends(old(self)@.nodes, id),
            old(self)@.node_generation < u64::MAX,
        ensures
            final(self)@ == old(self)@.set_node_visibility(id, visibility),
            final(self)@.wf(),
            old(self)@.sound() ==> final(self)@.sound(),
    {
        let ghost m = self@;
        let parent = match self.nodes.get(id) {
            Some(node) => node.parent,
            None => {
                return ;
            },
        };
        match visibility {
            Visibility::Visible => {
                let ids = self.ancestor_ids(id);
                if let Some(node) = self.nodes.get_mut(id) {
                    node.set_visibility(Visibility::Visible);
                }
                self.mark_visibility_dirty(&ids);
                proof {
                    lemma_above_step(m.nodes, id, id);
                    assert(ancestors(m.nodes, id).contains(id));
                    assert(self@.nodes =~= m.set_node_visibility(id, visibility).nodes);
                }
            },
            Visibility::Invisible => {
                let below_ids = self.subtree_ids(id);
                if let Some(p) = parent {
                    proof {
                        let n = choose|n: nat| climbs(m.nodes, id, n);
                        assert(climbs(m.nodes, p, (n - 1) as nat));
                    }
                    let above_ids = self.ancestor_ids(p);
                    self.mark_hidden(&below_ids);
                    self.mark_visibility_dirty(&above_ids);
                } else {
                    self.mark_hidden(&below_ids);
                }
                proof {
                    assert(self@.nodes =~= m.set_node_visibility(id, visibility).nodes);
                }
            },
        }
        self.node_generation = self.node_generation + 1;
        proof {
            assert(self@ =~= m.set_node_visibility(id, visibility));
            assert(self@.nodes.dom() =~= m.nodes.dom());
            lemma_same_ids(m, self@);
            if m.sound() {
                super::node_laws::attributes_keep_sound(m, self@);
            }
        }
    }

    /// Adds one light node below `camera`, giving its handle up to the tree.
    fn add_light_below(
        &mut self,
        id: NodeId,
        camera: NodeId,
        name: String,
        rotation: Quaternion,
        light: Light,
    )
        requires
            old(self)@.wf(),
            old(self)@.ledger.clock + 2 <= u64::MAX,
            old(self)@.node_generation + 2 <= u64::MAX,
            !old(self)@.nodes.contains_key(id),
            old(self)@.nodes.contains_key(camera),
        ensures
            final(self)@ == old(self)@.add_default_light(id, camera, name@, rotation, light),
            final(self)@.wf(),
            final(self)@.ledger.clock == old(self)@.ledger.clock + 2,
            final(self)@.node_generation == old(self)@.node_generation + 2,
            final(self)@.nodes.dom() == old(self)@.nodes.dom().insert(id),
            old(self)@.sound() && (forall|kind: ResourceKind| !#[trigger]
                old(self)@.present(kind, id)) ==> final(self)@.sound(),
    {
        let ghost m = self@;
        let ghost chars = name@;
        let mut transform = Transform::identity();
        transform.rotation = rotation;
        let added = self.add_node(id, Some(camera), Some(name), transform, NodeFlags::none());
        if let Ok(handle) = added {
            let ghost mid = self@;
            if let Some(node) = self.nodes.get_mut(id) {
                let nothing = node.set_payload(NodePayload::Light(light));
            }
            let ghost lit = self@;
            self.ledger.release(handle);
            self.node_generation = self.node_generation + 1;
            proof {
                assert(self@ =~= m.add_default_light(id, camera, chars, rotation, light));
                assert(mid.nodes.dom() =~= m.nodes.dom().insert(id));
                assert(self@.nodes.dom() =~= mid.nodes.dom());
                lemma_same_ids(mid, self@);
                super::laws::lemma_add_node_clock(m, id, handle);
                if m.sound() && (forall|kind: ResourceKind| !#[trigger] m.present(kind, id)) {
                    assert(lit.nodes.dom() =~= mid.nodes.dom());
                    super::node_laws::attributes_keep_sound(mid, lit);
                    super::node_laws::add_node_keeps_sound(
                        m,
                        id,
                        Some(camera),
                        Some(chars),
                        transform,
                        NodeFlags { bits: 0 },
                    );
                    assert(m.refs(handle.core->0) <= m.ledger.strong(handle.core->0));
                    assert(mid.outside(handle.core->0) == m.outside(handle.core->0) + 1);
                    assert(lit.outside(handle.core->0) == mid.outside(handle.core->0));
                    super::node_laws::lemma_give_up_sound(lit, handle);
                    let freed = lit.with_ledger(lit.ledger.release(handle));
                    super::node_laws::attributes_keep_sound(freed, self@);
                }
            }
        }
    }

    /// Adds a default key and fill directional light pair as children of
    /// `camera`, which must be in the scene. The key light comes from the upper-left
    /// corner; the fill from the lower-right corner. Both are expressed in camera space,
    /// where a node's direction is its -Z axis.
    pub fn set_default_light_nodes(
        &mut self,
        camera: NodeId,
        key_id: NodeId,
        fill_id: NodeId,
    )
        requires
            old(self)@.wf(),
            old(self)@.ledger.clock + 4 <= u64::MAX,
            old(self)@.node_generation + 4 <= u64::MAX,
            old(self)@.nodes.contains_key(camera),
            !old(self)@.nodes.contains_key(key_id),
            !old(self)@.nodes.contains_key(fill_id),
            key_id != fill_id,
        ensures
            final(self)@ == old(self)@.add_default_light(
                key_id,
                camera,
                "DefaultKeyLight"@,
                key_rotation(),
                Light::Directional {
                    color: RgbaColor { r: ONE, g: ONE, b: ONE, a: ONE },
                    intensity: ONE,
                },
            ).add_default_light(
                fill_id,
                camera,
                "DefaultFillLight"@,
                fill_rotation(),
                Light::Directional {
                    color: RgbaColor { r: ONE, g: ONE, b: ONE, a: ONE },
                    intensity: FILL_INTENSITY,
                },
            ),
            final(self)@.wf(),
            old(self)@.sound() && (forall|kind: ResourceKind|
                !#[trigger] old(self)@.present(kind, key_id)) && (forall|kind: ResourceKind|
                !#[trigger] old(self)@.present(kind, fill_id)) ==> final(self)@.sound(),
    {
        let ghost m = self@;
        let white = RgbaColor::white();
        self.add_light_below(
            key_id,
            camera,
            "DefaultKeyLight".to_string(),
            Quaternion {
                s: CORNER_SCALAR,
                v: Vector3 { x: CORNER_SIDE_NEGATED, y: CORNER_SIDE_NEGATED, z: CORNER_TWIST },
            },
            Light::directional(white, ONE),
        );
        proof {
            let mid = self@;
            if forall|kind: ResourceKind| !#[trigger] m.present(kind, fill_id) {
                assert forall|kind: ResourceKind| !#[trigger] mid.present(kind, fill_id) by {
                    assert(!m.present(kind, fill_id));
                    assert(mid.nodes.dom().contains(fill_id) == m.nodes.dom().contains(fill_id));
                }
            }
        }
        self.add_light_below(
            fill_id,
            camera,
            "DefaultFillLight".to_string(),
            Quaternion {
                s: CORNER_SCALAR,
                v: Vector3 { x: CORNER_SIDE, y: CORNER_SIDE, z: CORNER_TWIST },
            },
            Light::directional(white, FILL_INTENSITY),
        );
    }
}

/// Whether a node at or above `id` names `absent`, which is not there, as its parent.
pub open spec fn awaited_above(nodes: NodeMap, absent: NodeId, id: NodeId) -> bool {
    exists|k: NodeId| #[trigger] above(nodes, k, id) && nodes[k].parent == Some(absent)
}

/// A climb that ends still ends when a node is added that nothing on the way waits for.
pub proof fn lemma_added_climbs(a: NodeMap, b: NodeMap, id: NodeId, x: NodeId, n: nat)
    requires
        !a.contains_key(id),
        x != id,
        !awaited_above(a, id, x),
        climbs(a, x, n),
        b.dom() == a.dom().insert(id),
        forall|k: NodeId| #[trigger] a.contains_key(k) ==> b[k].parent == a[k].parent,
    ensures
        climbs(b, x, n),
    decreases n,
{
    assert(a.contains_key(x) == b.contains_key(x));
    if a.contains_key(x) && a[x].parent is Some {
        let p = a[x].parent->0;
        lemma_above_step(a, x, x);
        assert(above(a, x, x));
        assert(p != id);
        if awaited_above(a, id, p) {
            let k = choose|k: NodeId| #[trigger] above(a, k, p) && a[k].parent == Some(id);
            lemma_above_step(a, k, x);
            assert(above(a, k, x));
        }
        lemma_added_climbs(a, b, id, p, (n - 1) as nat);
    }
}

/// Once a climb comes to an end, or by a node that it came by before, it comes by no more
/// nodes.
proof fn lemma_line_closed(nodes: NodeMap, id: NodeId, ids: Seq<NodeId>, n: nat)
    requires
        forall|i: int| 0 <= i < ids.len() ==> climb(nodes, id, i as nat) == Some(#[trigger] ids[i]),
        climb(nodes, id, ids.len()) matches Some(k) ==> ids.contains(k),
    ensures
        climb(nodes, id, n) matches Some(k) ==> ids.contains(k),
    decreases n,
{
    if n < ids.len() {
        assert(ids.contains(ids[n as int]));
    } else if n > ids.len() {
        lemma_line_closed(nodes, id, ids, (n - 1) as nat);
        lemma_climb_next(nodes, id, (n - 1) as nat);
        if let Some(k) = climb(nodes, id, (n - 1) as nat) {
            let j = choose|j: int| 0 <= j < ids.len() && ids[j] == k;
            lemma_climb_next(nodes, id, j as nat);
            if j + 1 < ids.len() {
                assert(ids.contains(ids[j + 1]));
            }
        }
    }
}

/// What is reached from one node is its subtree.
proof fn lemma_reached_from_one(nodes: NodeMap, top: Seq<Handle>, id: NodeId)
    requires
        top.len() == 1,
        top[0].id == id,
    ensures
        forall|k: NodeId| #[trigger] reached(nodes, top, k) <==> subtree(nodes, id).contains(k),
{
    assert forall|k: NodeId| #[trigger] reached(nodes, top, k) <==> subtree(nodes, id).contains(
        k,
    ) by {
        if reached(nodes, top, k) {
            lemma_reached_present(nodes, top, k);
        }
        if below(nodes, k, id) {
            assert(below(nodes, k, top[0].id));
        }
    }
}

/// The ids that handles are for, in order.
pub(super) fn ids_of(handles: &Vec<Handle>) -> (ids: Vec<NodeId>)
    ensures
        ids@ == handles@.map_values(|h: Handle| h.id),
{
    let mut ids: Vec<NodeId> = Vec::new();
    let mut i: usize = 0;
    while i < handles.len()
        invariant
            i <= handles.len(),
            ids@ == handles@.take(i as int).map_values(|h: Handle| h.id),
        decreases handles.len() - i,
    {
        ids.push(handles[i].id);
        i = i + 1;
        assert(ids@ =~= handles@.take(i as int).map_values(|h: Handle| h.id));
    }
    proof {
        assert(handles@.take(i as int) =~= handles@);
    }
    ids
}

/// Nodes stay stored under their own ids when none is added and none renamed.
proof fn lemma_same_ids(m: SceneModel, after: SceneModel)
    requires
        m.wf(),
        after.nodes.dom() == m.nodes.dom(),
        forall|k: u64| #[trigger] m.nodes.contains_key(k) ==> after.nodes[k].id == m.nodes[k].id,
    ensures
        forall|k: u64| #[trigger] after.nodes.contains_key(k) ==> after.nodes[k].id == k,
{
    assert forall|k: u64| #[trigger] after.nodes.contains_key(k) implies after.nodes[k].id == k by {
        assert(m.nodes.contains_key(k));
    }
}

/// Taking a node from the tree cuts links and makes none.
pub proof fn lemma_unhung(m: SceneModel, id: NodeId)
    requires
        m.nodes.contains_key(id),
    ensures
        m.unhung(id).nodes.dom() == m.nodes.dom(),
        m.unhung(id).nodes[id].parent is None,
        forall|k: NodeId| #[trigger]
            m.unhung(id).nodes.contains_key(k) ==> m.nodes.contains_key(k) && m.unhung(
                id,
            ).nodes[k].id == m.nodes[k].id && (m.unhung(id).nodes[k].parent is None || m.unhung(
                id,
            ).nodes[k].parent == m.nodes[k].parent),
{
    assert(m.unhung(id).nodes.dom() =~= m.nodes.dom());
}

/// What detaching does beside cutting links touches caches alone.
pub proof fn lemma_detach_shape(m: SceneModel, id: NodeId)
    ensures
        same_shape(m.unhung(id).nodes, m.detach(id).nodes),
        same_shape(m.detach(id).nodes, m.unhung(id).nodes),
{
    let cut = m.unhung(id).nodes;
    let left = m.unhung(id).unsummed(m.nodes[id].parent).nodes;
    lemma_edits_keep_shape(cut, line_above(cut, m.nodes[id].parent));
    lemma_edits_keep_shape(left, subtree(cut, id));
    assert forall|k: NodeId| #[trigger] m.detach(id).nodes.contains_key(k) implies cut.contains_key(
        k,
    ) && cut[k].parent == m.detach(id).nodes[k].parent && cut[k].children == m.detach(
        id,
    ).nodes[k].children by {
        assert(left.contains_key(k));
    }
}

/// Detaching a node keeps the scene well-formed.
pub proof fn lemma_detach_wf(m: SceneModel, id: NodeId)
    requires
        m.wf(),
        m.nodes.contains_key(id),
    ensures
        m.detach(id).wf(),
        m.detach(id).nodes.dom() == m.nodes.dom(),
{
    let after = m.detach(id);
    lemma_unhung(m, id);
    assert(after.nodes.dom() =~= m.nodes.dom());
    assert forall|k: u64| #[trigger] after.nodes.contains_key(k) implies after.nodes[k].id == k by {
        assert(m.nodes.contains_key(k));
        assert(m.unhung(id).nodes.contains_key(k));
    }
}

proof fn lemma_take_set(ids: Seq<u64>, i: int)
    requires
        0 <= i < ids.len(),
    ensures
        forall|k: u64| #[trigger]
            ids.take(i + 1).to_set().contains(k) <==> ids.take(i).to_set().contains(k) || k
                == ids[i],
{
    let now = ids.take(i + 1);
    let was = ids.take(i);
    assert(now =~= was.push(ids[i]));
    assert forall|k: u64| #[trigger] now.to_set().contains(k) <==> was.to_set().contains(k) || k
        == ids[i] by {
        if was.contains(k) {
            let j = choose|j: int| 0 <= j < was.len() && was[j] == k;
            assert(now[j] == k);
        }
        assert(now[i] == ids[i]);
        if now.contains(k) && k != ids[i] {
            let j = choose|j: int| 0 <= j < now.len() && now[j] == k;
            assert(was[j] == k);
        }
    }
}

} // verus!
