//! Nodes of the scene tree.
//!
//! A node records its parent by id and owns its children and its payload instance
//! through handles. Next to what the author of a scene sets, a node keeps three
//! caches: its world transform, the bounds of its subtree and the effective
//! visibility of its subtree.

use super::display::DisplayBehavior;
use super::handle::{
    Handle, InstanceHandle, NodeHandle, NodeId, ResourceKind, SceneResource, Sealed,
};
use super::material::opt_seq;
use crate::camera::CameraProjection;
use crate::common::{Aabb, Matrix4, Transform};
use crate::light::Light;
use vstd::prelude::*;

verus! {

/// Whether a node's author wants it shown.
#[derive(Debug, Clone, Copy, PartialEq, Eq, Structural)]
pub enum Visibility {
    Visible,
    Invisible,
}

/// What of a node's subtree is shown.
#[derive(Debug, Clone, Copy, PartialEq, Eq, Structural)]
pub enum EffectiveVisibility {
    /// All of it.
    Visible,
    /// None of it.
    Invisible,
    /// The node itself, but not all of its descendants.
    Mixed,
}

/// Non-visual behavior of a node, as a set of bits.
#[derive(Debug, Clone, Copy, PartialEq, Eq, Structural)]
pub struct NodeFlags {
    pub bits: u32,
}

/// The node and its subtree cannot be picked.
pub const DO_NOT_SELECT: u32 = 1;

/// The node and its subtree do not count towards any bounds.
pub const DOES_NOT_CONTRIBUTE_BOUNDING: u32 = 2;

/// The node and its subtree are left out of exports.
pub const DO_NOT_EXPORT: u32 = 4;

impl NodeFlags {
    /// No special behavior.
    pub fn none() -> (flags: Self)
        ensures
            flags.bits == 0,
    {
        NodeFlags { bits: 0 }
    }

    /// The set of the given bits.
    pub fn of(bits: u32) -> (flags: Self)
        ensures
            flags.bits == bits,
    {
        NodeFlags { bits }
    }

    /// Whether every bit of `bits` is set.
    pub open spec fn has(self, bits: u32) -> bool {
        self.bits & bits == bits
    }

    /// Whether every bit of `bits` is set.
    pub fn contains(&self, bits: u32) -> (yes: bool)
        ensures
            yes == self.has(bits),
    {
        self.bits & bits == bits
    }
}

/// What a node is.
#[derive(Debug)]
pub enum NodePayload {
    /// A group.
    Empty,
    /// Geometry; the node owns the instance.
    Instance(InstanceHandle),
    /// A camera.
    Camera(CameraProjection),
    /// A light.
    Light(Light),
}

impl NodePayload {
    /// The handle this payload owns, if any.
    pub open spec fn handle(self) -> Option<Handle> {
        match self {
            NodePayload::Instance(h) => Some(h),
            _ => None,
        }
    }

    /// Takes the handle this payload owns out of it.
    pub fn into_handle(self) -> (handle: Option<Handle>)
        ensures
            handle == self.handle(),
    {
        match self {
            NodePayload::Instance(h) => Some(h),
            _ => None,
        }
    }
}

/// A node of the scene tree.
#[derive(Debug)]
pub struct Node {
    pub id: NodeId,
    pub name: Option<String>,
    /// A plain id: the direction from child to parent owns nothing.
    pub parent: Option<NodeId>,
    pub children: Vec<NodeHandle>,
    pub transform: Transform,
    pub flags: NodeFlags,
    pub visibility: Visibility,
    pub display: DisplayBehavior,
    pub payload: NodePayload,
    /// The cached world transform; `None` when dirty.
    pub world_cache: Option<Matrix4>,
    /// The cached bounds of the subtree; `None` when dirty. `Some(None)` says that
    /// there is no geometry.
    pub bounds_cache: Option<Option<Aabb>>,
    /// What is shown of the subtree, were it not for what is above; `None` when dirty.
    pub visibility_cache: Option<EffectiveVisibility>,
}

/// What a [`Node`] holds.
#[verifier::ext_equal]
pub struct NodeModel {
    pub id: NodeId,
    pub name: Option<Seq<char>>,
    pub parent: Option<NodeId>,
    pub children: Seq<Handle>,
    pub transform: Transform,
    pub flags: NodeFlags,
    pub visibility: Visibility,
    pub display: DisplayBehavior,
    pub payload: NodePayload,
    pub world_cache: Option<Matrix4>,
    pub bounds_cache: Option<Option<Aabb>>,
    pub visibility_cache: Option<EffectiveVisibility>,
}

impl Sealed for Node {

}

impl SceneResource for Node {
    open spec fn kind_spec() -> ResourceKind {
        ResourceKind::Node
    }

    fn kind() -> (kind: ResourceKind) {
        ResourceKind::Node
    }
}

/// The characters of an optional string.
pub open spec fn opt_chars(name: Option<String>) -> Option<Seq<char>> {
    match name {
        Some(s) => Some(s@),
        None => None,
    }
}

impl View for Node {
    type V = NodeModel;

    open spec fn view(&self) -> NodeModel {
        NodeModel {
            id: self.id,
            name: opt_chars(self.name),
            parent: self.parent,
            children: self.children@,
            transform: self.transform,
            flags: self.flags,
            visibility: self.visibility,
            display: self.display,
            payload: self.payload,
            world_cache: self.world_cache,
            bounds_cache: self.bounds_cache,
            visibility_cache: self.visibility_cache,
        }
    }
}

impl NodeModel {
    /// A fresh node with nothing attached and nothing cached.
    pub open spec fn fresh(
        id: NodeId,
        name: Option<Seq<char>>,
        transform: Transform,
        flags: NodeFlags,
    ) -> NodeModel {
        NodeModel {
            id,
            name,
            parent: None,
            children: Seq::empty(),
            transform,
            flags,
            visibility: Visibility::Visible,
            display: DisplayBehavior::ordinary(),
            payload: NodePayload::Empty,
            world_cache: None,
            bounds_cache: None,
            visibility_cache: None,
        }
    }

    /// The handles this node owns: its children, then its payload.
    pub open spec fn handles(self) -> Seq<Handle> {
        self.children + opt_seq(self.payload.handle())
    }

    /// Whether `id` is listed among the children.
    pub open spec fn lists(self, id: NodeId) -> bool {
        exists|i: int| 0 <= i < self.children.len() && (#[trigger] self.children[i]).id == id
    }

    /// The node without any cached bounds or visibility: what is left when its list
    /// of children changes.
    pub open spec fn with_children(self, children: Seq<Handle>) -> NodeModel {
        NodeModel { children, bounds_cache: None, visibility_cache: None, ..self }
    }

    /// The node as its author left it, with every cache emptied.
    pub open spec fn authored(self) -> NodeModel {
        NodeModel { world_cache: None, bounds_cache: None, visibility_cache: None, ..self }
    }
}

/// The position of the first handle for `id`.
pub open spec fn first_index(handles: Seq<Handle>, id: u64) -> int
    decreases handles.len(),
{
    if handles.len() == 0 {
        0
    } else if handles[0].id == id {
        0
    } else {
        1 + first_index(handles.skip(1), id)
    }
}

/// `handles` without the first one for `id`.
pub open spec fn without_first(handles: Seq<Handle>, id: u64) -> Seq<Handle> {
    if first_index(handles, id) < handles.len() {
        handles.remove(first_index(handles, id))
    } else {
        handles
    }
}

/// The first handle for `id`, if there is one.
pub open spec fn first_for(handles: Seq<Handle>, id: u64) -> Option<Handle> {
    if first_index(handles, id) < handles.len() {
        Some(handles[first_index(handles, id)])
    } else {
        None
    }
}

/// The first handle for `id` stands where the search says, and nowhere before.
pub proof fn lemma_first_index(handles: Seq<Handle>, id: u64)
    ensures
        0 <= first_index(handles, id) <= handles.len(),
        forall|i: int|
            0 <= i < first_index(handles, id) ==> (#[trigger] handles[i]).id != id,
        first_index(handles, id) < handles.len() ==> handles[first_index(handles, id)].id == id,
    decreases handles.len(),
{
    if handles.len() > 0 && handles[0].id != id {
        let rest = handles.skip(1);
        lemma_first_index(rest, id);
        assert forall|i: int| 0 <= i < first_index(handles, id) implies (#[trigger] handles[i]).id
            != id by {
            if i > 0 {
                assert(rest[i - 1] == handles[i]);
            }
        }
    }
}

proof fn lemma_first_index_from(handles: Seq<Handle>, id: u64, k: int)
    requires
        0 <= k <= handles.len(),
        forall|i: int| 0 <= i < k ==> (#[trigger] handles[i]).id != id,
        k < handles.len() ==> handles[k].id == id,
    ensures
        first_index(handles, id) == k,
{
    lemma_first_index(handles, id);
    let f = first_index(handles, id);
    if f < k {
        assert(handles[f].id != id);
    }
}

/// Takes the first handle for `id` out of a list, keeping the order of the others.
pub fn take_first(handles: &mut Vec<Handle>, id: u64) -> (taken: Option<Handle>)
    ensures
        taken == first_for(old(handles)@, id),
        final(handles)@ == without_first(old(handles)@, id),
{
    let mut i: usize = 0;
    while i < handles.len()
        invariant
            i <= handles.len(),
            handles@ == old(handles)@,
            forall|j: int| 0 <= j < i ==> (#[trigger] handles@[j]).id != id,
        decreases handles.len() - i,
    {
        if handles[i].id == id {
            proof {
                lemma_first_index_from(handles@, id, i as int);
            }
            let taken = handles.remove(i);
            return Some(taken);
        }
        i = i + 1;
    }
    proof {
        lemma_first_index_from(handles@, id, i as int);
    }
    None
}

impl Node {
    /// A visible node at the given pose, with no parent, children or payload.
    pub fn new(id: NodeId, name: Option<String>, transform: Transform, flags: NodeFlags) -> (node:
        Self)
        ensures
            node@ == NodeModel::fresh(id, opt_chars(name), transform, flags),
    {
        Node {
            id,
            name,
            parent: None,
            children: Vec::new(),
            transform,
            flags,
            visibility: Visibility::Visible,
            display: DisplayBehavior::default(),
            payload: NodePayload::Empty,
            world_cache: None,
            bounds_cache: None,
            visibility_cache: None,
        }
    }

    /// Records the parent.
    pub fn set_parent_unchecked(&mut self, parent: Option<NodeId>)
        ensures
            final(self)@ == (NodeModel { parent, ..old(self)@ }),
    {
        self.parent = parent;
    }

    /// Appends a child.
    pub fn add_child_unchecked(&mut self, child: NodeHandle)
        ensures
            final(self)@ == old(self)@.with_children(old(self)@.children.push(child)),
    {
        self.children.push(child);
        self.bounds_cache = None;
        self.visibility_cache = None;
    }

    /// Takes the first child with the given id out of the list.
    pub fn take_child_unchecked(&mut self, id: NodeId) -> (child: Option<NodeHandle>)
        ensures
            child == first_for(old(self)@.children, id),
            final(self)@ == old(self)@.with_children(without_first(old(self)@.children, id)),
    {
        let child = take_first(&mut self.children, id);
        self.bounds_cache = None;
        self.visibility_cache = None;
        child
    }

    /// The ids of the children, in order.
    pub fn child_ids(&self) -> (ids: Vec<NodeId>)
        ensures
            ids.len() == self.children.len(),
            forall|i: int| 0 <= i < ids.len() ==> (#[trigger] ids@[i]) == self.children@[i].id,
    {
        let mut ids: Vec<NodeId> = Vec::new();
        let mut i: usize = 0;
        while i < self.children.len()
            invariant
                i <= self.children.len(),
                ids.len() == i,
                forall|j: int| 0 <= j < i ==> (#[trigger] ids@[j]) == self.children@[j].id,
            decreases self.children.len() - i,
        {
            ids.push(self.children[i].id);
            i = i + 1;
        }
        ids
    }

    /// Sets the payload, handing back the handle of the one it replaces. The
    /// subtree's bounds turn dirty.
    pub fn set_payload(&mut self, payload: NodePayload) -> (replaced: Option<Handle>)
        ensures
            replaced == old(self)@.payload.handle(),
            final(self)@ == (NodeModel { payload, bounds_cache: None, ..old(self)@ }),
    {
        let mut other = payload;
        std::mem::swap(&mut self.payload, &mut other);
        self.bounds_cache = None;
        other.into_handle()
    }

    /// Sets the local transform. World transform and bounds turn dirty.
    pub fn set_transform(&mut self, transform: Transform)
        ensures
            final(self)@ == (NodeModel {
                transform,
                world_cache: None,
                bounds_cache: None,
                ..old(self)@
            }),
    {
        self.transform = transform;
        self.world_cache = None;
        self.bounds_cache = None;
    }

    /// Sets the authored visibility. The effective visibility turns dirty.
    pub fn set_visibility(&mut self, visibility: Visibility)
        ensures
            final(self)@ == (NodeModel { visibility, visibility_cache: None, ..old(self)@ }),
    {
        self.visibility = visibility;
        self.visibility_cache = None;
    }

    /// Sets the behavior flags. The subtree's bounds turn dirty.
    pub fn set_flags(&mut self, flags: NodeFlags)
        ensures
            final(self)@ == (NodeModel { flags, bounds_cache: None, ..old(self)@ }),
    {
        self.flags = flags;
        self.bounds_cache = None;
    }
}

/// Flags are set one by one: two of them are set together if and only if each is.
pub proof fn node_flags_are_set_one_by_one(flags: NodeFlags, a: u32, b: u32)
    ensures
        flags.has(a | b) <==> flags.has(a) && flags.has(b),
        flags.has(flags.bits),
        (NodeFlags { bits: 0 }).has(a) ==> a == 0,
{
    let bits = flags.bits;
    assert(bits & (a | b) == (a | b) <==> bits & a == a && bits & b == b) by (bit_vector);
    assert(bits & bits == bits) by (bit_vector);
    assert(0u32 & a == a ==> a == 0) by (bit_vector);
}

} // verus!
