//! Reference-counted owning handles for scene resources.
//!
//! A [`Handle`] keeps its resource alive: the scene's own references (an
//! instance's mesh, a node's children) are handles too, so a resource is removed
//! exactly when the last handle for it is released. Removal is deferred: the
//! release that takes a count to zero enqueues the resource, and the scene drains
//! the queue, with cascade, when it reaps.
//!
//! The counts live in a [`Ledger`]. Each live resource has one *core* there, which
//! all handles for it share; minting a handle for an id that has a live core joins
//! that core. A handle whose core the ledger does not know is *inert*: it keeps
//! nothing alive and releasing it does nothing.

use crate::id_map::IdMap;
use std::collections::VecDeque;
use vstd::prelude::*;

verus! {

/// The id of a resource of any kind.
pub type GenericId = u64;

/// The id of a mesh.
pub type MeshId = u64;

/// The id of an instance.
pub type InstanceId = u64;

/// The id of a node.
pub type NodeId = u64;

/// The id of a face material.
pub type FaceMaterialId = u64;

/// The id of a line material.
pub type LineMaterialId = u64;

/// The id of a point material.
pub type PointMaterialId = u64;

/// The id of a texture.
pub type TextureId = u64;

/// The id of an environment map.
pub type EnvironmentMapId = u64;

/// Which scene collection a resource lives in.
#[derive(Debug, Clone, Copy, PartialEq, Eq, Hash, Structural)]
pub enum ResourceKind {
    Mesh,
    Instance,
    Node,
    FaceMaterial,
    LineMaterial,
    PointMaterial,
    Texture,
}

/// Marks the types that may live in a scene collection.
pub trait Sealed {

}

/// A resource type that lives in a scene collection and can be held by a
/// [`Handle`].
pub trait SceneResource: Sealed {
    /// The collection this resource lives in.
    spec fn kind_spec() -> ResourceKind;

    /// The collection this resource lives in.
    fn kind() -> (kind: ResourceKind)
        ensures
            kind == Self::kind_spec(),
    ;
}

/// An owning reference to a scene resource.
///
/// Handles are moved, not copied: [`Ledger::retain`] makes another one and counts
/// it, and [`Ledger::release`] gives one up. The scene's own references are
/// handles too, so ownership chains: an instance owns its mesh and materials, a
/// material owns its textures, a node owns its payload instance and its children,
/// and the scene's root list owns the root nodes.
#[derive(Debug)]
pub struct Handle {
    /// The core this handle counts on; `None` for a handle of no scene.
    pub core: Option<u64>,
    /// The resource's id. Ids suit map keys; unlike the handle they carry no
    /// ownership.
    pub id: GenericId,
}

/// An owning reference to a mesh.
pub type MeshHandle = Handle;

/// An owning reference to an instance.
pub type InstanceHandle = Handle;

/// An owning reference to a node.
pub type NodeHandle = Handle;

/// An owning reference to a face material.
pub type FaceMaterialHandle = Handle;

/// An owning reference to a line material.
pub type LineMaterialHandle = Handle;

/// An owning reference to a point material.
pub type PointMaterialHandle = Handle;

/// An owning reference to a texture.
pub type TextureHandle = Handle;

impl Handle {
    /// The resource's id.
    pub fn id(&self) -> (id: GenericId)
        ensures
            id == self.id,
    {
        self.id
    }

    /// A handle not connected to any scene.
    ///
    /// Carries only the id: it keeps nothing alive. Used when assembling resources
    /// outside a scene; [`SceneData::rebind`](crate::data::SceneData::rebind)
    /// replaces such handles with live ones.
    pub fn unbound(id: GenericId) -> (handle: Self)
        ensures
            handle == (Handle { core: None, id }),
    {
        Handle { core: None, id }
    }

    /// Equality of handles is equality of the resources they are for.
    pub fn same_resource(&self, other: &Handle) -> (same: bool)
        ensures
            same == (self.id == other.id),
    {
        self.id == other.id
    }
}

/// One per live resource: what the resource is, and how many handles there are.
#[derive(Debug, Clone, Copy, PartialEq, Eq, Structural)]
pub struct HandleCore {
    pub id: GenericId,
    pub kind: ResourceKind,
    pub strong: u64,
}

impl View for HandleCore {
    type V = HandleCore;

    open spec fn view(&self) -> HandleCore {
        *self
    }
}

/// How many handles of `handles` count on core `c`.
pub open spec fn count_core(handles: Seq<Handle>, c: u64) -> nat
    decreases handles.len(),
{
    if handles.len() == 0 {
        0
    } else {
        count_core(handles.drop_last(), c) + count_one(handles.last(), c)
    }
}

/// Whether `handle` counts on core `c`, as a number.
pub open spec fn count_one(handle: Handle, c: u64) -> nat {
    if handle.core == Some(c) {
        1
    } else {
        0
    }
}

/// What a [`Ledger`] records.
#[verifier::ext_equal]
pub struct LedgerModel {
    /// The live cores: those that at least one handle counts on.
    pub cores: Map<u64, HandleCore>,
    /// The canonical core of each resource id. An entry whose core is not live is
    /// stale and means nothing.
    pub slots: Map<GenericId, u64>,
    /// The resources whose last handle was released and that were not reaped yet,
    /// oldest first.
    pub dropped: Seq<(ResourceKind, GenericId)>,
    /// The number of handles ever made; also the next core to use.
    pub clock: u64,
}

impl LedgerModel {
    /// A ledger that records nothing.
    pub open spec fn empty() -> LedgerModel {
        LedgerModel {
            cores: Map::empty(),
            slots: Map::empty(),
            dropped: Seq::empty(),
            clock: 0,
        }
    }

    /// Counts are positive, no larger than the number of handles ever made, and
    /// cores are older than the clock, also those that slots still name.
    pub open spec fn wf(self) -> bool {
        &&& self.cores.dom().finite()
        &&& forall|id: GenericId| #[trigger]
            self.slots.contains_key(id) ==> self.slots[id] < self.clock
        &&& forall|c: u64| #[trigger]
            self.cores.contains_key(c) ==> c < self.clock && 1 <= self.cores[c].strong
                <= self.clock
    }

    /// The number of handles that count on core `c`.
    pub open spec fn strong(self, c: u64) -> nat {
        if self.cores.contains_key(c) {
            self.cores[c].strong as nat
        } else {
            0
        }
    }

    /// True when some handle for `id`'s canonical core exists.
    pub open spec fn slot_live(self, id: GenericId) -> bool {
        self.slots.contains_key(id) && self.cores.contains_key(self.slots[id])
    }

    /// The core that a handle minted for `id` counts on.
    pub open spec fn core_for(self, id: GenericId) -> u64 {
        if self.slot_live(id) {
            self.slots[id]
        } else {
            self.clock
        }
    }

    /// The handle that [`LedgerModel::mint`] hands out.
    pub open spec fn minted(self, id: GenericId) -> Handle {
        Handle { core: Some(self.core_for(id)), id }
    }

    /// After one more handle for `id`: it joins the live canonical core, or starts
    /// a fresh one.
    pub open spec fn mint(self, id: GenericId, kind: ResourceKind) -> LedgerModel {
        if self.slot_live(id) {
            self.count_up(self.slots[id])
        } else {
            LedgerModel {
                cores: self.cores.insert(self.clock, HandleCore { id, kind, strong: 1 }),
                slots: self.slots.insert(id, self.clock),
                clock: (self.clock + 1) as u64,
                ..self
            }
        }
    }

    /// After one more handle on the live core `c`.
    pub open spec fn count_up(self, c: u64) -> LedgerModel {
        LedgerModel {
            cores: self.cores.insert(
                c,
                HandleCore { strong: (self.cores[c].strong + 1) as u64, ..self.cores[c] },
            ),
            clock: (self.clock + 1) as u64,
            ..self
        }
    }

    /// True when `handle` counts on a live core.
    pub open spec fn is_live(self, handle: Handle) -> bool {
        handle.core is Some && self.cores.contains_key(handle.core->0)
    }

    /// After one more handle like `handle`.
    pub open spec fn retain(self, handle: Handle) -> LedgerModel {
        if self.is_live(handle) {
            self.count_up(handle.core->0)
        } else {
            self
        }
    }

    /// After giving up one handle on the live core `c`: the core's last handle
    /// takes the core with it and enqueues the resource.
    pub open spec fn count_down(self, c: u64) -> LedgerModel {
        if self.cores[c].strong > 1 {
            LedgerModel {
                cores: self.cores.insert(
                    c,
                    HandleCore { strong: (self.cores[c].strong - 1) as u64, ..self.cores[c] },
                ),
                ..self
            }
        } else {
            LedgerModel {
                cores: self.cores.remove(c),
                dropped: self.dropped.push((self.cores[c].kind, self.cores[c].id)),
                ..self
            }
        }
    }

    /// After giving up `handle`.
    pub open spec fn release(self, handle: Handle) -> LedgerModel {
        if self.is_live(handle) {
            self.count_down(handle.core->0)
        } else {
            self
        }
    }

    /// After giving up `handle`, if there is one.
    pub open spec fn release_opt(self, handle: Option<Handle>) -> LedgerModel {
        match handle {
            Some(h) => self.release(h),
            None => self,
        }
    }

    /// After giving up all of `handles`, first to last.
    pub open spec fn release_all(self, handles: Seq<Handle>) -> LedgerModel
        decreases handles.len(),
    {
        if handles.len() == 0 {
            self
        } else {
            self.release_all(handles.drop_last()).release(handles.last())
        }
    }

    /// After taking the oldest entry out of the queue.
    pub open spec fn without_oldest(self) -> LedgerModel {
        LedgerModel { dropped: self.dropped.skip(1), ..self }
    }

    /// After forgetting the canonical core of `id`: handles for it turn inert.
    pub open spec fn forget(self, id: GenericId) -> LedgerModel {
        LedgerModel { slots: self.slots.remove(id), ..self }
    }

    /// An upper bound on the steps that draining the queue can take. A core that
    /// dies becomes one queue entry, and entries are worth less than cores.
    pub open spec fn drain_bound(self) -> nat {
        2 * self.cores.dom().len() + self.dropped.len()
    }
}

/// The books on every handle of one scene.
pub struct Ledger {
    cores: IdMap<HandleCore>,
    slots: IdMap<u64>,
    dropped: VecDeque<(ResourceKind, GenericId)>,
    clock: u64,
}

impl View for Ledger {
    type V = LedgerModel;

    closed spec fn view(&self) -> LedgerModel {
        LedgerModel {
            cores: self.cores@,
            slots: self.slots@,
            dropped: self.dropped@,
            clock: self.clock,
        }
    }
}

impl Ledger {
    /// A ledger that records nothing.
    pub fn new() -> (ledger: Self)
        ensures
            ledger@ == LedgerModel::empty(),
            ledger@.wf(),
    {
        Ledger { cores: IdMap::new(), slots: IdMap::new(), dropped: VecDeque::new(), clock: 0 }
    }

    /// An empty ledger whose cores are numbered from `clock` on.
    pub fn from_clock(clock: u64) -> (ledger: Self)
        ensures
            ledger@ == (LedgerModel { clock, ..LedgerModel::empty() }),
            ledger@.wf(),
    {
        Ledger { cores: IdMap::new(), slots: IdMap::new(), dropped: VecDeque::new(), clock }
    }

    /// The number that the next core gets.
    pub fn now(&self) -> (clock: u64)
        ensures
            clock == self@.clock,
    {
        self.clock
    }

    /// How many more handles can be made before the counters run out.
    pub fn room(&self) -> (room: u64)
        ensures
            room == u64::MAX - self@.clock,
    {
        u64::MAX - self.clock
    }

    /// Makes a handle for `id`, sharing the count of every existing handle for it.
    pub fn mint(&mut self, id: GenericId, kind: ResourceKind) -> (handle: Handle)
        requires
            old(self)@.wf(),
            old(self)@.clock < u64::MAX,
        ensures
            handle == old(self)@.minted(id),
            final(self)@ == old(self)@.mint(id, kind),
            final(self)@.wf(),
            final(self)@.clock == old(self)@.clock + 1,
    {
        if let Some(slot) = self.slots.get(id) {
            let c: u64 = *slot;
            if let Some(core) = self.cores.get(c) {
                let raised = HandleCore { id: core.id, kind: core.kind, strong: core.strong + 1 };
                self.cores.insert(c, raised);
                self.clock = self.clock + 1;
                return Handle { core: Some(c), id };
            }
        }
        let c: u64 = self.clock;
        self.cores.insert(c, HandleCore { id, kind, strong: 1 });
        self.slots.insert(id, c);
        self.clock = self.clock + 1;
        Handle { core: Some(c), id }
    }

    /// Makes another handle like `handle`. The copy of an inert handle is inert.
    pub fn retain(&mut self, handle: &Handle) -> (copy: Handle)
        requires
            old(self)@.wf(),
            old(self)@.clock < u64::MAX,
        ensures
            copy == *handle,
            final(self)@ == old(self)@.retain(*handle),
            final(self)@.wf(),
    {
        if let Some(c) = handle.core {
            if let Some(core) = self.cores.get(c) {
                let raised = HandleCore { id: core.id, kind: core.kind, strong: core.strong + 1 };
                self.cores.insert(c, raised);
                self.clock = self.clock + 1;
            }
        }
        Handle { core: handle.core, id: handle.id }
    }

    /// Gives `handle` up. When it was the last on its core, the resource is
    /// enqueued for removal.
    pub fn release(&mut self, handle: Handle)
        requires
            old(self)@.wf(),
        ensures
            final(self)@ == old(self)@.release(handle),
            final(self)@.wf(),
            final(self)@.clock == old(self)@.clock,
            final(self)@.slots == old(self)@.slots,
            final(self)@.drain_bound() <= old(self)@.drain_bound(),
    {
        self.give_up(&handle);
    }

    /// Counts `handle` out. The caller drops the handle itself.
    fn give_up(&mut self, handle: &Handle)
        requires
            old(self)@.wf(),
        ensures
            final(self)@ == old(self)@.release(*handle),
            final(self)@.wf(),
            final(self)@.clock == old(self)@.clock,
            final(self)@.slots == old(self)@.slots,
            final(self)@.drain_bound() <= old(self)@.drain_bound(),
    {
        if let Some(c) = handle.core {
            if let Some(core) = self.cores.get(c) {
                let core: HandleCore = *core;
                if core.strong > 1 {
                    let lowered = HandleCore {
                        id: core.id,
                        kind: core.kind,
                        strong: core.strong - 1,
                    };
                    self.cores.insert(c, lowered);
                    assert(self@.cores.dom() =~= old(self)@.cores.dom());
                } else {
                    self.cores.remove(c);
                    self.dropped.push_back((core.kind, core.id));
                }
            }
        }
    }

    /// Gives `handle` up, if there is one.
    pub fn release_opt(&mut self, handle: Option<Handle>)
        requires
            old(self)@.wf(),
        ensures
            final(self)@ == old(self)@.release_opt(handle),
            final(self)@.wf(),
            final(self)@.clock == old(self)@.clock,
            final(self)@.slots == old(self)@.slots,
            final(self)@.drain_bound() <= old(self)@.drain_bound(),
    {
        if let Some(h) = handle {
            self.release(h);
        }
    }

    /// Gives all of `handles` up, first to last.
    pub fn release_all(&mut self, handles: Vec<Handle>)
        requires
            old(self)@.wf(),
        ensures
            final(self)@ == old(self)@.release_all(handles@),
            final(self)@.wf(),
            final(self)@.clock == old(self)@.clock,
            final(self)@.slots == old(self)@.slots,
            final(self)@.drain_bound() <= old(self)@.drain_bound(),
    {
        let mut i: usize = 0;
        while i < handles.len()
            invariant
                i <= handles.len(),
                self@ == old(self)@.release_all(handles@.take(i as int)),
                self@.wf(),
                self@.clock == old(self)@.clock,
                self@.slots == old(self)@.slots,
                self@.drain_bound() <= old(self)@.drain_bound(),
            decreases handles.len() - i,
        {
            proof {
                assert(handles@.take(i + 1).drop_last() =~= handles@.take(i as int));
            }
            self.give_up(&handles[i]);
            i = i + 1;
        }
        proof {
            assert(handles@.take(i as int) =~= handles@);
        }
    }

    /// Forgets the canonical core of `id`, turning its handles inert.
    pub fn forget(&mut self, id: GenericId)
        requires
            old(self)@.wf(),
        ensures
            final(self)@ == old(self)@.forget(id),
            final(self)@.wf(),
    {
        self.slots.remove(id);
        assert forall|x: GenericId| #[trigger] self@.slots.contains_key(x) implies self@.slots[x]
            < self@.clock by {
            assert(old(self)@.slots.contains_key(x));
        }
    }

    /// True when some handle for `id`'s canonical core exists.
    pub fn slot_live(&self, id: GenericId) -> (live: bool)
        ensures
            live == self@.slot_live(id),
    {
        match self.slots.get(id) {
            Some(c) => self.cores.contains(*c),
            None => false,
        }
    }

    /// The number of handles on `handle`'s core; zero for an inert handle.
    pub fn strong_count(&self, handle: &Handle) -> (n: u64)
        ensures
            n == (match handle.core {
                Some(c) => self@.strong(c),
                None => 0,
            }),
    {
        match handle.core {
            Some(c) => match self.cores.get(c) {
                Some(core) => core.strong,
                None => 0,
            },
            None => 0,
        }
    }

    /// Takes the oldest entry out of the queue of resources to remove.
    pub fn pop_dropped(&mut self) -> (entry: Option<(ResourceKind, GenericId)>)
        requires
            old(self)@.wf(),
        ensures
            final(self)@.wf(),
            match entry {
                Some(e) => old(self)@.dropped.len() > 0 && e == old(self)@.dropped[0]
                    && final(self)@ == old(self)@.without_oldest(),
                None => old(self)@.dropped.len() == 0 && final(self)@ == old(self)@,
            },
    {
        let entry = self.dropped.pop_front();
        proof {
            if entry is Some {
                assert(self.dropped@ =~= old(self)@.dropped.skip(1));
                assert(self@ == old(self)@.without_oldest());
            } else {
                assert(self@ == old(self)@);
            }
            assert(self@.slots == old(self)@.slots);
            assert(self@.cores == old(self)@.cores);
        }
        entry
    }

    /// Forgets every canonical core and every pending removal.
    pub fn forget_all(&mut self)
        requires
            old(self)@.wf(),
        ensures
            final(self)@ == (LedgerModel {
                slots: Map::empty(),
                dropped: Seq::empty(),
                ..old(self)@
            }),
            final(self)@.wf(),
    {
        self.slots.clear();
        self.dropped.clear();
    }
}

/// A handle that is minted for a resource is live and counts on that resource: it joins the
/// handles that there are for it, if there are any, and adds one to their number. The
/// number of no other handles changes, and nothing is dropped.
pub proof fn minted_handles_count(l: LedgerModel, id: GenericId, kind: ResourceKind, c: u64)
    requires
        l.wf(),
        l.clock < u64::MAX,
    ensures
        ({
            let after = l.mint(id, kind);
            let h = l.minted(id);
            &&& h.id == id
            &&& after.is_live(h)
            &&& after.slot_live(id)
            &&& after.core_for(id) == h.core->0
            &&& after.strong(h.core->0) == l.strong(h.core->0) + 1
            &&& Some(c) != h.core ==> after.strong(c) == l.strong(c)
            &&& !l.slot_live(id) ==> after.cores[h.core->0].id == id
                && after.cores[h.core->0].kind == kind
            &&& l.slot_live(id) ==> h.core == Some(l.slots[id])
            &&& after.dropped == l.dropped
        }),
{
    assert(!l.cores.contains_key(l.clock));
}

/// One more handle like a live one adds one to the number of its handles and to that of no
/// others; one like a handle that is not live adds nothing.
pub proof fn copied_handles_count(l: LedgerModel, h: Handle, c: u64)
    requires
        l.wf(),
        l.clock < u64::MAX,
    ensures
        l.is_live(h) ==> l.retain(h).strong(h.core->0) == l.strong(h.core->0) + 1,
        !l.is_live(h) || h.core != Some(c) ==> l.retain(h).strong(c) == l.strong(c),
        l.retain(h).dropped == l.dropped,
        forall|other: Handle| #[trigger] l.retain(h).is_live(other) == l.is_live(other),
{
    assert(l.retain(h).cores.dom() =~= l.cores.dom());
}

/// Giving up a live handle takes one from the number of its handles and from that of no
/// others. Its resource is dropped if and only if there was no other handle left.
pub proof fn given_up_handles_count(l: LedgerModel, h: Handle, c: u64)
    requires
        l.wf(),
    ensures
        l.is_live(h) ==> l.release(h).strong(h.core->0) == l.strong(h.core->0) - 1,
        !l.is_live(h) || h.core != Some(c) ==> l.release(h).strong(c) == l.strong(c),
        l.is_live(h) && l.strong(h.core->0) == 1 ==> l.release(h).dropped == l.dropped.push(
            (l.cores[h.core->0].kind, l.cores[h.core->0].id),
        ) && !l.release(h).is_live(h),
        !l.is_live(h) || l.strong(h.core->0) > 1 ==> l.release(h).dropped == l.dropped,
        l.release(h).slots == l.slots,
{
}

/// Copying a handle and giving up the copy changes no number and drops nothing.
pub proof fn giving_up_undoes_copying(l: LedgerModel, h: Handle, c: u64)
    requires
        l.wf(),
        l.clock < u64::MAX,
    ensures
        l.retain(h).release(h).strong(c) == l.strong(c),
        l.retain(h).release(h).dropped == l.dropped,
{
}

} // verus!
