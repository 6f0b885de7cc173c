//! What leaves no trace.
//!
//! An instance whose node could not be added goes again, with all that only it owned.
//! Reaping takes exactly what nothing owns any more. And nothing that a scene held before
//! it was cleared acts on what is added afterwards.

use super::laws::{
    add_instance_keeps_sound, lemma_reap_one_effect, reap_keeps_sound, reaped_resources_are_live,
};
use super::model::{lemma_reap_one_bound, lemma_release_all, SceneModel};
use super::node_laws::lemma_give_up_sound;
use super::ownership::{lemma_mint_strong, lemma_release_all_cores, lemma_release_all_strong};
use super::soundness::owned_handles;
use crate::resource::handle::{
    count_core, count_one, GenericId, Handle, LedgerModel, ResourceKind,
};
use crate::resource::instance::InstanceParts;
use vstd::prelude::*;

verus! {

/// What handling one entry of the queue does to the books: no core comes to life, those that
/// die leave an entry, the other entries stay, and a slot is forgotten only with its core
/// dead.
proof fn lemma_reap_one_books(m: SceneModel)
    requires
        m.wf(),
        m.ledger.dropped.len() > 0,
    ensures
        forall|c: u64| #[trigger]
            m.reap_one().ledger.cores.contains_key(c) ==> m.ledger.cores.contains_key(c)
                && m.reap_one().ledger.cores[c].id == m.ledger.cores[c].id
                && m.reap_one().ledger.cores[c].kind == m.ledger.cores[c].kind
                && m.reap_one().ledger.strong(c) <= m.ledger.strong(c),
        forall|c: u64| #[trigger]
            m.ledger.cores.contains_key(c) && !m.reap_one().ledger.cores.contains_key(c)
                ==> m.reap_one().ledger.dropped.contains(
                (m.ledger.cores[c].kind, m.ledger.cores[c].id),
            ),
        forall|e: (ResourceKind, GenericId)| #[trigger]
            m.ledger.dropped.contains(e) && e != m.ledger.dropped[0]
                ==> m.reap_one().ledger.dropped.contains(e),
        forall|x: GenericId| #[trigger]
            m.reap_one().ledger.slots.contains_key(x) ==> m.ledger.slots.contains_key(x)
                && m.reap_one().ledger.slots[x] == m.ledger.slots[x],
        forall|x: GenericId| #[trigger]
            m.ledger.slot_live(x) ==> m.reap_one().ledger.slots.contains_key(x),
{
    let entry = m.ledger.dropped[0];
    let rest = m.with_ledger(m.ledger.without_oldest());
    let after = m.reap_one();
    assert forall|e: (ResourceKind, GenericId)| #[trigger]
        m.ledger.dropped.contains(e) && e != entry implies rest.ledger.dropped.contains(e) by {
        let i = choose|i: int| 0 <= i < m.ledger.dropped.len() && m.ledger.dropped[i] == e;
        assert(rest.ledger.dropped[i - 1] == e);
    }
    if !rest.ledger.slot_live(entry.1) && rest.present(entry.0, entry.1) {
        let hs = owned_handles(rest, entry.0, entry.1);
        lemma_release_all(rest.ledger, hs);
        lemma_release_all_cores(rest.ledger, hs);
        assert(after.ledger =~= rest.ledger.release_all(hs).forget(entry.1));
        assert forall|c: u64| #[trigger] after.ledger.strong(c) <= m.ledger.strong(c) by {
            lemma_release_all_strong(rest.ledger, hs, c);
        }
        assert forall|c: u64| #[trigger]
            m.ledger.cores.contains_key(c) && !after.ledger.cores.contains_key(
                c,
            ) implies after.ledger.dropped.contains(
            (m.ledger.cores[c].kind, m.ledger.cores[c].id),
        ) by {
            assert(rest.ledger.cores.contains_key(c));
        }
        assert forall|e: (ResourceKind, GenericId)| #[trigger]
            m.ledger.dropped.contains(e) && e != entry implies after.ledger.dropped.contains(
            e,
        ) by {
            assert(rest.ledger.dropped.contains(e));
        }
    }
}

/// What waits to be reaped, with no handle left, goes.
proof fn lemma_queued_goes(m: SceneModel, kind: ResourceKind, id: GenericId)
    requires
        m.wf(),
        m.node_generation + m.nodes.dom().len() <= u64::MAX,
        !m.ledger.slot_live(id),
        m.present(kind, id) ==> m.ledger.dropped.contains((kind, id)),
    ensures
        !m.reaped().present(kind, id),
    decreases m.ledger.drain_bound(),
{
    if m.ledger.dropped.len() > 0 {
        lemma_reap_one_bound(m);
        lemma_reap_one_effect(m);
        lemma_reap_one_books(m);
        let after = m.reap_one();
        assert(!after.ledger.slot_live(id));
        if after.present(kind, id) {
            assert(m.present(kind, id));
            assert((kind, id) != m.ledger.dropped[0]);
            assert(after.ledger.dropped.contains((kind, id)));
        }
        lemma_queued_goes(after, kind, id);
    }
}

/// Handling an entry leaves an instance alone that is not meant, and one that goes gives
/// up what it owned.
proof fn lemma_reap_one_instance(m: SceneModel, id: GenericId, c: u64)
    requires
        m.wf(),
        m.ledger.dropped.len() > 0,
        m.instances.contains_key(id),
    ensures
        m.ledger.dropped[0] != (ResourceKind::Instance, id)
            ==> m.reap_one().instances.contains_key(id) && m.reap_one().instances[id]
            == m.instances[id],
        m.ledger.dropped[0] == (ResourceKind::Instance, id) && !m.ledger.slot_live(id)
            && m.ledger.strong(c) <= count_core(m.instances[id].handles(), c)
            ==> m.reap_one().ledger.strong(c) == 0,
{
    let entry = m.ledger.dropped[0];
    let rest = m.with_ledger(m.ledger.without_oldest());
    assert(rest.ledger.slot_live(entry.1) == m.ledger.slot_live(entry.1));
    match entry.0 {
        ResourceKind::Instance => {},
        ResourceKind::Mesh => {},
        ResourceKind::Texture => {},
        ResourceKind::Node => {},
        ResourceKind::FaceMaterial => {},
        ResourceKind::LineMaterial => {},
        ResourceKind::PointMaterial => {},
    }
    if entry == (ResourceKind::Instance, id) && !m.ledger.slot_live(id) {
        lemma_release_all_strong(rest.ledger, m.instances[id].handles(), c);
        assert(m.reap_one().ledger.cores == rest.ledger.release_all(
            m.instances[id].handles(),
        ).cores);
    }
}

/// What only one instance owns goes with it.
proof fn lemma_owned_goes(
    m: SceneModel,
    instance: InstanceParts,
    kind: ResourceKind,
    x: GenericId,
    c: u64,
)
    requires
        m.wf(),
        m.node_generation + m.nodes.dom().len() <= u64::MAX,
        m.ledger.slots.contains_key(x) ==> m.ledger.slots[x] == c,
        if m.ledger.cores.contains_key(c) {
            &&& m.ledger.cores[c].id == x
            &&& m.ledger.cores[c].kind == kind
            &&& m.ledger.strong(c) <= count_core(instance.handles(), c)
            &&& m.instances.contains_key(instance.id)
            &&& m.instances[instance.id] == instance
            &&& m.ledger.dropped.contains((ResourceKind::Instance, instance.id))
            &&& !m.ledger.slot_live(instance.id)
        } else {
            m.present(kind, x) ==> m.ledger.dropped.contains((kind, x))
        },
    ensures
        !m.reaped().present(kind, x),
    decreases m.ledger.drain_bound(),
{
    if !m.ledger.cores.contains_key(c) {
        lemma_queued_goes(m, kind, x);
    } else {
        lemma_reap_one_bound(m);
        lemma_reap_one_effect(m);
        lemma_reap_one_books(m);
        lemma_reap_one_instance(m, instance.id, c);
        let after = m.reap_one();
        assert(!after.ledger.slot_live(instance.id));
        if after.ledger.cores.contains_key(c) {
            assert(after.ledger.strong(c) > 0);
            assert(m.ledger.dropped[0] != (ResourceKind::Instance, instance.id));
        }
        lemma_owned_goes(after, instance, kind, x, c);
    }
}

/// When an instance is added together with a node and the parent is missing, nodes, roots
/// and the generation stay as they were, and after the next reaping the instance is gone.
/// No other handle for the instance may exist.
pub proof fn failed_add_leaves_no_trace(m: SceneModel, instance: InstanceParts)
    requires
        m.wf(),
        m.ledger.clock < u64::MAX,
        m.node_generation + m.nodes.dom().len() <= u64::MAX,
        !m.ledger.slot_live(instance.id),
    ensures
        m.failed_instance_node(instance).nodes == m.nodes,
        m.failed_instance_node(instance).roots == m.roots,
        m.failed_instance_node(instance).node_generation == m.node_generation,
        !m.failed_instance_node(instance).reaped().instances.contains_key(instance.id),
{
    let failed = m.failed_instance_node(instance);
    lemma_failed_queue(m, instance);
    lemma_queued_goes(failed, ResourceKind::Instance, instance.id);
    assert(!failed.reaped().present(ResourceKind::Instance, instance.id));
}

/// After an instance was added and given up again it waits to be reaped.
proof fn lemma_failed_queue(m: SceneModel, instance: InstanceParts)
    requires
        m.wf(),
        m.ledger.clock < u64::MAX,
        !m.ledger.slot_live(instance.id),
    ensures
        m.failed_instance_node(instance).wf(),
        !m.failed_instance_node(instance).ledger.slot_live(instance.id),
        m.failed_instance_node(instance).ledger.dropped.contains(
            (ResourceKind::Instance, instance.id),
        ),
        m.failed_instance_node(instance).ledger.slots == m.ledger.slots.insert(
            instance.id,
            m.ledger.clock,
        ),
        m.failed_instance_node(instance).ledger.cores == m.without_instance(instance.id).cores,
        forall|e: (ResourceKind, GenericId)| #[trigger]
            m.without_instance(instance.id).dropped.contains(e)
                ==> m.failed_instance_node(instance).ledger.dropped.contains(e),
{
    let id = instance.id;
    let l = m.without_instance(id);
    if m.instances.contains_key(id) {
        lemma_release_all(m.ledger, m.instances[id].handles());
        lemma_release_all_cores(m.ledger, m.instances[id].handles());
    }
    assert(!l.slot_live(id));
    let minted = l.mint(id, ResourceKind::Instance);
    let h = m.added_instance(instance);
    let gone = minted.release(h);
    assert(!l.cores.contains_key(l.clock));
    assert(gone.cores =~= l.cores);
    assert(gone.dropped == l.dropped.push((ResourceKind::Instance, id)));
    assert(gone.dropped[l.dropped.len() as int] == (ResourceKind::Instance, id));
    assert forall|e: (ResourceKind, GenericId)| #[trigger] l.dropped.contains(
        e,
    ) implies gone.dropped.contains(e) by {
        let i = choose|i: int| 0 <= i < l.dropped.len() && l.dropped[i] == e;
        assert(gone.dropped[i] == e);
    }
}

/// When an instance could not be added, each resource that only the handles of the instance
/// count on is gone after the next reaping too.
pub proof fn failed_add_drops_what_it_owned(
    m: SceneModel,
    instance: InstanceParts,
    kind: ResourceKind,
    x: GenericId,
)
    requires
        m.wf(),
        m.ledger.clock < u64::MAX,
        m.node_generation + m.nodes.dom().len() <= u64::MAX,
        !m.ledger.slot_live(instance.id),
        x != instance.id,
        m.ledger.slot_live(x),
        m.ledger.cores[m.ledger.slots[x]].id == x,
        m.ledger.cores[m.ledger.slots[x]].kind == kind,
        m.ledger.strong(m.ledger.slots[x]) == count_core(
            instance.handles(),
            m.ledger.slots[x],
        ),
    ensures
        !m.failed_instance_node(instance).reaped().present(kind, x),
{
    let id = instance.id;
    let c = m.ledger.slots[x];
    let l = m.without_instance(id);
    let failed = m.failed_instance_node(instance);
    lemma_failed_queue(m, instance);
    if m.instances.contains_key(id) {
        lemma_release_all_cores(m.ledger, m.instances[id].handles());
        lemma_release_all_strong(m.ledger, m.instances[id].handles(), c);
    }
    assert(failed.ledger.strong(c) == l.strong(c));
    if !failed.ledger.cores.contains_key(c) {
        assert(m.ledger.cores.contains_key(c));
        assert(l.dropped.contains((kind, x)));
    }
    lemma_owned_goes(failed, instance, kind, x, c);
}

/// A scene with a failed addition is as sound as it was before.
pub proof fn failed_add_keeps_sound(m: SceneModel, instance: InstanceParts)
    requires
        m.sound(),
        m.ledger.clock < u64::MAX,
        forall|k: ResourceKind| !#[trigger] m.present(k, instance.id),
        m.holds_outside(instance.handles()),
    ensures
        m.failed_instance_node(instance).sound(),
{
    let id = instance.id;
    let a = m.add_instance(instance);
    let h = m.added_instance(instance);
    assert(!m.present(ResourceKind::Instance, id));
    assert(!m.ledger.slot_live(id)) by {
        if m.ledger.slot_live(id) {
            assert(m.present(m.ledger.cores[m.ledger.slots[id]].kind, id));
        }
    }
    add_instance_keeps_sound(m, instance);
    lemma_mint_strong(m.ledger, id, ResourceKind::Instance, h.core->0);
    assert(a.outside(h.core->0) >= 1) by {
        assert(a.outside(h.core->0) == m.outside(h.core->0) + count_one(h, h.core->0) - count_core(
            instance.handles(),
            h.core->0,
        ));
        assert(m.refs(h.core->0) + count_core(instance.handles(), h.core->0) <= m.ledger.strong(
            h.core->0,
        ));
    }
    lemma_give_up_sound(a, h);
}

/// A core that is live after reaping was live before, and what it is canonical for stayed.
proof fn lemma_reap_live_core(m: SceneModel, kind: ResourceKind, id: GenericId, c: u64)
    requires
        m.wf(),
        m.node_generation + m.nodes.dom().len() <= u64::MAX,
    ensures
        m.reaped().ledger.cores.contains_key(c) ==> m.ledger.cores.contains_key(c),
        m.reaped().ledger.slots.contains_key(id) ==> m.ledger.slots.contains_key(id)
            && m.reaped().ledger.slots[id] == m.ledger.slots[id],
        m.reaped().present(kind, id) ==> m.present(kind, id),
        m.present(kind, id) && m.ledger.slots.contains_key(id) && m.ledger.slots[id] == c
            && m.reaped().ledger.cores.contains_key(c) ==> m.reaped().present(kind, id),
    decreases m.ledger.drain_bound(),
{
    if m.ledger.dropped.len() > 0 {
        lemma_reap_one_bound(m);
        lemma_reap_one_effect(m);
        lemma_reap_one_books(m);
        lemma_reap_live_core(m.reap_one(), kind, id, c);
        if m.present(kind, id) && m.ledger.slots.contains_key(id) && m.ledger.slots[id] == c
            && m.reaped().ledger.cores.contains_key(c) {
            assert(m.ledger.slot_live(id));
            assert(m.reap_one().present(kind, id));
        }
    }
}

/// Reaping is exact: what is there afterwards is what was there before and is still
/// owned, be it by a handle outside the scene or by something that stayed. And reaping
/// once more changes nothing.
pub proof fn reap_keeps_exactly_the_owned(m: SceneModel)
    requires
        m.sound(),
        m.node_generation + m.nodes.dom().len() <= u64::MAX,
    ensures
        forall|kind: ResourceKind, id: GenericId| #[trigger]
            m.reaped().present(kind, id) <==> m.present(kind, id) && m.ledger.slots.contains_key(
                id,
            ) && (m.outside(m.ledger.slots[id]) > 0 || m.reaped().refs(m.ledger.slots[id]) > 0),
        m.reaped().reaped() == m.reaped(),
{
    let after = m.reaped();
    reap_keeps_sound(m);
    assert forall|kind: ResourceKind, id: GenericId| #[trigger] after.present(kind, id)
        <==> m.present(kind, id) && m.ledger.slots.contains_key(id) && (m.outside(
        m.ledger.slots[id],
    ) > 0 || after.refs(m.ledger.slots[id]) > 0) by {
        let c = m.ledger.slots[id];
        lemma_reap_live_core(m, kind, id, c);
        assert(after.outside(c) == m.outside(c));
        assert(after.refs(c) <= after.ledger.strong(c));
        if after.present(kind, id) {
            reaped_resources_are_live(m, kind, id);
            assert(after.ledger.slots[id] == c);
            assert(after.ledger.strong(c) > 0);
        }
    }
}

/// Whether every canonical core of a ledger is from `clock` on.
pub open spec fn all_since(l: LedgerModel, clock: u64) -> bool {
    &&& clock <= l.clock
    &&& forall|x: GenericId| #[trigger] l.slots.contains_key(x) ==> l.slots[x] >= clock
}

/// Clearing leaves a sound scene that holds nothing, with one more change counted, and no
/// canonical core from before.
pub proof fn cleared_holds_nothing(m: SceneModel)
    requires
        m.wf(),
        m.node_generation < u64::MAX,
    ensures
        forall|kind: ResourceKind, x: GenericId| !#[trigger] m.clear().present(kind, x),
        m.clear().environment_maps.dom() == Set::<u64>::empty(),
        m.clear().roots.len() == 0,
        m.clear().active_camera is None,
        m.clear().active_environment_map is None,
        m.clear().removals.len() == 0,
        m.clear().ledger.dropped.len() == 0,
        m.clear().node_generation == m.node_generation + 1,
        all_since(m.clear().ledger, m.ledger.clock),
{
    assert(m.clear().environment_maps.dom() =~= Set::<u64>::empty());
}

/// Whatever is done with handles and resources afterwards, every canonical core is from
/// after the clearing.
pub proof fn later_cores_are_later(
    l: LedgerModel,
    clock: u64,
    id: GenericId,
    kind: ResourceKind,
    handle: Handle,
    handles: Seq<Handle>,
)
    requires
        l.wf(),
        l.clock < u64::MAX,
        all_since(l, clock),
    ensures
        all_since(l.mint(id, kind), clock),
        all_since(l.retain(handle), clock),
        all_since(l.release(handle), clock),
        all_since(l.release_all(handles), clock),
        all_since(l.forget(id), clock),
        all_since(l.without_oldest(), clock),
{
    super::model::lemma_release(l, handle);
    lemma_release_all(l, handles);
}

/// A scene in which everything has a handle loses nothing to reaping: the queue is emptied,
/// and that is all.
proof fn lemma_reap_drains(m: SceneModel)
    requires
        m.ledger.wf(),
        forall|kind: ResourceKind, id: GenericId| #[trigger]
            m.present(kind, id) ==> m.ledger.slot_live(id),
    ensures
        m.reaped() == m.with_ledger(LedgerModel { dropped: Seq::empty(), ..m.ledger }),
    decreases m.ledger.drain_bound(),
{
    if m.ledger.dropped.len() == 0 {
        assert(m.ledger.dropped =~= Seq::empty());
    } else {
        let entry = m.ledger.dropped[0];
        let rest = m.with_ledger(m.ledger.without_oldest());
        lemma_reap_one_bound(m);
        assert(rest.present(entry.0, entry.1) == m.present(entry.0, entry.1));
        assert(m.reap_one() == rest);
        assert forall|kind: ResourceKind, id: GenericId| #[trigger] rest.present(
            kind,
            id,
        ) implies rest.ledger.slot_live(id) by {
            assert(m.present(kind, id));
        }
        lemma_reap_drains(rest);
    }
}

/// Giving up handles on old cores leaves the younger cores alone.
proof fn lemma_old_released(l: LedgerModel, clock: u64, hs: Seq<Handle>)
    requires
        l.wf(),
        forall|i: int| 0 <= i < hs.len() ==> older_than(#[trigger] hs[i], clock),
    ensures
        forall|c: u64|
            clock <= c ==> (#[trigger] l.release_all(hs).cores.contains_key(c)
                <==> l.cores.contains_key(c)),
    decreases hs.len(),
{
    if hs.len() > 0 {
        lemma_old_released(l, clock, hs.drop_last());
        lemma_release_all(l, hs.drop_last());
        assert(older_than(hs[hs.len() - 1], clock));
        assert forall|i: int| 0 <= i < hs.drop_last().len() implies older_than(
            #[trigger] hs.drop_last()[i],
            clock,
        ) by {
            assert(older_than(hs[i], clock));
        }
        let front = l.release_all(hs.drop_last());
        assert forall|c: u64| clock <= c implies (#[trigger] l.release_all(
            hs,
        ).cores.contains_key(c) <==> l.cores.contains_key(c)) by {
            assert(front.cores.contains_key(c) <==> l.cores.contains_key(c));
        }
    }
}

/// Whether a handle counts, if at all, on a core from before `clock`.
pub open spec fn older_than(h: Handle, clock: u64) -> bool {
    h.core matches Some(c) ==> c < clock
}

/// Handles from before a scene was cleared are inert: giving them up and reaping removes
/// nothing that was added since.
pub proof fn cleared_handles_are_inert(s: SceneModel, clock: u64, hs: Seq<Handle>)
    requires
        s.ledger.wf(),
        s.live_or_dropped(),
        s.ledger.dropped.len() == 0,
        all_since(s.ledger, clock),
        forall|i: int| 0 <= i < hs.len() ==> older_than(#[trigger] hs[i], clock),
    ensures
        ({
            let after = s.with_ledger(s.ledger.release_all(hs)).reaped();
            &&& after == s.with_ledger(after.ledger)
            &&& after.ledger.dropped.len() == 0
            &&& after.ledger.slots == s.ledger.slots
            &&& forall|x: GenericId| #[trigger]
                after.ledger.slot_live(x) == s.ledger.slot_live(x)
        }),
{
    let given = s.with_ledger(s.ledger.release_all(hs));
    lemma_release_all(s.ledger, hs);
    lemma_old_released(s.ledger, clock, hs);
    assert forall|x: GenericId| #[trigger] given.ledger.slot_live(x) == s.ledger.slot_live(x) by {
        if s.ledger.slots.contains_key(x) {
            assert(given.ledger.cores.contains_key(s.ledger.slots[x])
                <==> s.ledger.cores.contains_key(s.ledger.slots[x]));
        }
    }
    assert forall|kind: ResourceKind, id: GenericId| #[trigger] given.present(
        kind,
        id,
    ) implies given.ledger.slot_live(id) by {
        assert(s.present(kind, id));
        assert(s.ledger.slot_live(id) || s.ledger.dropped.contains((kind, id)));
    }
    lemma_reap_drains(given);
    assert forall|x: GenericId| #[trigger] given.reaped().ledger.slot_live(x)
        == s.ledger.slot_live(x) by {
        assert(given.ledger.slot_live(x) == s.ledger.slot_live(x));
    }
}

} // verus!
