//! What the counts behind the handles mean.
//!
//! A resource lives exactly as long as some handle for it exists. This module
//! states the invariant that makes it so: every handle that the scene itself stores
//! is counted, every resource that is there either has a live handle or waits to be
//! reaped, and the handles in the scene tree point at nodes that are there.

use super::model::SceneModel;
use crate::resource::handle::{
    count_core, count_one, GenericId, Handle, LedgerModel, NodeId, ResourceKind,
};
use crate::resource::instance::InstanceParts;
use crate::resource::material::{opt_seq, FaceMaterialParts, LineMaterialParts, PointMaterialParts};
use crate::resource::node::NodeModel;
use vstd::prelude::*;

verus! {

/// The sum of `f` over the values of a finite map.
pub open spec fn total<V>(m: Map<u64, V>, f: spec_fn(V) -> nat) -> nat
    decreases m.dom().len(),
    when m.dom().finite()
{
    if m.dom().len() == 0 {
        0
    } else {
        let k = m.dom().choose();
        f(m[k]) + total(m.remove(k), f)
    }
}

/// A sum over a map splits at any of its keys.
pub proof fn lemma_total_remove<V>(m: Map<u64, V>, f: spec_fn(V) -> nat, k: u64)
    requires
        m.dom().finite(),
        m.contains_key(k),
    ensures
        total(m, f) == f(m[k]) + total(m.remove(k), f),
    decreases m.dom().len(),
{
    let c = m.dom().choose();
    assert(m.dom().contains(k));
    assert(m.dom().len() > 0);
    assert(m.remove(c).dom() =~= m.dom().remove(c));
    assert(m.remove(k).dom() =~= m.dom().remove(k));
    if c != k {
        lemma_total_remove(m.remove(c), f, k);
        lemma_total_remove(m.remove(k), f, c);
        assert(m.remove(c).remove(k) =~= m.remove(k).remove(c));
    }
}

/// The sum after storing a value.
pub proof fn lemma_total_insert<V>(m: Map<u64, V>, f: spec_fn(V) -> nat, k: u64, v: V)
    requires
        m.dom().finite(),
    ensures
        total(m.insert(k, v), f) == f(v) + total(m.remove(k), f),
        m.contains_key(k) ==> total(m.insert(k, v), f) + f(m[k]) == f(v) + total(m, f),
        !m.contains_key(k) ==> total(m.insert(k, v), f) == f(v) + total(m, f),
{
    lemma_total_remove(m.insert(k, v), f, k);
    assert(m.insert(k, v).remove(k) =~= m.remove(k));
    if m.contains_key(k) {
        lemma_total_remove(m, f, k);
    } else {
        assert(m.remove(k) =~= m);
    }
}

/// Maps whose values count the same have the same sum.
pub proof fn lemma_total_same<V>(a: Map<u64, V>, b: Map<u64, V>, f: spec_fn(V) -> nat)
    requires
        a.dom().finite(),
        a.dom() == b.dom(),
        forall|k: u64| #[trigger] a.contains_key(k) ==> f(a[k]) == f(b[k]),
    ensures
        total(a, f) == total(b, f),
    decreases a.dom().len(),
{
    if a.dom().len() != 0 {
        let k = a.dom().choose();
        assert(a.contains_key(k));
        assert(a.remove(k).dom() =~= b.remove(k).dom());
        assert forall|x: u64| #[trigger] a.remove(k).contains_key(x) implies f(a.remove(k)[x])
            == f(b.remove(k)[x]) by {
            assert(a.contains_key(x));
        }
        lemma_total_same(a.remove(k), b.remove(k), f);
    }
}

/// The sum over an empty map.
pub proof fn lemma_total_empty<V>(f: spec_fn(V) -> nat)
    ensures
        total(Map::<u64, V>::empty(), f) == 0,
{
    assert(Map::<u64, V>::empty().dom() =~= Set::empty());
}

/// Handles for core `c` in two lists together.
pub proof fn lemma_count_append(a: Seq<Handle>, b: Seq<Handle>, c: u64)
    ensures
        count_core(a + b, c) == count_core(a, c) + count_core(b, c),
    decreases b.len(),
{
    if b.len() == 0 {
        assert(a + b =~= a);
    } else {
        assert((a + b).drop_last() =~= a + b.drop_last());
        lemma_count_append(a, b.drop_last(), c);
    }
}

/// Handles for core `c` in a list with one more.
pub proof fn lemma_count_push(a: Seq<Handle>, h: Handle, c: u64)
    ensures
        count_core(a.push(h), c) == count_core(a, c) + count_one(h, c),
{
    assert(a.push(h).drop_last() =~= a);
}

/// Handles for core `c` in a list with one fewer.
pub proof fn lemma_count_remove(a: Seq<Handle>, i: int, c: u64)
    requires
        0 <= i < a.len(),
    ensures
        count_core(a, c) == count_core(a.remove(i), c) + count_one(a[i], c),
    decreases a.len(),
{
    if i == a.len() - 1 {
        assert(a.remove(i) =~= a.drop_last());
    } else {
        lemma_count_remove(a.drop_last(), i, c);
        assert(a.remove(i).drop_last() =~= a.drop_last().remove(i));
        assert(a.remove(i).last() == a.last());
    }
}

/// A handle in a list is counted there.
pub proof fn lemma_count_member(a: Seq<Handle>, i: int, c: u64)
    requires
        0 <= i < a.len(),
        a[i].core == Some(c),
    ensures
        count_core(a, c) >= 1,
{
    lemma_count_remove(a, i, c);
}

/// Handles for core `c` in a list of at most one.
pub proof fn lemma_count_opt(h: Option<Handle>, c: u64)
    ensures
        count_core(opt_seq(h), c) == (match h {
            Some(x) => count_one(x, c),
            None => 0,
        }),
{
    if h is Some {
        assert(opt_seq(h).drop_last() =~= Seq::empty());
        assert(count_core(Seq::empty(), c) == 0);
    }
}

/// How many of a node's handles count on core `c`.
pub open spec fn node_refs(c: u64) -> spec_fn(NodeModel) -> nat {
    |n: NodeModel| count_core(n.handles(), c)
}

/// How many of an instance's handles count on core `c`.
pub open spec fn instance_refs(c: u64) -> spec_fn(InstanceParts) -> nat {
    |i: InstanceParts| count_core(i.handles(), c)
}

/// How many of a face material's handles count on core `c`.
pub open spec fn face_refs(c: u64) -> spec_fn(FaceMaterialParts) -> nat {
    |m: FaceMaterialParts| count_core(m.handles(), c)
}

/// How many of a line material's handles count on core `c`.
pub open spec fn line_refs(c: u64) -> spec_fn(LineMaterialParts) -> nat {
    |m: LineMaterialParts| count_core(m.handles(), c)
}

/// How many of a point material's handles count on core `c`.
pub open spec fn point_refs(c: u64) -> spec_fn(PointMaterialParts) -> nat {
    |m: PointMaterialParts| count_core(m.handles(), c)
}

impl SceneModel {
    /// How many handles stored in the scene count on core `c`.
    pub open spec fn refs(self, c: u64) -> nat {
        count_core(self.roots, c) + total(self.nodes, node_refs(c)) + total(
            self.instances,
            instance_refs(c),
        ) + total(self.face_materials, face_refs(c)) + total(self.line_materials, line_refs(c))
            + total(self.point_materials, point_refs(c))
    }

    /// How many handles outside the scene count on core `c`.
    pub open spec fn outside(self, c: u64) -> int {
        self.ledger.strong(c) - self.refs(c)
    }

    /// Every handle stored in the scene is counted.
    pub open spec fn counted(self) -> bool {
        forall|c: u64| #[trigger] self.refs(c) <= self.ledger.strong(c)
    }

    /// Whether a handle points at a node that is there, through its canonical core.
    pub open spec fn names_node(self, h: Handle) -> bool {
        &&& self.nodes.contains_key(h.id)
        &&& self.ledger.slots.contains_key(h.id)
        &&& h.core == Some(self.ledger.slots[h.id])
    }

    /// The handles of the scene tree point at nodes that are there.
    pub open spec fn tree_handles(self) -> bool {
        &&& forall|i: int| 0 <= i < self.roots.len() ==> self.names_node(#[trigger] self.roots[i])
        &&& forall|k: NodeId, i: int|
            self.nodes.contains_key(k) && 0 <= i < self.nodes[k].children.len()
                ==> self.names_node(#[trigger] self.nodes[k].children[i])
    }

    /// No id is in use for two kinds of resource.
    pub open spec fn ids_apart(self) -> bool {
        forall|a: ResourceKind, b: ResourceKind, id: GenericId|
            #![trigger self.present(a, id), self.present(b, id)]
            self.present(a, id) && self.present(b, id) ==> a == b
    }

    /// A live canonical core belongs to a resource that is there.
    pub open spec fn slots_sound(self) -> bool {
        forall|id: GenericId| #[trigger]
            self.ledger.slot_live(id) ==> self.ledger.cores[self.ledger.slots[id]].id == id
                && self.present(self.ledger.cores[self.ledger.slots[id]].kind, id)
    }

    /// A resource that is there has a live handle, or waits to be reaped.
    pub open spec fn live_or_dropped(self) -> bool {
        forall|kind: ResourceKind, id: GenericId| #[trigger]
            self.present(kind, id) ==> self.ledger.slot_live(id) || self.ledger.dropped.contains(
                (kind, id),
            )
    }

    /// The invariant of scenes that are built through the operations of this crate
    /// with ids that are in use for one resource only.
    pub open spec fn sound(self) -> bool {
        &&& self.wf()
        &&& self.tree()
        &&& self.counted()
        &&& self.tree_handles()
        &&& self.ids_apart()
        &&& self.slots_sound()
        &&& self.live_or_dropped()
    }

    /// Whether the handles in `handles` exist outside the scene, each counted, so
    /// that they can be stored or given up.
    pub open spec fn holds_outside(self, handles: Seq<Handle>) -> bool {
        forall|c: u64| #[trigger]
            self.refs(c) + count_core(handles, c) <= self.ledger.strong(c)
    }

    /// Whether `id` is in use for no resource of another kind.
    pub open spec fn id_open(self, kind: ResourceKind, id: GenericId) -> bool {
        forall|other: ResourceKind| #[trigger] self.present(other, id) ==> other == kind
    }
}

/// What minting does to the counts.
pub proof fn lemma_mint_strong(l: LedgerModel, id: GenericId, kind: ResourceKind, c: u64)
    requires
        l.wf(),
        l.clock < u64::MAX,
    ensures
        l.mint(id, kind).strong(c) == l.strong(c) + count_one(l.minted(id), c),
        l.mint(id, kind).wf(),
        l.mint(id, kind).slot_live(id),
        l.mint(id, kind).slots.contains_key(id),
        l.minted(id).core == Some(l.mint(id, kind).slots[id]),
        l.mint(id, kind).is_live(l.minted(id)),
        forall|x: GenericId| x != id ==> (#[trigger] l.mint(id, kind).slots.contains_key(x)
            <==> l.slots.contains_key(x)),
        forall|x: GenericId| #[trigger]
            l.slots.contains_key(x) && x != id ==> l.mint(id, kind).slots[x] == l.slots[x],
{
    if l.slot_live(id) {
        let core = l.slots[id];
        assert(l.cores.contains_key(core));
        assert(l.mint(id, kind).cores.dom() =~= l.cores.dom());
    } else {
        assert(!l.cores.contains_key(l.clock));
        assert(l.mint(id, kind).cores.dom() =~= l.cores.dom().insert(l.clock));
    }
}

/// What retaining a live handle does to the counts.
pub proof fn lemma_retain_strong(l: LedgerModel, h: Handle, c: u64)
    requires
        l.wf(),
        l.clock < u64::MAX,
        l.is_live(h),
    ensures
        l.retain(h).strong(c) == l.strong(c) + count_one(h, c),
        l.retain(h).wf(),
        l.retain(h).slots == l.slots,
        l.retain(h).dropped == l.dropped,
{
    let core = h.core->0;
    assert(l.cores.contains_key(core));
    assert(l.retain(h).cores.dom() =~= l.cores.dom());
}

/// What releasing does to the counts.
pub proof fn lemma_release_strong(l: LedgerModel, h: Handle, c: u64)
    requires
        l.wf(),
    ensures
        l.release(h).strong(c) == (if l.strong(c) >= count_one(h, c) {
            (l.strong(c) - count_one(h, c)) as nat
        } else {
            0
        }),
{
    if l.is_live(h) {
        assert(l.cores.contains_key(h.core->0));
    }
}

/// What releasing a list does to the counts.
pub proof fn lemma_release_all_strong(l: LedgerModel, hs: Seq<Handle>, c: u64)
    requires
        l.wf(),
    ensures
        l.release_all(hs).strong(c) == (if l.strong(c) >= count_core(hs, c) {
            (l.strong(c) - count_core(hs, c)) as nat
        } else {
            0
        }),
    decreases hs.len(),
{
    if hs.len() > 0 {
        let front = l.release_all(hs.drop_last());
        lemma_release_all_strong(l, hs.drop_last(), c);
        super::model::lemma_release_all(l, hs.drop_last());
        lemma_release_strong(front, hs.last(), c);
    }
}

/// What releasing a list does to cores that stay live, and to the queue: a core
/// that dies leaves an entry, and entries that were there stay.
pub proof fn lemma_release_all_cores(l: LedgerModel, hs: Seq<Handle>)
    requires
        l.wf(),
    ensures
        forall|c: u64| #[trigger]
            l.release_all(hs).cores.contains_key(c) ==> l.cores.contains_key(c)
                && l.release_all(hs).cores[c].id == l.cores[c].id
                && l.release_all(hs).cores[c].kind == l.cores[c].kind,
        forall|c: u64| #[trigger]
            l.cores.contains_key(c) && !l.release_all(hs).cores.contains_key(c)
                ==> l.release_all(hs).dropped.contains((l.cores[c].kind, l.cores[c].id)),
        forall|e: (ResourceKind, GenericId)| #[trigger]
            l.dropped.contains(e) ==> l.release_all(hs).dropped.contains(e),
    decreases hs.len(),
{
    if hs.len() > 0 {
        let front = l.release_all(hs.drop_last());
        let h = hs.last();
        lemma_release_all_cores(l, hs.drop_last());
        super::model::lemma_release_all(l, hs.drop_last());
        let after = front.release(h);
        assert(after == l.release_all(hs));
        assert forall|e: (ResourceKind, GenericId)| front.dropped.contains(
            e,
        ) implies after.dropped.contains(e) by {
            let i = choose|i: int| 0 <= i < front.dropped.len() && front.dropped[i] == e;
            assert(after.dropped[i] == e);
        }
        assert forall|c: u64| #[trigger] l.cores.contains_key(c) && !after.cores.contains_key(
            c,
        ) implies after.dropped.contains((l.cores[c].kind, l.cores[c].id)) by {
            if front.cores.contains_key(c) {
                assert(after.dropped[front.dropped.len() as int] == (
                    l.cores[c].kind,
                    l.cores[c].id,
                ));
            }
        }
    }
}

} // verus!
