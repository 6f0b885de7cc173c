//! Laws of ownership: what reaping, adding and handing out handles guarantee.

use super::model::{lemma_reap_one_bound, lists_id, SceneModel};
use super::ownership::{
    face_refs, instance_refs, lemma_mint_strong, lemma_retain_strong, lemma_total_insert, line_refs,
    point_refs, total,
};
use super::soundness::{reap_one_keeps_sound, release_keeps_sound};
use crate::resource::handle::{count_core, count_one, GenericId, Handle, NodeId, ResourceKind};
use crate::resource::instance::InstanceParts;
use crate::resource::material::{FaceMaterialParts, LineMaterialParts, PointMaterialParts};
use crate::resource::mesh::MeshModel;
use crate::resource::texture::TextureModel;
use vstd::prelude::*;

verus! {

/// What handling one entry of the queue does to the resources.
pub proof fn lemma_reap_one_effect(m: SceneModel)
    requires
        m.wf(),
        m.ledger.dropped.len() > 0,
        m.node_generation + m.nodes.dom().len() <= u64::MAX,
    ensures
        m.reap_one().node_generation + m.reap_one().nodes.dom().len() <= u64::MAX,
        m.node_generation <= m.reap_one().node_generation,
        ({
            let entry = m.ledger.dropped[0];
            let goes = m.present(entry.0, entry.1) && !m.ledger.slot_live(entry.1);
            &&& forall|kind: ResourceKind, id: GenericId| #[trigger]
                m.reap_one().present(kind, id) <==> m.present(kind, id) && !(goes && (kind, id)
                    == entry)
            &&& m.reap_one().removals == (if goes {
                m.removals.push(entry)
            } else {
                m.removals
            })
            &&& m.reap_one().wf()
        }),
{
    let entry = m.ledger.dropped[0];
    let after = m.reap_one();
    lemma_reap_one_bound(m);
    assert(m.ledger.without_oldest().slot_live(entry.1) == m.ledger.slot_live(entry.1));
    assert forall|kind: ResourceKind, id: GenericId| #[trigger] after.present(kind, id)
        <==> m.present(kind, id) && !(m.present(entry.0, entry.1) && !m.ledger.slot_live(entry.1)
        && (kind, id) == entry) by {
        match kind {
            ResourceKind::Mesh => {},
            ResourceKind::Texture => {},
            ResourceKind::Instance => {},
            ResourceKind::Node => {},
            ResourceKind::FaceMaterial => {},
            ResourceKind::LineMaterial => {},
            ResourceKind::PointMaterial => {},
        }
    }
    if m.present(entry.0, entry.1) && !m.ledger.slot_live(entry.1) && entry.0
        == ResourceKind::Node {
        assert(after.nodes.dom() =~= m.nodes.dom().remove(entry.1));
        assert forall|k: u64| #[trigger] after.nodes.contains_key(k) implies after.nodes[k].id
            == k by {
            assert(m.nodes.contains_key(k));
        }
    }
}

/// Reaping keeps a scene sound. Afterwards nothing waits to be reaped, so every
/// resource that is left has a live handle; and no handle outside the scene is
/// disturbed.
pub proof fn reap_keeps_sound(m: SceneModel)
    requires
        m.sound(),
        m.node_generation + m.nodes.dom().len() <= u64::MAX,
    ensures
        m.reaped().sound(),
        m.reaped().ledger.dropped.len() == 0,
        forall|c: u64| #[trigger] m.reaped().outside(c) == m.outside(c),
        m.node_generation <= m.reaped().node_generation,
    decreases m.ledger.drain_bound(),
{
    if m.ledger.dropped.len() > 0 {
        lemma_reap_one_bound(m);
        lemma_reap_one_effect(m);
        reap_one_keeps_sound(m);
        reap_keeps_sound(m.reap_one());
        assert forall|c: u64| #[trigger] m.reaped().outside(c) == m.outside(c) by {
            assert(m.reap_one().reaped().outside(c) == m.reap_one().outside(c));
        }
    }
}

/// A resource is left by reaping exactly when some handle for it is: everything
/// that is still there has a live canonical core.
pub proof fn reaped_resources_are_live(m: SceneModel, kind: ResourceKind, id: GenericId)
    requires
        m.sound(),
        m.node_generation + m.nodes.dom().len() <= u64::MAX,
        m.reaped().present(kind, id),
    ensures
        m.reaped().ledger.slot_live(id),
        m.reaped().ledger.cores[m.reaped().ledger.slots[id]].kind == kind,
{
    reap_keeps_sound(m);
    let after = m.reaped();
    assert(after.ledger.slot_live(id) || after.ledger.dropped.contains((kind, id)));
    assert(after.present(after.ledger.cores[after.ledger.slots[id]].kind, id));
}

/// A resource that a handle outside the scene keeps alive survives reaping, under
/// the same core.
pub proof fn outside_handles_keep_alive(m: SceneModel, kind: ResourceKind, id: GenericId)
    requires
        m.sound(),
        m.node_generation + m.nodes.dom().len() <= u64::MAX,
        m.present(kind, id),
        m.ledger.slots.contains_key(id),
        m.outside(m.ledger.slots[id]) > 0,
    ensures
        m.reaped().present(kind, id),
        m.reaped().ledger.slots.contains_key(id),
        m.reaped().ledger.slots[id] == m.ledger.slots[id],
        m.reaped().ledger.slot_live(id),
    decreases m.ledger.drain_bound(),
{
    let c = m.ledger.slots[id];
    assert(m.refs(c) <= m.ledger.strong(c));
    assert(m.ledger.slot_live(id));
    if m.ledger.dropped.len() > 0 {
        lemma_reap_one_bound(m);
        lemma_reap_one_effect(m);
        reap_one_keeps_sound(m);
        lemma_reap_one_slots(m, id);
        assert(m.reap_one().outside(c) == m.outside(c));
        outside_handles_keep_alive(m.reap_one(), kind, id);
    }
}

/// Handling an entry leaves the live slots alone.
proof fn lemma_reap_one_slots(m: SceneModel, id: GenericId)
    requires
        m.wf(),
        m.ledger.dropped.len() > 0,
        m.ledger.slot_live(id),
    ensures
        m.reap_one().ledger.slots.contains_key(id),
        m.reap_one().ledger.slots[id] == m.ledger.slots[id],
{
    let entry = m.ledger.dropped[0];
    let rest = m.with_ledger(m.ledger.without_oldest());
    assert(rest.ledger.slot_live(entry.1) == m.ledger.slot_live(entry.1));
    if !m.ledger.slot_live(entry.1) && m.present(entry.0, entry.1) {
        super::model::lemma_release_all(
            rest.ledger,
            super::soundness::owned_handles(m, entry.0, entry.1),
        );
    }
}

/// Reaping logs each resource that it removes, after what was logged before, and
/// logs nothing else.
pub proof fn reap_logs_removals(m: SceneModel)
    requires
        m.wf(),
        m.node_generation + m.nodes.dom().len() <= u64::MAX,
    ensures
        m.reaped().removals.len() >= m.removals.len(),
        m.reaped().removals.take(m.removals.len() as int) == m.removals,
        forall|kind: ResourceKind, id: GenericId| #[trigger]
            m.reaped().present(kind, id) <==> m.present(kind, id) && !m.reaped().removals.skip(
                m.removals.len() as int,
            ).contains((kind, id)),
        forall|i: int|
            m.removals.len() <= i < m.reaped().removals.len() ==> m.present(
                (#[trigger] m.reaped().removals[i]).0,
                m.reaped().removals[i].1,
            ),
    decreases m.ledger.drain_bound(),
{
    if m.ledger.dropped.len() == 0 {
        assert(m.removals.take(m.removals.len() as int) =~= m.removals);
        assert(m.removals.skip(m.removals.len() as int) =~= Seq::empty());
    } else {
        lemma_reap_one_bound(m);
        lemma_reap_one_effect(m);
        let next = m.reap_one();
        let last = m.reaped();
        reap_logs_removals(next);
        let entry = m.ledger.dropped[0];
        let goes = m.present(entry.0, entry.1) && !m.ledger.slot_live(entry.1);
        let n = m.removals.len() as int;
        let k = next.removals.len() as int;
        assert(last.removals.take(n) =~= last.removals.take(k).take(n));
        assert(next.removals.take(n) =~= m.removals);
        let log = last.removals.skip(n);
        let later = last.removals.skip(k);
        assert forall|e: (ResourceKind, GenericId)| #[trigger] log.contains(e) <==> later.contains(
            e,
        ) || (goes && e == entry) by {
            if goes {
                assert(k == n + 1);
                assert(last.removals[n] == last.removals.take(k)[n]);
                assert(log[0] == entry);
            }
            if later.contains(e) {
                let i = choose|i: int| 0 <= i < later.len() && later[i] == e;
                assert(log[i + (k - n)] == e);
            }
            if log.contains(e) {
                let i = choose|i: int| 0 <= i < log.len() && log[i] == e;
                if i >= k - n {
                    assert(later[i - (k - n)] == e);
                }
            }
        }
        assert forall|kind: ResourceKind, id: GenericId| #[trigger] last.present(kind, id)
            <==> m.present(kind, id) && !log.contains((kind, id)) by {
            assert(last.present(kind, id) <==> next.present(kind, id) && !later.contains(
                (kind, id),
            ));
        }
        assert forall|i: int| n <= i < last.removals.len() implies m.present(
            (#[trigger] last.removals[i]).0,
            last.removals[i].1,
        ) by {
            if i < k {
                assert(last.removals[i] == last.removals.take(k)[i]);
            } else {
                assert(next.present(last.removals[i].0, last.removals[i].1));
            }
        }
    }
}

/// Reaping a scene that was just reaped changes nothing.
pub proof fn reap_is_idempotent(m: SceneModel)
    requires
        m.sound(),
        m.node_generation + m.nodes.dom().len() <= u64::MAX,
    ensures
        m.reaped().reaped() == m.reaped(),
{
    reap_keeps_sound(m);
}

/// Whether the same resources are there, in the same tree.
spec fn same_contents(m: SceneModel, after: SceneModel) -> bool {
    &&& after.roots == m.roots
    &&& after.nodes == m.nodes
    &&& after.wf()
    &&& forall|kind: ResourceKind, id: GenericId| #[trigger]
        after.present(kind, id) <==> m.present(kind, id)
}

/// Counting one more handle on a live core keeps a scene sound.
proof fn lemma_counted_up_sound(m: SceneModel, after: SceneModel, c: u64)
    requires
        m.sound(),
        same_contents(m, after),
        m.ledger.cores.contains_key(c),
        m.ledger.clock < u64::MAX,
        after.ledger == m.ledger.count_up(c),
        after.counted(),
    ensures
        after.sound(),
{
    assert forall|x: u64| #[trigger] after.ledger.cores.contains_key(x)
        <==> m.ledger.cores.contains_key(x) by {}
    assert forall|x: u64| #[trigger] m.ledger.cores.contains_key(
        x,
    ) implies after.ledger.cores[x].id == m.ledger.cores[x].id && after.ledger.cores[x].kind
        == m.ledger.cores[x].kind by {}
    assert forall|id: GenericId| #[trigger] after.ledger.slot_live(id) <==> m.ledger.slot_live(
        id,
    ) by {}
    assert(after.tree_handles()) by {
        assert forall|i: int| 0 <= i < after.roots.len() implies after.names_node(
            #[trigger] after.roots[i],
        ) by {
            assert(m.names_node(m.roots[i]));
        }
        assert forall|k: NodeId, i: int|
            after.nodes.contains_key(k) && 0 <= i
                < after.nodes[k].children.len() implies after.names_node(
            #[trigger] after.nodes[k].children[i],
        ) by {
            assert(m.names_node(m.nodes[k].children[i]));
        }
    }
    assert(after.ids_apart()) by {
        assert forall|a: ResourceKind, b: ResourceKind, x: GenericId|
            #![trigger after.present(a, x), after.present(b, x)]
            after.present(a, x) && after.present(b, x) implies a == b by {
            assert(m.present(a, x) && m.present(b, x));
        }
    }
    assert(after.slots_sound()) by {
        assert forall|x: GenericId| #[trigger] after.ledger.slot_live(
            x,
        ) implies after.ledger.cores[after.ledger.slots[x]].id == x && after.present(
            after.ledger.cores[after.ledger.slots[x]].kind,
            x,
        ) by {
            assert(m.ledger.slot_live(x));
            assert(m.ledger.cores.contains_key(m.ledger.slots[x]));
            assert(m.present(m.ledger.cores[m.ledger.slots[x]].kind, x));
        }
    }
    assert(after.live_or_dropped()) by {
        assert forall|kind: ResourceKind, id: GenericId| #[trigger] after.present(
            kind,
            id,
        ) implies after.ledger.slot_live(id) || after.ledger.dropped.contains((kind, id)) by {
            assert(m.present(kind, id));
            assert(m.ledger.slot_live(id) ==> after.ledger.slot_live(id));
        }
    }
}

/// Making another handle like a live one keeps a scene sound, and the new handle
/// exists outside the scene.
pub proof fn retain_keeps_sound(m: SceneModel, h: Handle)
    requires
        m.sound(),
        m.ledger.clock < u64::MAX,
        m.ledger.is_live(h),
    ensures
        m.with_ledger(m.ledger.retain(h)).sound(),
        forall|c: u64| #[trigger]
            m.with_ledger(m.ledger.retain(h)).outside(c) == m.outside(c) + count_one(h, c),
{
    let after = m.with_ledger(m.ledger.retain(h));
    assert forall|c: u64| #[trigger] after.outside(c) == m.outside(c) + count_one(h, c) by {
        lemma_retain_strong(m.ledger, h, c);
        assert(after.refs(c) == m.refs(c));
    }
    assert(after.counted()) by {
        assert forall|c: u64| #[trigger] after.refs(c) <= after.ledger.strong(c) by {
            assert(m.refs(c) <= m.ledger.strong(c));
            assert(after.outside(c) == m.outside(c) + count_one(h, c));
            assert(after.refs(c) == m.refs(c));
        }
    }
    lemma_retain_strong(m.ledger, h, 0);
    assert forall|kind: ResourceKind, id: GenericId| #[trigger] after.present(kind, id)
        <==> m.present(kind, id) by {}
    lemma_counted_up_sound(m, after, h.core->0);
}

/// A scene whose resources are those of a sound scene and perhaps one more, for
/// which a handle was just minted, is sound when its nodes form a forest, its counts
/// cover what is stored and its tree handles are in order.
pub proof fn lemma_minted_sound(
    m: SceneModel,
    after: SceneModel,
    kind: ResourceKind,
    id: GenericId,
)
    requires
        m.sound(),
        m.ledger.clock < u64::MAX,
        m.id_open(kind, id),
        forall|k: ResourceKind, x: GenericId| #[trigger]
            after.present(k, x) <==> m.present(k, x) || (k, x) == (kind, id),
        after.ledger == m.ledger.mint(id, kind),
        after.wf(),
        after.tree(),
        after.counted(),
        after.tree_handles(),
    ensures
        after.sound(),
{
    lemma_mint_strong(m.ledger, id, kind, 0);
    let fresh = m.ledger.clock;
    assert(!m.ledger.cores.contains_key(fresh));
    assert(after.ids_apart()) by {
        assert forall|a: ResourceKind, b: ResourceKind, x: GenericId|
            #![trigger after.present(a, x), after.present(b, x)]
            after.present(a, x) && after.present(b, x) implies a == b by {
            if x == id {
                assert(m.present(a, x) ==> a == kind);
                assert(m.present(b, x) ==> b == kind);
            } else {
                assert(m.present(a, x) && m.present(b, x));
            }
        }
    }
    assert(after.slots_sound()) by {
        assert forall|x: GenericId| #[trigger] after.ledger.slot_live(
            x,
        ) implies after.ledger.cores[after.ledger.slots[x]].id == x && after.present(
            after.ledger.cores[after.ledger.slots[x]].kind,
            x,
        ) by {
            if x == id {
                if m.ledger.slot_live(id) {
                    assert(m.present(m.ledger.cores[m.ledger.slots[id]].kind, id));
                }
                assert(after.present(kind, id));
            } else {
                assert(m.ledger.slots.contains_key(x));
                assert(m.ledger.slots[x] < fresh);
                assert(m.ledger.slot_live(x));
                assert(m.present(m.ledger.cores[m.ledger.slots[x]].kind, x));
            }
        }
    }
    assert(after.live_or_dropped()) by {
        assert forall|k: ResourceKind, x: GenericId| #[trigger] after.present(
            k,
            x,
        ) implies after.ledger.slot_live(x) || after.ledger.dropped.contains((k, x)) by {
            if x != id {
                assert(m.present(k, x));
                if m.ledger.slot_live(x) {
                    assert(after.ledger.slot_live(x));
                }
            }
        }
    }
}

/// The tree handles stay in order when a handle is minted and the tree is left
/// alone.
proof fn lemma_minted_tree_handles(
    m: SceneModel,
    after: SceneModel,
    kind: ResourceKind,
    id: GenericId,
)
    requires
        m.sound(),
        m.ledger.clock < u64::MAX,
        m.id_open(kind, id),
        after.ledger == m.ledger.mint(id, kind),
        after.roots == m.roots,
        after.nodes == m.nodes,
    ensures
        after.tree_handles(),
{
    lemma_mint_strong(m.ledger, id, kind, 0);
    assert forall|h: Handle|
        m.names_node(h) && (lists_id(m.roots, h.id) || exists|k: NodeId| #[trigger]
            m.nodes.contains_key(k) && lists_id(
                m.nodes[k].children,
                h.id,
            )) implies #[trigger] after.names_node(h) by {
        super::soundness::lemma_named_is_live(m, h.id);
        if h.id == id {
            assert(after.ledger.slots == m.ledger.slots);
        }
    }
    assert forall|i: int| 0 <= i < after.roots.len() implies after.names_node(
        #[trigger] after.roots[i],
    ) by {
        assert(m.names_node(m.roots[i]));
        assert(lists_id(m.roots, m.roots[i].id));
    }
    assert forall|k: NodeId, i: int|
        after.nodes.contains_key(k) && 0 <= i < after.nodes[k].children.len() implies
        after.names_node(#[trigger] after.nodes[k].children[i]) by {
        assert(m.names_node(m.nodes[k].children[i]));
        assert(lists_id(m.nodes[k].children, m.nodes[k].children[i].id));
    }
}

/// Handing out a handle for a resource that is there keeps a scene sound; the
/// handle exists outside the scene.
pub proof fn take_handle_keeps_sound(m: SceneModel, kind: ResourceKind, id: GenericId)
    requires
        m.sound(),
        m.ledger.clock < u64::MAX,
        m.present(kind, id),
    ensures
        m.take_handle(kind, id).sound(),
        m.take_handle(kind, id).outside(m.ledger.core_for(id)) >= 1,
        forall|c: u64| #[trigger]
            m.take_handle(kind, id).outside(c) == m.outside(c) + count_one(
                m.ledger.minted(id),
                c,
            ),
{
    let after = m.take_handle(kind, id);
    let h = m.ledger.minted(id);
    assert forall|c: u64| #[trigger] after.outside(c) == m.outside(c) + count_one(h, c) by {
        lemma_mint_strong(m.ledger, id, kind, c);
        assert(after.refs(c) == m.refs(c));
    }
    assert(after.counted()) by {
        assert forall|c: u64| #[trigger] after.refs(c) <= after.ledger.strong(c) by {
            assert(m.refs(c) <= m.ledger.strong(c));
            assert(after.outside(c) == m.outside(c) + count_one(h, c));
            assert(after.refs(c) == m.refs(c));
        }
    }
    assert(m.outside(m.ledger.core_for(id)) >= 0) by {
        assert(m.refs(m.ledger.core_for(id)) <= m.ledger.strong(m.ledger.core_for(id)));
    }
    lemma_mint_strong(m.ledger, id, kind, 0);
    assert(m.id_open(kind, id)) by {
        assert forall|other: ResourceKind| #[trigger] m.present(other, id) implies other
            == kind by {
            assert(m.present(kind, id));
        }
    }
    assert forall|k: ResourceKind, x: GenericId| #[trigger] after.present(k, x) <==> m.present(
        k,
        x,
    ) || (k, x) == (kind, id) by {}
    lemma_minted_tree_handles(m, after, kind, id);
    lemma_minted_sound(m, after, kind, id);
}

/// Changing what is stored, but neither the ledger nor the scene tree nor which
/// resources there are, keeps a scene sound as long as the counts cover it.
proof fn lemma_same_ledger_sound(m: SceneModel, after: SceneModel)
    requires
        m.sound(),
        same_contents(m, after),
        after.ledger == m.ledger,
        after.counted(),
    ensures
        after.sound(),
{
    assert(after.tree_handles()) by {
        assert forall|i: int| 0 <= i < after.roots.len() implies after.names_node(
            #[trigger] after.roots[i],
        ) by {
            assert(m.names_node(m.roots[i]));
        }
        assert forall|k: NodeId, i: int|
            after.nodes.contains_key(k) && 0 <= i
                < after.nodes[k].children.len() implies after.names_node(
            #[trigger] after.nodes[k].children[i],
        ) by {
            assert(m.names_node(m.nodes[k].children[i]));
        }
    }
    assert(after.ids_apart()) by {
        assert forall|a: ResourceKind, b: ResourceKind, x: GenericId|
            #![trigger after.present(a, x), after.present(b, x)]
            after.present(a, x) && after.present(b, x) implies a == b by {
            assert(m.present(a, x) && m.present(b, x));
        }
    }
    assert(after.slots_sound()) by {
        assert forall|x: GenericId| #[trigger] after.ledger.slot_live(
            x,
        ) implies after.ledger.cores[after.ledger.slots[x]].id == x && after.present(
            after.ledger.cores[after.ledger.slots[x]].kind,
            x,
        ) by {
            assert(m.ledger.slot_live(x));
            assert(m.present(m.ledger.cores[m.ledger.slots[x]].kind, x));
        }
    }
    assert(after.live_or_dropped()) by {
        assert forall|kind: ResourceKind, id: GenericId| #[trigger] after.present(
            kind,
            id,
        ) implies after.ledger.slot_live(id) || after.ledger.dropped.contains((kind, id)) by {
            assert(m.present(kind, id));
        }
    }
}

/// Adding a resource that owns nothing keeps a scene sound.
proof fn lemma_add_plain_sound(
    m: SceneModel,
    after: SceneModel,
    kind: ResourceKind,
    id: GenericId,
)
    requires
        m.sound(),
        m.ledger.clock < u64::MAX,
        m.id_open(kind, id),
        forall|k: ResourceKind, x: GenericId| #[trigger]
            after.present(k, x) <==> m.present(k, x) || (k, x) == (kind, id),
        after.ledger == m.ledger.mint(id, kind),
        after.wf(),
        after.roots == m.roots,
        after.nodes == m.nodes,
        forall|c: u64| #[trigger] after.refs(c) == m.refs(c),
    ensures
        after.sound(),
        forall|c: u64| #[trigger]
            after.outside(c) == m.outside(c) + count_one(m.ledger.minted(id), c),
{
    assert forall|c: u64| #[trigger] after.outside(c) == m.outside(c) + count_one(
        m.ledger.minted(id),
        c,
    ) by {
        lemma_mint_strong(m.ledger, id, kind, c);
        assert(after.refs(c) == m.refs(c));
    }
    assert(after.counted()) by {
        assert forall|c: u64| #[trigger] after.refs(c) <= after.ledger.strong(c) by {
            assert(m.refs(c) <= m.ledger.strong(c));
            assert(after.outside(c) == m.outside(c) + count_one(m.ledger.minted(id), c));
        }
    }
    lemma_minted_tree_handles(m, after, kind, id);
    lemma_minted_sound(m, after, kind, id);
}

/// Adding a mesh under an id that no other kind of resource uses keeps a scene
/// sound; one more handle for it exists outside the scene.
pub proof fn add_mesh_keeps_sound(m: SceneModel, mesh: MeshModel)
    requires
        m.sound(),
        m.ledger.clock < u64::MAX,
        m.id_open(ResourceKind::Mesh, mesh.id),
    ensures
        m.add_mesh(mesh).sound(),
        forall|c: u64| #[trigger]
            m.add_mesh(mesh).outside(c) == m.outside(c) + count_one(m.added_mesh(mesh), c),
{
    let after = m.add_mesh(mesh);
    lemma_mint_strong(m.ledger, mesh.id, ResourceKind::Mesh, 0);
    assert forall|k: ResourceKind, x: GenericId| #[trigger] after.present(k, x) <==> m.present(
        k,
        x,
    ) || (k, x) == (ResourceKind::Mesh, mesh.id) by {}
    lemma_add_plain_sound(m, after, ResourceKind::Mesh, mesh.id);
}

/// Adding a texture under an id that no other kind of resource uses keeps a scene
/// sound; one more handle for it exists outside the scene.
pub proof fn add_texture_keeps_sound(m: SceneModel, texture: TextureModel)
    requires
        m.sound(),
        m.ledger.clock < u64::MAX,
        m.id_open(ResourceKind::Texture, texture.id),
    ensures
        m.add_texture(texture).sound(),
        forall|c: u64| #[trigger]
            m.add_texture(texture).outside(c) == m.outside(c) + count_one(
                m.added_texture(texture),
                c,
            ),
{
    let after = m.add_texture(texture);
    lemma_mint_strong(m.ledger, texture.id, ResourceKind::Texture, 0);
    assert forall|k: ResourceKind, x: GenericId| #[trigger] after.present(k, x) <==> m.present(
        k,
        x,
    ) || (k, x) == (ResourceKind::Texture, texture.id) by {}
    lemma_add_plain_sound(m, after, ResourceKind::Texture, texture.id);
}

/// Adding an instance under an id that no other kind of resource uses keeps a scene
/// sound: the handles it owns are stored, and one more handle for the instance
/// itself exists outside the scene.
pub proof fn add_instance_keeps_sound(m: SceneModel, instance: InstanceParts)
    requires
        m.sound(),
        m.ledger.clock < u64::MAX,
        m.id_open(ResourceKind::Instance, instance.id),
        m.holds_outside(instance.handles()),
    ensures
        m.add_instance(instance).sound(),
        forall|c: u64| #[trigger]
            m.add_instance(instance).outside(c) == m.outside(c) + count_one(
                m.added_instance(instance),
                c,
            ) - count_core(instance.handles(), c),
{
    let id = instance.id;
    let after = m.add_instance(instance);
    let stored = m.instances.insert(id, instance);
    assert forall|c: u64| #[trigger] total(stored, instance_refs(c)) + (if m.instances.contains_key(id) {
        count_core(m.instances[id].handles(), c)
    } else {
        0
    }) == count_core(instance.handles(), c) + total(m.instances, instance_refs(c)) by {
        lemma_total_insert(m.instances, instance_refs(c), id, instance);
    }
    if m.instances.contains_key(id) {
        let replaced = m.instances[id].handles();
        let put = SceneModel { instances: stored, ..m };
        assert(put.instances.dom() =~= m.instances.dom());
        assert forall|c: u64| #[trigger] put.refs(c) + count_core(replaced, c) == m.refs(c)
            + count_core(instance.handles(), c) by {
            assert(total(stored, instance_refs(c)) + count_core(replaced, c) == count_core(
                instance.handles(),
                c,
            ) + total(m.instances, instance_refs(c)));
        }
        assert(put.counted()) by {
            assert forall|c: u64| #[trigger] put.refs(c) <= put.ledger.strong(c) by {
                assert(m.refs(c) + count_core(instance.handles(), c) <= m.ledger.strong(c));
                assert(put.refs(c) + count_core(replaced, c) == m.refs(c) + count_core(
                    instance.handles(),
                    c,
                ));
            }
        }
        assert forall|k: ResourceKind, x: GenericId| #[trigger] put.present(k, x) <==> m.present(
            k,
            x,
        ) by {}
        lemma_same_ledger_sound(m, put);
        assert(put.holds_outside(replaced)) by {
            assert forall|c: u64| #[trigger] put.refs(c) + count_core(replaced, c)
                <= put.ledger.strong(c) by {
                assert(m.refs(c) + count_core(instance.handles(), c) <= m.ledger.strong(c));
            }
        }
        release_keeps_sound(put, replaced);
        let freed = put.with_ledger(put.ledger.release_all(replaced));
        super::model::lemma_release_all(put.ledger, replaced);
        lemma_mint_strong(freed.ledger, id, ResourceKind::Instance, 0);
        assert(after.ledger == freed.ledger.mint(id, ResourceKind::Instance));
        assert(m.present(ResourceKind::Instance, id));
        assert(freed.id_open(ResourceKind::Instance, id)) by {
            assert forall|other: ResourceKind| #[trigger] freed.present(other, id) implies other
                == ResourceKind::Instance by {
                assert(m.present(other, id));
            }
        }
        assert forall|k: ResourceKind, x: GenericId| #[trigger] after.present(k, x)
            <==> freed.present(k, x) || (k, x) == (ResourceKind::Instance, id) by {}
        assert forall|c: u64| #[trigger] after.refs(c) == freed.refs(c) by {}
        lemma_add_plain_sound(freed, after, ResourceKind::Instance, id);
        assert forall|c: u64| #[trigger] after.outside(c) == m.outside(c) + count_one(
            m.added_instance(instance),
            c,
        ) - count_core(instance.handles(), c) by {
            assert(after.outside(c) == freed.outside(c) + count_one(freed.ledger.minted(id), c));
            assert(freed.outside(c) == put.outside(c) - count_core(replaced, c));
            assert(put.refs(c) + count_core(replaced, c) == m.refs(c) + count_core(
                instance.handles(),
                c,
            ));
        }
    } else {
        lemma_mint_strong(m.ledger, id, ResourceKind::Instance, 0);
        assert(stored.dom() =~= m.instances.dom().insert(id));
        assert forall|k: ResourceKind, x: GenericId| #[trigger] after.present(k, x) <==> m.present(
            k,
            x,
        ) || (k, x) == (ResourceKind::Instance, id) by {}
        assert forall|c: u64| #[trigger] after.refs(c) == m.refs(c) + count_core(
            instance.handles(),
            c,
        ) by {
            assert(total(stored, instance_refs(c)) + 0 == count_core(instance.handles(), c) + total(
                m.instances,
                instance_refs(c),
            ));
        }
        assert forall|c: u64| #[trigger] after.outside(c) == m.outside(c) + count_one(
            m.added_instance(instance),
            c,
        ) - count_core(instance.handles(), c) by {
            lemma_mint_strong(m.ledger, id, ResourceKind::Instance, c);
            assert(after.refs(c) == m.refs(c) + count_core(instance.handles(), c));
        }
        assert(after.counted()) by {
            assert forall|c: u64| #[trigger] after.refs(c) <= after.ledger.strong(c) by {
                assert(m.refs(c) + count_core(instance.handles(), c) <= m.ledger.strong(c));
                assert(after.outside(c) == m.outside(c) + count_one(m.added_instance(instance), c)
                    - count_core(instance.handles(), c));
            }
        }
        lemma_minted_tree_handles(m, after, ResourceKind::Instance, id);
        lemma_minted_sound(m, after, ResourceKind::Instance, id);
    }
}

/// Adding a face material under an id that no other kind of resource uses keeps a scene
/// sound: the handles it owns are stored, and one more handle for the face material
/// itself exists outside the scene.
pub proof fn add_face_material_keeps_sound(m: SceneModel, material: FaceMaterialParts)
    requires
        m.sound(),
        m.ledger.clock < u64::MAX,
        m.id_open(ResourceKind::FaceMaterial, material.id),
        m.holds_outside(material.handles()),
    ensures
        m.add_face_material(material).sound(),
        forall|c: u64| #[trigger]
            m.add_face_material(material).outside(c) == m.outside(c) + count_one(
                m.added_face_material(material),
                c,
            ) - count_core(material.handles(), c),
{
    let id = material.id;
    let after = m.add_face_material(material);
    let stored = m.face_materials.insert(id, material);
    assert forall|c: u64| #[trigger] total(stored, face_refs(c)) + (if m.face_materials.contains_key(id) {
        count_core(m.face_materials[id].handles(), c)
    } else {
        0
    }) == count_core(material.handles(), c) + total(m.face_materials, face_refs(c)) by {
        lemma_total_insert(m.face_materials, face_refs(c), id, material);
    }
    if m.face_materials.contains_key(id) {
        let replaced = m.face_materials[id].handles();
        let put = SceneModel { face_materials: stored, ..m };
        assert(put.face_materials.dom() =~= m.face_materials.dom());
        assert forall|c: u64| #[trigger] put.refs(c) + count_core(replaced, c) == m.refs(c)
            + count_core(material.handles(), c) by {
            assert(total(stored, face_refs(c)) + count_core(replaced, c) == count_core(
                material.handles(),
                c,
            ) + total(m.face_materials, face_refs(c)));
        }
        assert(put.counted()) by {
            assert forall|c: u64| #[trigger] put.refs(c) <= put.ledger.strong(c) by {
                assert(m.refs(c) + count_core(material.handles(), c) <= m.ledger.strong(c));
                assert(put.refs(c) + count_core(replaced, c) == m.refs(c) + count_core(
                    material.handles(),
                    c,
                ));
            }
        }
        assert forall|k: ResourceKind, x: GenericId| #[trigger] put.present(k, x) <==> m.present(
            k,
            x,
        ) by {}
        lemma_same_ledger_sound(m, put);
        assert(put.holds_outside(replaced)) by {
            assert forall|c: u64| #[trigger] put.refs(c) + count_core(replaced, c)
                <= put.ledger.strong(c) by {
                assert(m.refs(c) + count_core(material.handles(), c) <= m.ledger.strong(c));
            }
        }
        release_keeps_sound(put, replaced);
        let freed = put.with_ledger(put.ledger.release_all(replaced));
        super::model::lemma_release_all(put.ledger, replaced);
        lemma_mint_strong(freed.ledger, id, ResourceKind::FaceMaterial, 0);
        assert(after.ledger == freed.ledger.mint(id, ResourceKind::FaceMaterial));
        assert(m.present(ResourceKind::FaceMaterial, id));
        assert(freed.id_open(ResourceKind::FaceMaterial, id)) by {
            assert forall|other: ResourceKind| #[trigger] freed.present(other, id) implies other
                == ResourceKind::FaceMaterial by {
                assert(m.present(other, id));
            }
        }
        assert forall|k: ResourceKind, x: GenericId| #[trigger] after.present(k, x)
            <==> freed.present(k, x) || (k, x) == (ResourceKind::FaceMaterial, id) by {}
        assert forall|c: u64| #[trigger] after.refs(c) == freed.refs(c) by {}
        lemma_add_plain_sound(freed, after, ResourceKind::FaceMaterial, id);
        assert forall|c: u64| #[trigger] after.outside(c) == m.outside(c) + count_one(
            m.added_face_material(material),
            c,
        ) - count_core(material.handles(), c) by {
            assert(after.outside(c) == freed.outside(c) + count_one(freed.ledger.minted(id), c));
            assert(freed.outside(c) == put.outside(c) - count_core(replaced, c));
            assert(put.refs(c) + count_core(replaced, c) == m.refs(c) + count_core(
                material.handles(),
                c,
            ));
        }
    } else {
        lemma_mint_strong(m.ledger, id, ResourceKind::FaceMaterial, 0);
        assert(stored.dom() =~= m.face_materials.dom().insert(id));
        assert forall|k: ResourceKind, x: GenericId| #[trigger] after.present(k, x) <==> m.present(
            k,
            x,
        ) || (k, x) == (ResourceKind::FaceMaterial, id) by {}
        assert forall|c: u64| #[trigger] after.refs(c) == m.refs(c) + count_core(
            material.handles(),
            c,
        ) by {
            assert(total(stored, face_refs(c)) + 0 == count_core(material.handles(), c) + total(
                m.face_materials,
                face_refs(c),
            ));
        }
        assert forall|c: u64| #[trigger] after.outside(c) == m.outside(c) + count_one(
            m.added_face_material(material),
            c,
        ) - count_core(material.handles(), c) by {
            lemma_mint_strong(m.ledger, id, ResourceKind::FaceMaterial, c);
            assert(after.refs(c) == m.refs(c) + count_core(material.handles(), c));
        }
        assert(after.counted()) by {
            assert forall|c: u64| #[trigger] after.refs(c) <= after.ledger.strong(c) by {
                assert(m.refs(c) + count_core(material.handles(), c) <= m.ledger.strong(c));
                assert(after.outside(c) == m.outside(c) + count_one(m.added_face_material(material), c)
                    - count_core(material.handles(), c));
            }
        }
        lemma_minted_tree_handles(m, after, ResourceKind::FaceMaterial, id);
        lemma_minted_sound(m, after, ResourceKind::FaceMaterial, id);
    }
}

/// Adding a line material under an id that no other kind of resource uses keeps a scene
/// sound: the handles it owns are stored, and one more handle for the line material
/// itself exists outside the scene.
pub proof fn add_line_material_keeps_sound(m: SceneModel, material: LineMaterialParts)
    requires
        m.sound(),
        m.ledger.clock < u64::MAX,
        m.id_open(ResourceKind::LineMaterial, material.id),
        m.holds_outside(material.handles()),
    ensures
        m.add_line_material(material).sound(),
        forall|c: u64| #[trigger]
            m.add_line_material(material).outside(c) == m.outside(c) + count_one(
                m.added_line_material(material),
                c,
            ) - count_core(material.handles(), c),
{
    let id = material.id;
    let after = m.add_line_material(material);
    let stored = m.line_materials.insert(id, material);
    assert forall|c: u64| #[trigger] total(stored, line_refs(c)) + (if m.line_materials.contains_key(id) {
        count_core(m.line_materials[id].handles(), c)
    } else {
        0
    }) == count_core(material.handles(), c) + total(m.line_materials, line_refs(c)) by {
        lemma_total_insert(m.line_materials, line_refs(c), id, material);
    }
    if m.line_materials.contains_key(id) {
        let replaced = m.line_materials[id].handles();
        let put = SceneModel { line_materials: stored, ..m };
        assert(put.line_materials.dom() =~= m.line_materials.dom());
        assert forall|c: u64| #[trigger] put.refs(c) + count_core(replaced, c) == m.refs(c)
            + count_core(material.handles(), c) by {
            assert(total(stored, line_refs(c)) + count_core(replaced, c) == count_core(
                material.handles(),
                c,
            ) + total(m.line_materials, line_refs(c)));
        }
        assert(put.counted()) by {
            assert forall|c: u64| #[trigger] put.refs(c) <= put.ledger.strong(c) by {
                assert(m.refs(c) + count_core(material.handles(), c) <= m.ledger.strong(c));
                assert(put.refs(c) + count_core(replaced, c) == m.refs(c) + count_core(
                    material.handles(),
                    c,
                ));
            }
        }
        assert forall|k: ResourceKind, x: GenericId| #[trigger] put.present(k, x) <==> m.present(
            k,
            x,
        ) by {}
        lemma_same_ledger_sound(m, put);
        assert(put.holds_outside(replaced)) by {
            assert forall|c: u64| #[trigger] put.refs(c) + count_core(replaced, c)
                <= put.ledger.strong(c) by {
                assert(m.refs(c) + count_core(material.handles(), c) <= m.ledger.strong(c));
            }
        }
        release_keeps_sound(put, replaced);
        let freed = put.with_ledger(put.ledger.release_all(replaced));
        super::model::lemma_release_all(put.ledger, replaced);
        lemma_mint_strong(freed.ledger, id, ResourceKind::LineMaterial, 0);
        assert(after.ledger == freed.ledger.mint(id, ResourceKind::LineMaterial));
        assert(m.present(ResourceKind::LineMaterial, id));
        assert(freed.id_open(ResourceKind::LineMaterial, id)) by {
            assert forall|other: ResourceKind| #[trigger] freed.present(other, id) implies other
                == ResourceKind::LineMaterial by {
                assert(m.present(other, id));
            }
        }
        assert forall|k: ResourceKind, x: GenericId| #[trigger] after.present(k, x)
            <==> freed.present(k, x) || (k, x) == (ResourceKind::LineMaterial, id) by {}
        assert forall|c: u64| #[trigger] after.refs(c) == freed.refs(c) by {}
        lemma_add_plain_sound(freed, after, ResourceKind::LineMaterial, id);
        assert forall|c: u64| #[trigger] after.outside(c) == m.outside(c) + count_one(
            m.added_line_material(material),
            c,
        ) - count_core(material.handles(), c) by {
            assert(after.outside(c) == freed.outside(c) + count_one(freed.ledger.minted(id), c));
            assert(freed.outside(c) == put.outside(c) - count_core(replaced, c));
            assert(put.refs(c) + count_core(replaced, c) == m.refs(c) + count_core(
                material.handles(),
                c,
            ));
        }
    } else {
        lemma_mint_strong(m.ledger, id, ResourceKind::LineMaterial, 0);
        assert(stored.dom() =~= m.line_materials.dom().insert(id));
        assert forall|k: ResourceKind, x: GenericId| #[trigger] after.present(k, x) <==> m.present(
            k,
            x,
        ) || (k, x) == (ResourceKind::LineMaterial, id) by {}
        assert forall|c: u64| #[trigger] after.refs(c) == m.refs(c) + count_core(
            material.handles(),
            c,
        ) by {
            assert(total(stored, line_refs(c)) + 0 == count_core(material.handles(), c) + total(
                m.line_materials,
                line_refs(c),
            ));
        }
        assert forall|c: u64| #[trigger] after.outside(c) == m.outside(c) + count_one(
            m.added_line_material(material),
            c,
        ) - count_core(material.handles(), c) by {
            lemma_mint_strong(m.ledger, id, ResourceKind::LineMaterial, c);
            assert(after.refs(c) == m.refs(c) + count_core(material.handles(), c));
        }
        assert(after.counted()) by {
            assert forall|c: u64| #[trigger] after.refs(c) <= after.ledger.strong(c) by {
                assert(m.refs(c) + count_core(material.handles(), c) <= m.ledger.strong(c));
                assert(after.outside(c) == m.outside(c) + count_one(m.added_line_material(material), c)
                    - count_core(material.handles(), c));
            }
        }
        lemma_minted_tree_handles(m, after, ResourceKind::LineMaterial, id);
        lemma_minted_sound(m, after, ResourceKind::LineMaterial, id);
    }
}

/// Adding a point material under an id that no other kind of resource uses keeps a scene
/// sound: the handles it owns are stored, and one more handle for the point material
/// itself exists outside the scene.
pub proof fn add_point_material_keeps_sound(m: SceneModel, material: PointMaterialParts)
    requires
        m.sound(),
        m.ledger.clock < u64::MAX,
        m.id_open(ResourceKind::PointMaterial, material.id),
        m.holds_outside(material.handles()),
    ensures
        m.add_point_material(material).sound(),
        forall|c: u64| #[trigger]
            m.add_point_material(material).outside(c) == m.outside(c) + count_one(
                m.added_point_material(material),
                c,
            ) - count_core(material.handles(), c),
{
    let id = material.id;
    let after = m.add_point_material(material);
    let stored = m.point_materials.insert(id, material);
    assert forall|c: u64| #[trigger] total(stored, point_refs(c)) + (if m.point_materials.contains_key(id) {
        count_core(m.point_materials[id].handles(), c)
    } else {
        0
    }) == count_core(material.handles(), c) + total(m.point_materials, point_refs(c)) by {
        lemma_total_insert(m.point_materials, point_refs(c), id, material);
    }
    if m.point_materials.contains_key(id) {
        let replaced = m.point_materials[id].handles();
        let put = SceneModel { point_materials: stored, ..m };
        assert(put.point_materials.dom() =~= m.point_materials.dom());
        assert forall|c: u64| #[trigger] put.refs(c) + count_core(replaced, c) == m.refs(c)
            + count_core(material.handles(), c) by {
            assert(total(stored, point_refs(c)) + count_core(replaced, c) == count_core(
                material.handles(),
                c,
            ) + total(m.point_materials, point_refs(c)));
        }
        assert(put.counted()) by {
            assert forall|c: u64| #[trigger] put.refs(c) <= put.ledger.strong(c) by {
                assert(m.refs(c) + count_core(material.handles(), c) <= m.ledger.strong(c));
                assert(put.refs(c) + count_core(replaced, c) == m.refs(c) + count_core(
                    material.handles(),
                    c,
                ));
            }
        }
        assert forall|k: ResourceKind, x: GenericId| #[trigger] put.present(k, x) <==> m.present(
            k,
            x,
        ) by {}
        lemma_same_ledger_sound(m, put);
        assert(put.holds_outside(replaced)) by {
            assert forall|c: u64| #[trigger] put.refs(c) + count_core(replaced, c)
                <= put.ledger.strong(c) by {
                assert(m.refs(c) + count_core(material.handles(), c) <= m.ledger.strong(c));
            }
        }
        release_keeps_sound(put, replaced);
        let freed = put.with_ledger(put.ledger.release_all(replaced));
        super::model::lemma_release_all(put.ledger, replaced);
        lemma_mint_strong(freed.ledger, id, ResourceKind::PointMaterial, 0);
        assert(after.ledger == freed.ledger.mint(id, ResourceKind::PointMaterial));
        assert(m.present(ResourceKind::PointMaterial, id));
        assert(freed.id_open(ResourceKind::PointMaterial, id)) by {
            assert forall|other: ResourceKind| #[trigger] freed.present(other, id) implies other
                == ResourceKind::PointMaterial by {
                assert(m.present(other, id));
            }
        }
        assert forall|k: ResourceKind, x: GenericId| #[trigger] after.present(k, x)
            <==> freed.present(k, x) || (k, x) == (ResourceKind::PointMaterial, id) by {}
        assert forall|c: u64| #[trigger] after.refs(c) == freed.refs(c) by {}
        lemma_add_plain_sound(freed, after, ResourceKind::PointMaterial, id);
        assert forall|c: u64| #[trigger] after.outside(c) == m.outside(c) + count_one(
            m.added_point_material(material),
            c,
        ) - count_core(material.handles(), c) by {
            assert(after.outside(c) == freed.outside(c) + count_one(freed.ledger.minted(id), c));
            assert(freed.outside(c) == put.outside(c) - count_core(replaced, c));
            assert(put.refs(c) + count_core(replaced, c) == m.refs(c) + count_core(
                material.handles(),
                c,
            ));
        }
    } else {
        lemma_mint_strong(m.ledger, id, ResourceKind::PointMaterial, 0);
        assert(stored.dom() =~= m.point_materials.dom().insert(id));
        assert forall|k: ResourceKind, x: GenericId| #[trigger] after.present(k, x) <==> m.present(
            k,
            x,
        ) || (k, x) == (ResourceKind::PointMaterial, id) by {}
        assert forall|c: u64| #[trigger] after.refs(c) == m.refs(c) + count_core(
            material.handles(),
            c,
        ) by {
            assert(total(stored, point_refs(c)) + 0 == count_core(material.handles(), c) + total(
                m.point_materials,
                point_refs(c),
            ));
        }
        assert forall|c: u64| #[trigger] after.outside(c) == m.outside(c) + count_one(
            m.added_point_material(material),
            c,
        ) - count_core(material.handles(), c) by {
            lemma_mint_strong(m.ledger, id, ResourceKind::PointMaterial, c);
            assert(after.refs(c) == m.refs(c) + count_core(material.handles(), c));
        }
        assert(after.counted()) by {
            assert forall|c: u64| #[trigger] after.refs(c) <= after.ledger.strong(c) by {
                assert(m.refs(c) + count_core(material.handles(), c) <= m.ledger.strong(c));
                assert(after.outside(c) == m.outside(c) + count_one(m.added_point_material(material), c)
                    - count_core(material.handles(), c));
            }
        }
        lemma_minted_tree_handles(m, after, ResourceKind::PointMaterial, id);
        lemma_minted_sound(m, after, ResourceKind::PointMaterial, id);
    }
}

/// Adding an instance makes one handle.
pub proof fn lemma_add_instance_clock(m: SceneModel, instance: InstanceParts)
    requires
        m.ledger.wf(),
        m.ledger.clock < u64::MAX,
    ensures
        m.add_instance(instance).ledger.clock == m.ledger.clock + 1,
{
    if m.instances.contains_key(instance.id) {
        super::model::lemma_release_all(m.ledger, m.instances[instance.id].handles());
    }
}

/// Adding a node makes two handles.
pub proof fn lemma_add_node_clock(m: SceneModel, id: NodeId, h: Handle)
    requires
        m.ledger.wf(),
        m.ledger.clock + 2 <= u64::MAX,
        h == m.ledger.minted(id),
    ensures
        m.ledger.mint(id, ResourceKind::Node).retain(h).clock == m.ledger.clock + 2,
{
    lemma_mint_strong(m.ledger, id, ResourceKind::Node, 0);
}

} // verus!
