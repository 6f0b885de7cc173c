//! Laws of the scene tree: every operation on nodes keeps a scene sound.

use super::forest::{
    attached_nodes, detached_nodes, detached_roots, free, lemma_add_isolated, lemma_attach_child,
    lemma_attach_root, lemma_detach, lemma_not_above_parent, lemma_push_distinct,
    lemma_same_forest, lemma_same_relations, lemma_without_first, same_shape,
};
use super::laws::{
    lemma_minted_sound, reap_keeps_sound, retain_keeps_sound, take_handle_keeps_sound,
};
use super::model::{lists_id, SceneModel};
use super::nodes::{
    ancestors, lemma_detach_shape, lemma_edits_keep_shape, lemma_unhung, line_above,
};
use super::ownership::{
    lemma_count_append, lemma_count_opt, lemma_count_push, lemma_count_remove, lemma_mint_strong,
    lemma_total_insert, lemma_total_same, node_refs,
};
use super::soundness::{lemma_named_is_live, release_keeps_sound};
use super::tree::{above, climb, climb_ends, forest, lemma_above_present, lemma_above_step, NodeMap};
use crate::common::Transform;
use crate::resource::handle::{count_core, count_one, GenericId, Handle, NodeId, ResourceKind};
use crate::resource::instance::InstanceParts;
use crate::resource::material::opt_seq;
use crate::resource::node::{
    first_index, lemma_first_index, without_first, NodeFlags, NodeModel, NodePayload,
};
use vstd::prelude::*;

verus! {

/// Whether two maps hold the same nodes with the same links and the same handles.
pub open spec fn same_ownership(a: NodeMap, b: NodeMap) -> bool {
    &&& same_shape(a, b)
    &&& forall|k: NodeId| #[trigger]
        a.contains_key(k) ==> a[k].id == b[k].id && a[k].payload.handle()
            == b[k].payload.handle()
}

/// Whether `after` differs from `m` at most in the caches and attributes of nodes
/// and in the generation.
pub open spec fn only_attributes(m: SceneModel, after: SceneModel) -> bool {
    &&& same_ownership(m.nodes, after.nodes)
    &&& after.node_generation >= 1
    &&& after == (SceneModel {
        nodes: after.nodes,
        node_generation: after.node_generation,
        ..m
    })
}

/// Changing caches and attributes of nodes keeps a scene sound, and disturbs no
/// handle.
pub proof fn attributes_keep_sound(m: SceneModel, after: SceneModel)
    requires
        m.sound(),
        only_attributes(m, after),
    ensures
        after.sound(),
        forall|c: u64| #[trigger] after.outside(c) == m.outside(c),
{
    assert forall|k: NodeId| #[trigger] after.nodes.contains_key(k) <==> m.nodes.contains_key(
        k,
    ) by {}
    lemma_same_forest(m.nodes, after.nodes, m.roots);
    assert forall|c: u64| #[trigger] after.refs(c) == m.refs(c) by {
        assert forall|k: u64| #[trigger] m.nodes.contains_key(k) implies node_refs(c)(m.nodes[k])
            == node_refs(c)(after.nodes[k]) by {
            assert(m.nodes[k].handles() == after.nodes[k].handles());
        }
        lemma_total_same(m.nodes, after.nodes, node_refs(c));
    }
    assert forall|c: u64| #[trigger] after.outside(c) == m.outside(c) by {
        assert(after.refs(c) == m.refs(c));
    }
    assert(after.wf()) by {
        assert forall|k: u64| #[trigger] after.nodes.contains_key(k) implies after.nodes[k].id
            == k by {
            assert(m.nodes.contains_key(k));
        }
    }
    assert(after.counted()) by {
        assert forall|c: u64| #[trigger] after.refs(c) <= after.ledger.strong(c) by {
            assert(m.refs(c) <= m.ledger.strong(c));
        }
    }
    assert forall|h: Handle| #[trigger] after.names_node(h) <==> m.names_node(h) by {}
    assert(after.tree_handles()) by {
        assert forall|i: int| 0 <= i < after.roots.len() implies after.names_node(
            #[trigger] after.roots[i],
        ) by {
            assert(m.names_node(m.roots[i]));
        }
        assert forall|k: NodeId, i: int|
            after.nodes.contains_key(k) && 0 <= i
                < after.nodes[k].children.len() implies after.names_node(
            #[trigger] after.nodes[k].children[i],
        ) by {
            assert(m.nodes.contains_key(k));
            assert(m.names_node(m.nodes[k].children[i]));
        }
    }
    lemma_same_presence(m, after);
}

/// The parts of soundness that speak of presence and the ledger alone.
pub proof fn lemma_same_presence(m: SceneModel, after: SceneModel)
    requires
        m.ids_apart(),
        m.slots_sound(),
        m.live_or_dropped(),
        after.ledger == m.ledger,
        forall|kind: ResourceKind, id: GenericId| #[trigger]
            after.present(kind, id) <==> m.present(kind, id),
    ensures
        after.ids_apart(),
        after.slots_sound(),
        after.live_or_dropped(),
{
    assert forall|a: ResourceKind, b: ResourceKind, x: GenericId|
        #![trigger after.present(a, x), after.present(b, x)]
        after.present(a, x) && after.present(b, x) implies a == b by {
        assert(m.present(a, x) && m.present(b, x));
    }
    assert forall|x: GenericId| #[trigger] after.ledger.slot_live(
        x,
    ) implies after.ledger.cores[after.ledger.slots[x]].id == x && after.present(
        after.ledger.cores[after.ledger.slots[x]].kind,
        x,
    ) by {
        assert(m.ledger.slot_live(x));
        assert(m.present(m.ledger.cores[m.ledger.slots[x]].kind, x));
    }
    assert forall|kind: ResourceKind, id: GenericId| #[trigger] after.present(
        kind,
        id,
    ) implies after.ledger.slot_live(id) || after.ledger.dropped.contains((kind, id)) by {
        assert(m.present(kind, id));
    }
}

/// Whether nothing refers to a node depends on nothing but the links.
proof fn lemma_same_free(a: NodeMap, b: NodeMap, roots: Seq<Handle>, id: NodeId)
    requires
        same_shape(a, b),
        free(a, roots, id),
    ensures
        free(b, roots, id),
{
    assert forall|k: NodeId| a.contains_key(k) == b.contains_key(k) by {}
    assert forall|p: NodeId| #[trigger] b.contains_key(p) implies !lists_id(
        b[p].children,
        id,
    ) by {
        assert(a.contains_key(p));
    }
    assert forall|c: NodeId| #[trigger]
        b.contains_key(c) && c != id && !b.contains_key(id) implies b[c].parent != Some(id) by {
        assert(a.contains_key(c));
    }
}

/// Hanging a free node by a handle that exists outside the scene keeps the scene
/// sound: the handle moves from outside into the tree.
proof fn lemma_hang_sound(m: SceneModel, h: Handle, parent: Option<NodeId>)
    requires
        m.sound(),
        free(m.nodes, m.roots, h.id),
        m.names_node(h),
        m.outside(h.core->0) >= 1,
        match parent {
            Some(p) => m.nodes.contains_key(p) && !above(m.nodes, h.id, p),
            None => true,
        },
    ensures
        m.hung(h, parent).sound(),
        forall|c: u64| #[trigger]
            m.hung(h, parent).outside(c) == m.outside(c) - count_one(h, c),
{
    let after = m.hung(h, parent);
    match parent {
        None => {
            lemma_attach_root(m.nodes, m.roots, h);
            assert forall|c: u64| #[trigger] after.refs(c) == m.refs(c) + count_one(h, c) by {
                lemma_count_push(m.roots, h, c);
            }
        },
        Some(p) => {
            lemma_attach_child(m.nodes, m.roots, h, p);
            lemma_above_step(m.nodes, p, p);
            let id = h.id;
            assert(id != p);
            assert forall|c: u64| #[trigger] after.refs(c) == m.refs(c) + count_one(h, c) by {
                let linked = m.nodes.insert(
                    id,
                    NodeModel { parent: Some(p), ..m.nodes[id] },
                );
                lemma_total_insert(m.nodes, node_refs(c), id, linked[id]);
                assert(linked[id].handles() == m.nodes[id].handles());
                assert(linked.dom() =~= m.nodes.dom());
                let fuller = linked[p].with_children(linked[p].children.push(h));
                lemma_total_insert(linked, node_refs(c), p, fuller);
                let pay = opt_seq(linked[p].payload.handle());
                lemma_count_append(linked[p].children, pay, c);
                lemma_count_append(linked[p].children.push(h), pay, c);
                lemma_count_push(linked[p].children, h, c);
            }
        },
    }
    assert forall|k: NodeId| #[trigger] after.nodes.contains_key(k) <==> m.nodes.contains_key(
        k,
    ) by {}
    assert forall|c: u64| #[trigger] after.outside(c) == m.outside(c) - count_one(h, c) by {
        assert(after.refs(c) == m.refs(c) + count_one(h, c));
    }
    assert(after.counted()) by {
        assert forall|c: u64| #[trigger] after.refs(c) <= after.ledger.strong(c) by {
            assert(m.refs(c) <= m.ledger.strong(c));
            assert(after.refs(c) == m.refs(c) + count_one(h, c));
        }
    }
    assert(after.wf()) by {
        assert forall|k: u64| #[trigger] after.nodes.contains_key(k) implies after.nodes[k].id
            == k by {
            assert(m.nodes.contains_key(k));
        }
    }
    assert forall|x: Handle| #[trigger] after.names_node(x) <==> m.names_node(x) by {}
    assert(after.tree_handles()) by {
        assert forall|i: int| 0 <= i < after.roots.len() implies after.names_node(
            #[trigger] after.roots[i],
        ) by {
            if i < m.roots.len() {
                assert(m.names_node(m.roots[i]));
            }
        }
        assert forall|k: NodeId, i: int|
            after.nodes.contains_key(k) && 0 <= i
                < after.nodes[k].children.len() implies after.names_node(
            #[trigger] after.nodes[k].children[i],
        ) by {
            assert(m.nodes.contains_key(k));
            if i < m.nodes[k].children.len() {
                assert(m.names_node(m.nodes[k].children[i]));
                assert(after.nodes[k].children[i] == m.nodes[k].children[i]);
            }
        }
    }
    lemma_same_presence(m, after);
}

/// Taking a node from the tree keeps a scene sound: the handle that the tree owned
/// it by now exists outside.
proof fn lemma_unhung_sound(m: SceneModel, id: NodeId)
    requires
        m.sound(),
        m.nodes.contains_key(id),
    ensures
        m.unhung(id).sound(),
        free(m.unhung(id).nodes, m.unhung(id).roots, id),
        forall|c: u64| #[trigger]
            m.unhung(id).outside(c) == m.outside(c) + count_core(opt_seq(m.tree_handle(id)), c),
        m.tree_handle(id) matches Some(h) ==> h.id == id && m.names_node(h) && m.unhung(
            id,
        ).outside(h.core->0) >= 1,
        m.unhung(id).nodes.dom() == m.nodes.dom(),
        forall|k: NodeId| #[trigger]
            m.unhung(id).nodes.contains_key(k) ==> (m.unhung(id).nodes[k].parent is None || m.unhung(
                id,
            ).nodes[k].parent == m.nodes[k].parent),
{
    let after = m.unhung(id);
    let cut = detached_nodes(m.nodes, id);
    let rest = detached_roots(m.nodes, m.roots, id);
    lemma_detach(m.nodes, m.roots, id);
    let th = m.tree_handle(id);
    match m.nodes[id].parent {
        None => {
            lemma_first_index(m.roots, id);
            assert forall|c: u64| #[trigger] after.refs(c) + count_core(opt_seq(th), c) == m.refs(
                c,
            ) by {
                lemma_count_opt(th, c);
                if th is Some {
                    lemma_count_remove(m.roots, first_index(m.roots, id), c);
                }
            }
            if th is Some {
                assert(m.names_node(m.roots[first_index(m.roots, id)]));
            }
        },
        Some(p) => {
            assert(climb_ends(m.nodes, id));
            lemma_not_above_parent(m.nodes, id);
            assert(m.nodes.contains_key(p));
            let kids = m.nodes[p].children;
            lemma_first_index(kids, id);
            assert forall|c: u64| #[trigger] after.refs(c) + count_core(opt_seq(th), c) == m.refs(
                c,
            ) by {
                lemma_count_opt(th, c);
                let fewer = m.nodes[p].with_children(without_first(kids, id));
                let unlisted = m.nodes.insert(p, fewer);
                lemma_total_insert(m.nodes, node_refs(c), p, fewer);
                let pay = opt_seq(m.nodes[p].payload.handle());
                lemma_count_append(kids, pay, c);
                lemma_count_append(without_first(kids, id), pay, c);
                if th is Some {
                    lemma_count_remove(kids, first_index(kids, id), c);
                }
                assert(unlisted.dom() =~= m.nodes.dom());
                lemma_total_insert(unlisted, node_refs(c), id, cut[id]);
                assert(cut[id].handles() == unlisted[id].handles());
                assert forall|k: u64| #[trigger] cut.contains_key(k) implies node_refs(c)(cut[k])
                    == node_refs(c)(after.nodes[k]) by {
                    assert(cut[k].handles() == after.nodes[k].handles());
                }
                lemma_total_same(cut, after.nodes, node_refs(c));
            }
            if th is Some {
                assert(m.names_node(m.nodes[p].children[first_index(kids, id)]));
            }
        },
    }
    assert forall|k: NodeId| #[trigger] after.nodes.contains_key(k) <==> m.nodes.contains_key(
        k,
    ) by {}
    assert forall|c: u64| #[trigger] after.outside(c) == m.outside(c) + count_core(
        opt_seq(th),
        c,
    ) by {
        assert(after.refs(c) + count_core(opt_seq(th), c) == m.refs(c));
    }
    if th is Some {
        let c = th->0.core->0;
        lemma_count_opt(th, c);
        assert(m.refs(c) <= m.ledger.strong(c));
        assert(after.outside(c) == m.outside(c) + count_core(opt_seq(th), c));
    }
    assert(after.counted()) by {
        assert forall|c: u64| #[trigger] after.refs(c) <= after.ledger.strong(c) by {
            assert(m.refs(c) <= m.ledger.strong(c));
            assert(after.refs(c) + count_core(opt_seq(th), c) == m.refs(c));
        }
    }
    assert(after.wf()) by {
        assert forall|k: u64| #[trigger] after.nodes.contains_key(k) implies after.nodes[k].id
            == k by {
            assert(m.nodes.contains_key(k));
        }
    }
    assert forall|x: Handle| #[trigger] after.names_node(x) <==> m.names_node(x) by {}
    assert(after.tree_handles()) by {
        lemma_without_first(m.roots, id);
        assert forall|i: int| 0 <= i < after.roots.len() implies after.names_node(
            #[trigger] after.roots[i],
        ) by {
            assert(m.roots.contains(after.roots[i]));
            let j = choose|j: int| 0 <= j < m.roots.len() && m.roots[j] == after.roots[i];
            assert(m.names_node(m.roots[j]));
        }
        assert forall|k: NodeId, i: int|
            after.nodes.contains_key(k) && 0 <= i
                < after.nodes[k].children.len() implies after.names_node(
            #[trigger] after.nodes[k].children[i],
        ) by {
            assert(m.nodes.contains_key(k));
            lemma_without_first(m.nodes[k].children, id);
            let h = after.nodes[k].children[i];
            assert(m.nodes[k].children.contains(h));
            let j = choose|j: int|
                0 <= j < m.nodes[k].children.len() && m.nodes[k].children[j] == h;
            assert(m.names_node(m.nodes[k].children[j]));
        }
    }
    lemma_same_presence(m, after);
}

/// Taking a node from the tree, and giving up what was cached around it, keeps a scene
/// sound.
pub proof fn lemma_detach_sound(m: SceneModel, id: NodeId)
    requires
        m.sound(),
        m.nodes.contains_key(id),
    ensures
        m.detach(id).sound(),
        free(m.detach(id).nodes, m.detach(id).roots, id),
        forall|c: u64| #[trigger]
            m.detach(id).outside(c) == m.outside(c) + count_core(opt_seq(m.tree_handle(id)), c),
        m.tree_handle(id) matches Some(h) ==> h.id == id && m.names_node(h) && m.detach(
            id,
        ).outside(h.core->0) >= 1,
        m.detach(id).nodes.dom() == m.nodes.dom(),
        forall|k: NodeId| #[trigger]
            m.detach(id).nodes.contains_key(k) ==> (m.detach(id).nodes[k].parent is None || m.detach(
                id,
            ).nodes[k].parent == m.nodes[k].parent),
{
    lemma_unhung_sound(m, id);
    lemma_detach_shape(m, id);
    let u = m.unhung(id);
    let after = m.detach(id);
    assert(only_attributes(u, after));
    attributes_keep_sound(u, after);
    lemma_same_free(u.nodes, after.nodes, u.roots, id);
    assert(after.nodes.dom() =~= m.nodes.dom());
    assert forall|c: u64| #[trigger] after.outside(c) == m.outside(c) + count_core(
        opt_seq(m.tree_handle(id)),
        c,
    ) by {
        assert(after.outside(c) == u.outside(c));
    }
    assert forall|k: NodeId| #[trigger] after.nodes.contains_key(k) implies (after.nodes[k].parent
        is None || after.nodes[k].parent == m.nodes[k].parent) by {
        assert(u.nodes.contains_key(k));
    }
}

/// In a sound scene nothing refers to an id that no node is stored under.
pub proof fn lemma_absent_is_free(m: SceneModel, id: NodeId)
    requires
        m.sound(),
        !m.nodes.contains_key(id),
    ensures
        m.unreferenced(id),
{
    if lists_id(m.roots, id) {
        lemma_named_is_live(m, id);
    }
    assert forall|p: NodeId| #[trigger] m.nodes.contains_key(p) implies !lists_id(
        m.nodes[p].children,
        id,
    ) by {
        if lists_id(m.nodes[p].children, id) {
            lemma_named_is_live(m, id);
        }
    }
    assert forall|c: NodeId| #[trigger]
        m.nodes.contains_key(c) && c != id && !m.nodes.contains_key(id) implies m.nodes[c].parent
        != Some(id) by {
        if m.nodes[c].parent == Some(id) {
            assert(m.nodes.contains_key(m.nodes[c].parent->0));
        }
    }
}

/// Adding a node under an id that nothing uses keeps a scene sound. The tree owns
/// the node, and one handle for it exists outside the scene.
pub proof fn add_node_keeps_sound(
    m: SceneModel,
    id: NodeId,
    parent: Option<NodeId>,
    name: Option<Seq<char>>,
    transform: Transform,
    flags: NodeFlags,
)
    requires
        m.sound(),
        m.ledger.clock + 2 <= u64::MAX,
        m.node_generation < u64::MAX,
        forall|kind: ResourceKind| !#[trigger] m.present(kind, id),
        parent matches Some(p) ==> m.nodes.contains_key(p),
    ensures
        m.add_node(id, parent, name, transform, flags).sound(),
        m.add_node(id, parent, name, transform, flags).attached(id) <==> (match parent {
            Some(p) => m.attached(p),
            None => true,
        }),
        forall|c: u64| #[trigger]
            m.add_node(id, parent, name, transform, flags).outside(c) == m.outside(c) + count_one(
                m.ledger.minted(id),
                c,
            ),
{
    let node = NodeModel::fresh(id, name, transform, flags);
    let clean = m.unsummed(parent);
    lemma_unsummed_sound(m, parent);
    assert forall|kind: ResourceKind| !#[trigger] clean.present(kind, id) by {
        assert(!m.present(kind, id));
    }
    let none = opt_seq(node.payload.handle());
    assert forall|c: u64| count_core(none, c) == 0 by {
        lemma_count_opt(node.payload.handle(), c);
    }
    assert(clean.holds_outside(none)) by {
        assert forall|c: u64| #[trigger] clean.refs(c) + count_core(none, c)
            <= clean.ledger.strong(c) by {
            assert(clean.counted());
        }
    }
    lemma_place_sound(clean, node, parent);
    let c2 = placed(clean, node, parent);
    let after = m.add_node(id, parent, name, transform, flags);
    assert(after == c2.bumped());
    lemma_bumped_sound(c2);
    assert forall|c: u64| #[trigger] after.outside(c) == m.outside(c) + count_one(
        m.ledger.minted(id),
        c,
    ) by {
        assert(after.outside(c) == c2.outside(c));
        assert(clean.outside(c) == m.outside(c));
        assert(count_core(none, c) == 0);
    }
    if parent is Some {
        lemma_attached_same(m, clean, parent->0);
    }
    lemma_attached_same(c2, after, id);
}

/// Counting a change keeps a scene sound and disturbs no handle.
proof fn lemma_bumped_sound(m: SceneModel)
    requires
        m.sound(),
        m.node_generation < u64::MAX,
    ensures
        m.bumped().sound(),
        forall|c: u64| #[trigger] m.bumped().outside(c) == m.outside(c),
{
    assert(only_attributes(m, m.bumped()));
    attributes_keep_sound(m, m.bumped());
}

/// Giving up summaries keeps a scene sound and disturbs no handle.
proof fn lemma_unsummed_sound(m: SceneModel, parent: Option<NodeId>)
    requires
        m.sound(),
    ensures
        m.unsummed(parent).sound(),
        same_shape(m.nodes, m.unsummed(parent).nodes),
        forall|c: u64| #[trigger] m.unsummed(parent).outside(c) == m.outside(c),
        forall|c: u64| #[trigger] m.unsummed(parent).refs(c) == m.refs(c),
{
    lemma_edits_keep_shape(m.nodes, line_above(m.nodes, parent));
    let clean = m.unsummed(parent);
    assert(only_attributes(m, clean));
    attributes_keep_sound(m, clean);
    assert forall|c: u64| #[trigger] clean.refs(c) == m.refs(c) by {
        assert forall|k: u64| #[trigger] m.nodes.contains_key(k) implies node_refs(c)(m.nodes[k])
            == node_refs(c)(clean.nodes[k]) by {
            assert(m.nodes[k].handles() == clean.nodes[k].handles());
        }
        lemma_total_same(m.nodes, clean.nodes, node_refs(c));
    }
}

/// The scene once a node was stored and hung below `parent`, with one handle for the
/// tree and one to hand out.
spec fn placed(m: SceneModel, node: NodeModel, parent: Option<NodeId>) -> SceneModel {
    let handle = m.ledger.minted(node.id);
    SceneModel {
        nodes: m.nodes.insert(node.id, node),
        ledger: m.ledger.mint(node.id, ResourceKind::Node).retain(handle),
        ..m
    }.hung(handle, parent)
}

/// Storing a node without children under an id that nothing uses, and hanging it, keeps
/// a scene sound. The node takes its payload's handle from outside the scene.
proof fn lemma_place_sound(m: SceneModel, node: NodeModel, parent: Option<NodeId>)
    requires
        m.sound(),
        m.ledger.clock + 2 <= u64::MAX,
        forall|kind: ResourceKind| !#[trigger] m.present(kind, node.id),
        parent matches Some(p) ==> m.nodes.contains_key(p),
        node.parent is None,
        node.children.len() == 0,
        m.holds_outside(opt_seq(node.payload.handle())),
    ensures
        placed(m, node, parent).sound(),
        placed(m, node, parent).attached(node.id) <==> (match parent {
            Some(p) => m.attached(p),
            None => true,
        }),
        forall|c: u64| #[trigger]
            placed(m, node, parent).outside(c) == m.outside(c) + count_one(
                m.ledger.minted(node.id),
                c,
            ) - count_core(opt_seq(node.payload.handle()), c),
{
    let id = node.id;
    let h = m.ledger.minted(id);
    let pay = opt_seq(node.payload.handle());
    assert(!m.present(ResourceKind::Node, id));
    lemma_absent_is_free(m, id);
    lemma_add_isolated(m.nodes, m.roots, id, node);
    let a = SceneModel {
        nodes: m.nodes.insert(id, node),
        ledger: m.ledger.mint(id, ResourceKind::Node),
        ..m
    };
    assert(a.nodes.dom() =~= m.nodes.dom().insert(id));
    assert forall|c: u64| #[trigger] a.refs(c) == m.refs(c) + count_core(pay, c) by {
        lemma_total_insert(m.nodes, node_refs(c), id, node);
        assert(node.handles() =~= pay);
    }
    assert forall|c: u64| #[trigger] a.outside(c) == m.outside(c) + count_one(h, c) - count_core(
        pay,
        c,
    ) by {
        lemma_mint_strong(m.ledger, id, ResourceKind::Node, c);
        assert(a.refs(c) == m.refs(c) + count_core(pay, c));
    }
    lemma_mint_strong(m.ledger, id, ResourceKind::Node, 0);
    assert(a.counted()) by {
        assert forall|c: u64| #[trigger] a.refs(c) <= a.ledger.strong(c) by {
            lemma_mint_strong(m.ledger, id, ResourceKind::Node, c);
            assert(m.refs(c) + count_core(pay, c) <= m.ledger.strong(c));
            assert(a.refs(c) == m.refs(c) + count_core(pay, c));
        }
    }
    assert(m.id_open(ResourceKind::Node, id));
    assert forall|k: ResourceKind, x: GenericId| #[trigger] a.present(k, x) <==> m.present(k, x)
        || (k, x) == (ResourceKind::Node, id) by {}
    assert(a.wf()) by {
        assert forall|k: u64| #[trigger] a.nodes.contains_key(k) implies a.nodes[k].id == k by {
            if k != id {
                assert(m.nodes.contains_key(k));
            }
        }
    }
    assert(a.tree_handles()) by {
        assert forall|x: Handle| m.names_node(x) implies #[trigger] a.names_node(x) by {
            assert(x.id != id);
        }
        assert forall|i: int| 0 <= i < a.roots.len() implies a.names_node(
            #[trigger] a.roots[i],
        ) by {
            assert(m.names_node(m.roots[i]));
        }
        assert forall|k: NodeId, i: int|
            a.nodes.contains_key(k) && 0 <= i < a.nodes[k].children.len() implies a.names_node(
            #[trigger] a.nodes[k].children[i],
        ) by {
            assert(k != id);
            assert(m.nodes.contains_key(k));
            assert(m.names_node(m.nodes[k].children[i]));
        }
    }
    lemma_minted_sound(m, a, ResourceKind::Node, id);
    retain_keeps_sound(a, h);
    let b = a.with_ledger(a.ledger.retain(h));
    assert(b.names_node(h));
    assert(m.refs(h.core->0) + count_core(pay, h.core->0) <= m.ledger.strong(h.core->0));
    assert(a.outside(h.core->0) == m.outside(h.core->0) + count_one(h, h.core->0) - count_core(
        pay,
        h.core->0,
    ));
    assert(b.outside(h.core->0) == a.outside(h.core->0) + count_one(h, h.core->0));
    if parent is Some {
        lemma_isolated_not_above(m.nodes, id, node, parent->0);
    }
    lemma_hang_sound(b, h, parent);
    let after = placed(m, node, parent);
    assert(after =~= b.hung(h, parent));
    assert forall|c: u64| #[trigger] after.outside(c) == m.outside(c) + count_one(h, c)
        - count_core(pay, c) by {
        assert(after.outside(c) == b.outside(c) - count_one(h, c));
        assert(b.outside(c) == a.outside(c) + count_one(h, c));
        assert(a.outside(c) == m.outside(c) + count_one(h, c) - count_core(pay, c));
    }
    lemma_hung_attached(b, h, parent);
    if parent is Some {
        lemma_added_attached(m, a, id, node, parent->0);
        lemma_attached_same(a, b, parent->0);
    }
}

/// Inserting a pre-built node without children under an id that nothing uses keeps a
/// scene sound, where its recorded parent is there or it has none, and its payload's
/// handle exists outside the scene. The tree owns the node, and one handle for it exists
/// outside the scene.
pub proof fn insert_node_keeps_sound(m: SceneModel, node: NodeModel)
    requires
        m.sound(),
        m.ledger.clock + 2 <= u64::MAX,
        m.node_generation < u64::MAX,
        m.insertable(node),
    ensures
        m.insert_node(node).sound(),
        m.insert_node(node).attached(node.id) <==> (match node.parent {
            Some(p) => m.attached(p),
            None => true,
        }),
        forall|c: u64| #[trigger]
            m.insert_node(node).outside(c) == m.outside(c) + count_one(
                m.ledger.minted(node.id),
                c,
            ) - count_core(opt_seq(node.payload.handle()), c),
{
    let id = node.id;
    let parent = node.parent;
    let clean = m.unsummed(parent);
    let bare = NodeModel { parent: None, ..node.authored() };
    let pay = opt_seq(node.payload.handle());
    lemma_unsummed_sound(m, parent);
    assert(!m.present(ResourceKind::Node, id));
    assert forall|kind: ResourceKind| !#[trigger] clean.present(kind, id) by {
        assert(!m.present(kind, id));
    }
    assert(clean.holds_outside(pay)) by {
        assert forall|c: u64| #[trigger] clean.refs(c) + count_core(pay, c)
            <= clean.ledger.strong(c) by {
            assert(m.refs(c) + count_core(pay, c) <= m.ledger.strong(c));
            assert(clean.refs(c) == m.refs(c));
        }
    }
    lemma_place_sound(clean, bare, parent);
    let c2 = placed(clean, bare, parent);
    let after = m.insert_node(node);
    assert(after.nodes =~= c2.nodes);
    assert(after =~= c2.bumped());
    lemma_bumped_sound(c2);
    assert forall|c: u64| #[trigger] after.outside(c) == m.outside(c) + count_one(
        m.ledger.minted(id),
        c,
    ) - count_core(pay, c) by {
        assert(after.outside(c) == c2.outside(c));
        assert(clean.outside(c) == m.outside(c));
    }
    if parent is Some {
        lemma_attached_same(m, clean, parent->0);
    }
    lemma_attached_same(c2, after, id);
}

/// Inserting such a node keeps the forest, also when ownership is not in order.
pub proof fn lemma_insert_tree(m: SceneModel, node: NodeModel)
    requires
        m.tree(),
        m.unreferenced(node.id),
        node.children.len() == 0,
        node.parent matches Some(p) ==> m.nodes.contains_key(p),
    ensures
        m.insert_node(node).tree(),
{
    let id = node.id;
    let clean = m.unsummed(node.parent);
    let bare = NodeModel { parent: None, ..node.authored() };
    let h = m.ledger.minted(id);
    lemma_edits_keep_shape(m.nodes, line_above(m.nodes, node.parent));
    lemma_same_forest(m.nodes, clean.nodes, m.roots);
    lemma_same_free(m.nodes, clean.nodes, m.roots, id);
    lemma_add_isolated(clean.nodes, clean.roots, id, bare);
    let put = clean.nodes.insert(id, bare);
    let after = m.insert_node(node);
    match node.parent {
        Some(p) => {
            lemma_isolated_not_above(clean.nodes, id, bare, p);
            lemma_attach_child(put, clean.roots, h, p);
            assert(after.nodes =~= attached_nodes(put, h, p));
        },
        None => {
            lemma_attach_root(put, clean.roots, h);
            assert(after.nodes =~= put);
        },
    }
}

/// A fresh node is above nothing but itself.
proof fn lemma_isolated_not_above(nodes: NodeMap, id: NodeId, node: NodeModel, p: NodeId)
    requires
        !nodes.contains_key(id),
        nodes.contains_key(p),
        forall|c: NodeId| #[trigger] nodes.contains_key(c) ==> nodes[c].parent != Some(id),
    ensures
        !above(nodes.insert(id, node), id, p),
{
    if above(nodes.insert(id, node), id, p) {
        let n = choose|n: nat| climb(nodes.insert(id, node), p, n) == Some(id);
        lemma_isolated_climb(nodes, id, node, p, n);
    }
}

proof fn lemma_isolated_climb(nodes: NodeMap, id: NodeId, node: NodeModel, p: NodeId, n: nat)
    requires
        !nodes.contains_key(id),
        p != id,
        forall|c: NodeId| #[trigger] nodes.contains_key(c) ==> nodes[c].parent != Some(id),
    ensures
        climb(nodes.insert(id, node), p, n) != Some(id),
        climb(nodes.insert(id, node), p, n) == climb(nodes, p, n),
    decreases n,
{
    if nodes.contains_key(p) && n > 0 && nodes[p].parent is Some {
        lemma_isolated_climb(nodes, id, node, nodes[p].parent->0, (n - 1) as nat);
    }
    lemma_climb_is_present(nodes, p, n);
}

proof fn lemma_climb_is_present(nodes: NodeMap, p: NodeId, n: nat)
    ensures
        climb(nodes, p, n) matches Some(k) ==> nodes.contains_key(k),
    decreases n,
{
    if nodes.contains_key(p) && n > 0 && nodes[p].parent is Some {
        lemma_climb_is_present(nodes, nodes[p].parent->0, (n - 1) as nat);
    }
}

/// Whether a node is attached depends on nothing but the links and the roots.
pub proof fn lemma_attached_same(m: SceneModel, after: SceneModel, id: NodeId)
    requires
        same_shape(m.nodes, after.nodes),
        m.roots == after.roots,
    ensures
        m.attached(id) == after.attached(id),
{
    assert forall|r: NodeId| #[trigger] above(m.nodes, r, id) == above(after.nodes, r, id) by {
        lemma_same_relations(m.nodes, after.nodes, r, id);
    }
    if m.attached(id) {
        let r = choose|r: NodeId| #[trigger]
            above(m.nodes, r, id) && m.nodes[r].parent is None && lists_id(m.roots, r);
        lemma_above_present(m.nodes, r, id);
        assert(above(after.nodes, r, id));
    }
    if after.attached(id) {
        let r = choose|r: NodeId| #[trigger]
            above(after.nodes, r, id) && after.nodes[r].parent is None && lists_id(
                after.roots,
                r,
            );
        assert(above(m.nodes, r, id));
        lemma_above_present(m.nodes, r, id);
    }
}

/// Adding an isolated node changes nothing for the others.
proof fn lemma_added_attached(
    m: SceneModel,
    after: SceneModel,
    id: NodeId,
    node: NodeModel,
    p: NodeId,
)
    requires
        !m.nodes.contains_key(id),
        m.nodes.contains_key(p),
        forall|c: NodeId| #[trigger] m.nodes.contains_key(c) ==> m.nodes[c].parent != Some(id),
        after.nodes == m.nodes.insert(id, node),
        after.roots == m.roots,
    ensures
        after.attached(p) == m.attached(p),
{
    assert forall|n: nat| climb(after.nodes, p, n) == climb(m.nodes, p, n) && climb(
        after.nodes,
        p,
        n,
    ) != Some(id) by {
        lemma_isolated_climb(m.nodes, id, node, p, n);
    }
    if m.attached(p) {
        let r = choose|r: NodeId| #[trigger]
            above(m.nodes, r, p) && m.nodes[r].parent is None && lists_id(m.roots, r);
        let n = choose|n: nat| climb(m.nodes, p, n) == Some(r);
        assert(climb(after.nodes, p, n) == Some(r));
        assert(above(after.nodes, r, p));
        assert(r != id);
    }
    if after.attached(p) {
        let r = choose|r: NodeId| #[trigger]
            above(after.nodes, r, p) && after.nodes[r].parent is None && lists_id(
                after.roots,
                r,
            );
        let n = choose|n: nat| climb(after.nodes, p, n) == Some(r);
        assert(climb(m.nodes, p, n) == Some(r));
        assert(above(m.nodes, r, p));
        assert(r != id);
    }
}

/// A node that was hung is attached exactly when its new parent was; at the roots it
/// always is.
proof fn lemma_hung_attached(m: SceneModel, h: Handle, parent: Option<NodeId>)
    requires
        m.tree(),
        free(m.nodes, m.roots, h.id),
        m.nodes.contains_key(h.id),
        match parent {
            Some(p) => m.nodes.contains_key(p) && !above(m.nodes, h.id, p),
            None => true,
        },
    ensures
        m.hung(h, parent).attached(h.id) == (match parent {
            Some(p) => m.attached(p),
            None => true,
        }),
{
    let after = m.hung(h, parent);
    let id = h.id;
    match parent {
        None => {
            lemma_above_step(after.nodes, id, id);
            lemma_push_distinct(m.roots, h);
            assert(above(after.nodes, id, id));
            assert(lists_id(after.roots, id));
        },
        Some(p) => {
            lemma_above_step(m.nodes, p, p);
            assert(p != id);
            assert forall|n: nat| climb(after.nodes, p, n) == climb(m.nodes, p, n) && climb(
                after.nodes,
                p,
                n,
            ) != Some(id) by {
                lemma_hung_climb(m.nodes, h, p, p, n);
            }
            assert forall|r: NodeId| r != id implies (#[trigger] above(after.nodes, r, id)
                <==> above(m.nodes, r, p)) by {
                lemma_above_step(after.nodes, r, id);
                if above(m.nodes, r, p) {
                    let n = choose|n: nat| climb(m.nodes, p, n) == Some(r);
                    assert(climb(after.nodes, p, n) == Some(r));
                }
                if above(after.nodes, r, p) {
                    let n = choose|n: nat| climb(after.nodes, p, n) == Some(r);
                    assert(climb(m.nodes, p, n) == Some(r));
                }
            }
            if m.attached(p) {
                let r = choose|r: NodeId| #[trigger]
                    above(m.nodes, r, p) && m.nodes[r].parent is None && lists_id(m.roots, r);
                assert(r != id);
                lemma_above_present(m.nodes, r, p);
                assert(above(after.nodes, r, id));
            }
            if after.attached(id) {
                let r = choose|r: NodeId| #[trigger]
                    above(after.nodes, r, id) && after.nodes[r].parent is None && lists_id(
                        after.roots,
                        r,
                    );
                assert(r != id);
                assert(above(m.nodes, r, p));
                lemma_above_present(m.nodes, r, p);
            }
        },
    }
}

proof fn lemma_hung_climb(nodes: NodeMap, h: Handle, p: NodeId, x: NodeId, n: nat)
    requires
        nodes.contains_key(h.id),
        nodes.contains_key(p),
        !above(nodes, h.id, x),
    ensures
        climb(attached_nodes(nodes, h, p), x, n) == climb(nodes, x, n),
        climb(nodes, x, n) != Some(h.id),
    decreases n,
{
    if nodes.contains_key(x) {
        lemma_above_step(nodes, h.id, x);
        if n > 0 && nodes[x].parent is Some {
            lemma_hung_climb(nodes, h, p, nodes[x].parent->0, (n - 1) as nat);
        }
    }
}

/// Cutting links puts no node above another.
proof fn lemma_cut_above(a: NodeMap, b: NodeMap, k: NodeId, id: NodeId)
    requires
        forall|x: NodeId| #[trigger]
            b.contains_key(x) ==> a.contains_key(x) && (b[x].parent is None || b[x].parent
                == a[x].parent),
        above(b, k, id),
    ensures
        above(a, k, id),
{
    let n = choose|n: nat| climb(b, id, n) == Some(k);
    lemma_cut_climb(a, b, k, id, n);
}

proof fn lemma_cut_climb(a: NodeMap, b: NodeMap, k: NodeId, id: NodeId, n: nat)
    requires
        forall|x: NodeId| #[trigger]
            b.contains_key(x) ==> a.contains_key(x) && (b[x].parent is None || b[x].parent
                == a[x].parent),
        climb(b, id, n) == Some(k),
    ensures
        climb(a, id, n) == Some(k),
    decreases n,
{
    assert(b.contains_key(id));
    if n > 0 {
        lemma_cut_climb(a, b, k, b[id].parent->0, (n - 1) as nat);
    }
}

/// Moving a node keeps a scene sound. It disturbs no handle outside the scene, and
/// the node ends up attached exactly when its new parent is (always, at the roots).
pub proof fn reparent_keeps_sound(m: SceneModel, id: NodeId, new_parent: Option<NodeId>)
    requires
        m.sound(),
        m.ledger.clock < u64::MAX,
        m.node_generation < u64::MAX,
        m.reparent_error(id, new_parent) is None,
    ensures
        m.reparent_node(id, new_parent).sound(),
        m.reparent_node(id, new_parent).nodes[id].parent == new_parent,
        forall|c: u64| #[trigger]
            m.reparent_node(id, new_parent).outside(c) == m.outside(c),
        m.reparent_node(id, new_parent).attached(id) == (match new_parent {
            Some(p) => m.detach(id).attached(p),
            None => true,
        }),
{
    let d = m.detach(id);
    lemma_detach_sound(m, id);
    let h = m.moved_handle(id);
    let ready = d.with_ledger(m.moved_ledger(id));
    if m.tree_handle(id) is None {
        assert(d.nodes.contains_key(id));
        assert(d.present(ResourceKind::Node, id));
        take_handle_keeps_sound(d, ResourceKind::Node, id);
        lemma_mint_strong(d.ledger, id, ResourceKind::Node, 0);
        assert(ready == d.take_handle(ResourceKind::Node, id));
        assert forall|c: u64| #[trigger] ready.outside(c) == m.outside(c) + count_one(h, c) by {
            lemma_count_opt(m.tree_handle(id), c);
            assert(d.outside(c) == m.outside(c) + count_core(opt_seq(m.tree_handle(id)), c));
        }
    } else {
        assert(ready =~= d);
        assert forall|c: u64| #[trigger] ready.outside(c) == m.outside(c) + count_one(h, c) by {
            lemma_count_opt(m.tree_handle(id), c);
            assert(d.outside(c) == m.outside(c) + count_core(opt_seq(m.tree_handle(id)), c));
        }
    }
    assert(ready.names_node(h));
    if new_parent is Some {
        let p = new_parent->0;
        assert(d.nodes.contains_key(p));
        if above(d.nodes, id, p) {
            lemma_cut_above(m.nodes, d.nodes, id, p);
        }
    }
    let clean = ready.unsummed(new_parent);
    lemma_edits_keep_shape(ready.nodes, line_above(ready.nodes, new_parent));
    assert(only_attributes(ready, clean));
    attributes_keep_sound(ready, clean);
    lemma_same_free(ready.nodes, clean.nodes, ready.roots, id);
    if new_parent is Some {
        lemma_same_relations(ready.nodes, clean.nodes, id, new_parent->0);
        lemma_attached_same(d, clean, new_parent->0);
    }
    assert(clean.outside(h.core->0) == ready.outside(h.core->0));
    lemma_hang_sound(clean, h, new_parent);
    lemma_hung_attached(clean, h, new_parent);
    let hung = clean.hung(h, new_parent);
    let after = m.reparent_node(id, new_parent);
    assert(d.unsummed(new_parent).with_ledger(m.moved_ledger(id)) =~= clean);
    assert(only_attributes(hung, after)) by {
        assert(same_shape(hung.nodes, after.nodes));
    }
    attributes_keep_sound(hung, after);
    lemma_attached_same(hung, after, id);
    assert forall|c: u64| #[trigger] after.outside(c) == m.outside(c) by {
        assert(after.outside(c) == hung.outside(c));
        assert(hung.outside(c) == clean.outside(c) - count_one(h, c));
        assert(clean.outside(c) == ready.outside(c));
        assert(ready.outside(c) == m.outside(c) + count_one(h, c));
    }
}

/// Moving a node keeps the forest, also when ownership is not in order.
pub proof fn lemma_reparent_tree(m: SceneModel, id: NodeId, new_parent: Option<NodeId>)
    requires
        m.tree(),
        m.reparent_error(id, new_parent) is None,
    ensures
        m.reparent_node(id, new_parent).tree(),
{
    let d = m.detach(id);
    lemma_detach_tree(m, id);
    let clean = d.unsummed(new_parent);
    lemma_edits_keep_shape(d.nodes, line_above(d.nodes, new_parent));
    lemma_same_forest(d.nodes, clean.nodes, d.roots);
    lemma_same_free(d.nodes, clean.nodes, d.roots, id);
    let h = m.moved_handle(id);
    super::coherence::lemma_moved_id(m, id);
    assert(clean.nodes.contains_key(id));
    match new_parent {
        Some(p) => {
            lemma_detach_not_above(m, id, p);
            lemma_same_relations(d.nodes, clean.nodes, id, p);
            lemma_attach_child(clean.nodes, clean.roots, h, p);
        },
        None => {
            lemma_attach_root(clean.nodes, clean.roots, h);
        },
    }
}

/// The scene after a node has been detached and the tree's handle given up, before
/// reaping.
pub open spec fn let_go(m: SceneModel, id: NodeId) -> SceneModel {
    let cut = m.detach(id);
    cut.with_ledger(cut.ledger.release_opt(m.tree_handle(id))).bumped()
}

pub proof fn lemma_let_go_sound(m: SceneModel, id: NodeId)
    requires
        m.sound(),
        m.nodes.contains_key(id),
        m.node_generation < u64::MAX,
    ensures
        let_go(m, id).sound(),
        let_go(m, id).nodes.dom() == m.nodes.dom(),
        let_go(m, id).ledger.slots == m.ledger.slots,
        free(let_go(m, id).nodes, let_go(m, id).roots, id),
        forall|c: u64| #[trigger] let_go(m, id).outside(c) == m.outside(c),
{
    lemma_detach_sound(m, id);
    let d = m.detach(id);
    let th = m.tree_handle(id);
    let hs = opt_seq(th);
    super::lemma_release_opt(d.ledger, th);
    assert(d.holds_outside(hs)) by {
        assert forall|c: u64| #[trigger] d.refs(c) + count_core(hs, c) <= d.ledger.strong(c) by {
            assert(d.outside(c) == m.outside(c) + count_core(hs, c));
            assert(m.refs(c) <= m.ledger.strong(c));
        }
    }
    release_keeps_sound(d, hs);
    let freed = d.with_ledger(d.ledger.release_all(hs));
    super::model::lemma_release_all(d.ledger, hs);
    let after = let_go(m, id);
    assert(only_attributes(freed, after));
    attributes_keep_sound(freed, after);
    assert forall|c: u64| #[trigger] after.outside(c) == m.outside(c) by {
        assert(after.outside(c) == freed.outside(c));
        assert(freed.outside(c) == d.outside(c) - count_core(hs, c));
        assert(d.outside(c) == m.outside(c) + count_core(hs, c));
    }
}

/// Detaching a node and reaping keeps a scene sound and disturbs no handle outside
/// it.
pub proof fn remove_node_keeps_sound(m: SceneModel, id: NodeId)
    requires
        m.sound(),
        m.node_generation + 1 + m.nodes.dom().len() <= u64::MAX,
    ensures
        m.remove_node(id).sound(),
        forall|c: u64| #[trigger] m.remove_node(id).outside(c) == m.outside(c),
        m.nodes.contains_key(id) ==> m.remove_node(id).ledger.dropped.len() == 0,
{
    if m.nodes.contains_key(id) {
        lemma_let_go_sound(m, id);
        let mid = let_go(m, id);
        reap_keeps_sound(mid);
        assert forall|c: u64| #[trigger] m.remove_node(id).outside(c) == m.outside(c) by {
            assert(mid.reaped().outside(c) == mid.outside(c));
            assert(mid.outside(c) == m.outside(c));
        }
    }
}

/// A removed node survives, detached, while a handle for it exists outside the
/// scene.
pub proof fn removed_node_survives_outside_handle(m: SceneModel, id: NodeId)
    requires
        m.sound(),
        m.node_generation + 1 + m.nodes.dom().len() <= u64::MAX,
        m.nodes.contains_key(id),
        m.ledger.slots.contains_key(id),
        m.outside(m.ledger.slots[id]) > 0,
    ensures
        m.remove_node(id).nodes.contains_key(id),
        !m.remove_node(id).attached(id),
        m.remove_node(id).nodes[id].parent is None,
{
    lemma_let_go_sound(m, id);
    let mid = let_go(m, id);
    assert(mid.outside(m.ledger.slots[id]) == m.outside(m.ledger.slots[id]));
    assert(mid.present(ResourceKind::Node, id));
    super::laws::outside_handles_keep_alive(mid, ResourceKind::Node, id);
    lemma_reap_keeps_detached(mid, id);
    let after = mid.reaped();
    assert(after.present(ResourceKind::Node, id));
    if after.attached(id) {
        let r = choose|r: NodeId| #[trigger]
            above(after.nodes, r, id) && after.nodes[r].parent is None && lists_id(
                after.roots,
                r,
            );
        lemma_above_step(after.nodes, r, id);
        assert(r == id);
    }
}

/// Reaping leaves the roots alone and gives no node a parent.
proof fn lemma_reap_keeps_detached(m: SceneModel, id: NodeId)
    requires
        m.wf(),
        m.node_generation + m.nodes.dom().len() <= u64::MAX,
        m.nodes.contains_key(id) ==> m.nodes[id].parent is None,
    ensures
        m.reaped().roots == m.roots,
        m.reaped().nodes.contains_key(id) ==> m.reaped().nodes[id].parent is None,
    decreases m.ledger.drain_bound(),
{
    if m.ledger.dropped.len() > 0 {
        super::model::lemma_reap_one_bound(m);
        super::laws::lemma_reap_one_effect(m);
        lemma_reap_keeps_detached(m.reap_one(), id);
    }
}

/// A removed node that the tree held the only handle for is gone.
pub proof fn removed_node_without_handles_is_gone(m: SceneModel, id: NodeId)
    requires
        m.sound(),
        m.node_generation + 1 + m.nodes.dom().len() <= u64::MAX,
        m.nodes.contains_key(id),
        m.tree_handle(id) is Some,
        m.ledger.strong(m.ledger.slots[id]) == 1,
    ensures
        !m.remove_node(id).nodes.contains_key(id),
{
    lemma_detach_sound(m, id);
    lemma_let_go_sound(m, id);
    let mid = let_go(m, id);
    let h = m.tree_handle(id)->0;
    assert(m.names_node(h));
    assert(!mid.ledger.slot_live(id));
    lemma_reap_revives_nothing(mid, id);
    if m.remove_node(id).nodes.contains_key(id) {
        assert(mid.reaped().present(ResourceKind::Node, id));
        super::laws::reaped_resources_are_live(mid, ResourceKind::Node, id);
    }
}

/// Reaping never brings a core back to life.
pub proof fn lemma_reap_revives_nothing(m: SceneModel, id: GenericId)
    requires
        m.wf(),
        m.node_generation + m.nodes.dom().len() <= u64::MAX,
        !m.ledger.slot_live(id),
    ensures
        !m.reaped().ledger.slot_live(id),
    decreases m.ledger.drain_bound(),
{
    if m.ledger.dropped.len() > 0 {
        super::model::lemma_reap_one_bound(m);
        super::laws::lemma_reap_one_effect(m);
        let entry = m.ledger.dropped[0];
        let rest = m.with_ledger(m.ledger.without_oldest());
        assert(!rest.ledger.slot_live(id));
        if !rest.ledger.slot_live(entry.1) && rest.present(entry.0, entry.1) {
            let hs = super::soundness::owned_handles(m, entry.0, entry.1);
            super::model::lemma_release_all(rest.ledger, hs);
            super::ownership::lemma_release_all_cores(rest.ledger, hs);
        }
        assert(!m.reap_one().ledger.slot_live(id));
        lemma_reap_revives_nothing(m.reap_one(), id);
    }
}

/// A detached node that a handle keeps alive can be put back: after removing it and
/// moving it to the roots it is attached again.
pub proof fn detach_then_reattach(m: SceneModel, id: NodeId)
    requires
        m.sound(),
        m.node_generation + 2 + m.nodes.dom().len() <= u64::MAX,
        m.ledger.clock < u64::MAX,
        m.nodes.contains_key(id),
        m.ledger.slots.contains_key(id),
        m.outside(m.ledger.slots[id]) > 0,
    ensures
        m.remove_node(id).reparent_error(id, None) is None,
        m.remove_node(id).node_generation < u64::MAX ==> m.remove_node(id).reparent_node(
            id,
            None,
        ).sound() && m.remove_node(id).reparent_node(id, None).attached(id),
{
    remove_node_keeps_sound(m, id);
    removed_node_survives_outside_handle(m, id);
    let after = m.remove_node(id);
    assert(after.ledger.clock == m.ledger.clock) by {
        lemma_let_go_sound(m, id);
        lemma_reap_clock(let_go(m, id));
        super::model::lemma_release_all(m.ledger, opt_seq(m.tree_handle(id)));
        super::lemma_release_opt(m.ledger, m.tree_handle(id));
    }
    if after.node_generation < u64::MAX {
        reparent_keeps_sound(after, id, None);
    }
}

/// Reaping makes no handle.
proof fn lemma_reap_clock(m: SceneModel)
    requires
        m.wf(),
        m.node_generation + m.nodes.dom().len() <= u64::MAX,
    ensures
        m.reaped().ledger.clock == m.ledger.clock,
    decreases m.ledger.drain_bound(),
{
    if m.ledger.dropped.len() > 0 {
        super::model::lemma_reap_one_bound(m);
        super::laws::lemma_reap_one_effect(m);
        lemma_reap_clock(m.reap_one());
    }
}

/// Setting a payload that exists outside the scene keeps the scene sound: the new
/// payload's handle is stored, the old one's given up.
pub proof fn set_payload_keeps_sound(m: SceneModel, id: NodeId, payload: NodePayload)
    requires
        m.sound(),
        m.node_generation < u64::MAX,
        m.holds_outside(opt_seq(payload.handle())),
    ensures
        m.set_node_payload(id, payload).sound(),
        forall|c: u64| #[trigger]
            m.set_node_payload(id, payload).outside(c) == m.outside(c) - count_core(
                opt_seq(payload.handle()),
                c,
            ),
{
    let new = opt_seq(payload.handle());
    let after = m.set_node_payload(id, payload);
    if !m.nodes.contains_key(id) {
        super::lemma_release_opt(m.ledger, payload.handle());
        release_keeps_sound(m, new);
        assert forall|c: u64| #[trigger] after.outside(c) == m.outside(c) - count_core(
            new,
            c,
        ) by {
            assert(m.with_ledger(m.ledger.release_all(new)).outside(c) == m.outside(c)
                - count_core(new, c));
        }
    } else {
        let old_handle = m.nodes[id].payload.handle();
        let gone = opt_seq(old_handle);
        let put = m.with_nodes(m.nodes.insert(id, NodeModel { payload, ..m.nodes[id] }));
        assert(put.nodes.dom() =~= m.nodes.dom());
        assert(same_shape(m.nodes, put.nodes));
        assert forall|c: u64| #[trigger] put.refs(c) + count_core(gone, c) == m.refs(c)
            + count_core(new, c) by {
            lemma_total_insert(m.nodes, node_refs(c), id, put.nodes[id]);
            lemma_count_append(m.nodes[id].children, gone, c);
            lemma_count_append(m.nodes[id].children, new, c);
        }
        assert(put.counted() && put.holds_outside(gone)) by {
            assert forall|c: u64| #[trigger] put.refs(c) + count_core(gone, c)
                <= put.ledger.strong(c) by {
                assert(m.refs(c) + count_core(new, c) <= m.ledger.strong(c));
            }
            assert forall|c: u64| #[trigger] put.refs(c) <= put.ledger.strong(c) by {
                assert(m.refs(c) + count_core(new, c) <= m.ledger.strong(c));
                assert(put.refs(c) + count_core(gone, c) == m.refs(c) + count_core(new, c));
            }
        }
        lemma_same_forest(m.nodes, put.nodes, m.roots);
        assert(put.wf()) by {
            assert forall|k: u64| #[trigger] put.nodes.contains_key(k) implies put.nodes[k].id
                == k by {
                assert(m.nodes.contains_key(k));
            }
        }
        assert(put.tree_handles()) by {
            assert forall|h: Handle| #[trigger] put.names_node(h) <==> m.names_node(h) by {}
            assert forall|i: int| 0 <= i < put.roots.len() implies put.names_node(
                #[trigger] put.roots[i],
            ) by {
                assert(m.names_node(m.roots[i]));
            }
            assert forall|k: NodeId, i: int|
                put.nodes.contains_key(k) && 0 <= i
                    < put.nodes[k].children.len() implies put.names_node(
                #[trigger] put.nodes[k].children[i],
            ) by {
                assert(m.nodes.contains_key(k));
                assert(m.names_node(m.nodes[k].children[i]));
            }
        }
        assert forall|k: ResourceKind, x: GenericId| #[trigger] put.present(k, x) <==> m.present(
            k,
            x,
        ) by {}
        lemma_same_presence(m, put);
        release_keeps_sound(put, gone);
        super::lemma_release_opt(put.ledger, old_handle);
        let freed = put.with_ledger(put.ledger.release_all(gone));
        lemma_edits_keep_shape(put.nodes, ancestors(m.nodes, id));
        assert(only_attributes(freed, after));
        attributes_keep_sound(freed, after);
        assert forall|c: u64| #[trigger] after.outside(c) == m.outside(c) - count_core(
            new,
            c,
        ) by {
            assert(after.outside(c) == freed.outside(c));
            assert(freed.outside(c) == put.outside(c) - count_core(gone, c));
            assert(put.refs(c) + count_core(gone, c) == m.refs(c) + count_core(new, c));
        }
    }
}

/// Giving up one handle that exists outside the scene keeps the scene sound.
pub proof fn lemma_give_up_sound(m: SceneModel, h: Handle)
    requires
        m.sound(),
        h.core matches Some(c) ==> m.outside(c) >= 1,
    ensures
        m.with_ledger(m.ledger.release(h)).sound(),
        forall|c: u64| #[trigger]
            m.with_ledger(m.ledger.release(h)).outside(c) == m.outside(c) - count_one(h, c),
{
    let hs = opt_seq(Some(h));
    super::lemma_release_opt(m.ledger, Some(h));
    assert(m.holds_outside(hs)) by {
        assert forall|c: u64| #[trigger] m.refs(c) + count_core(hs, c) <= m.ledger.strong(c) by {
            lemma_count_opt(Some(h), c);
            assert(m.refs(c) <= m.ledger.strong(c));
        }
    }
    release_keeps_sound(m, hs);
    assert forall|c: u64| #[trigger] m.with_ledger(m.ledger.release(h)).outside(c) == m.outside(c)
        - count_one(h, c) by {
        lemma_count_opt(Some(h), c);
        assert(m.with_ledger(m.ledger.release_all(hs)).outside(c) == m.outside(c) - count_core(
            hs,
            c,
        ));
    }
}

/// Detaching keeps the forest and leaves the node free, also when ownership is not
/// in order.
pub proof fn lemma_detach_tree(m: SceneModel, id: NodeId)
    requires
        m.tree(),
        m.nodes.contains_key(id),
    ensures
        m.detach(id).tree(),
        free(m.detach(id).nodes, m.detach(id).roots, id),
        m.detach(id).nodes.dom() == m.nodes.dom(),
        m.tree_handle(id) matches Some(h) ==> h.id == id,
{
    lemma_detach(m.nodes, m.roots, id);
    let cut = m.unhung(id);
    lemma_detach_shape(m, id);
    lemma_same_forest(cut.nodes, m.detach(id).nodes, cut.roots);
    lemma_same_free(cut.nodes, m.detach(id).nodes, cut.roots, id);
    assert(m.detach(id).nodes.dom() =~= m.nodes.dom());
    match m.nodes[id].parent {
        Some(p) => {
            lemma_first_index(m.nodes[p].children, id);
        },
        None => {
            lemma_first_index(m.roots, id);
        },
    }
}

/// Detaching a node puts it above nothing that it was not above.
pub proof fn lemma_detach_not_above(m: SceneModel, id: NodeId, p: NodeId)
    requires
        m.nodes.contains_key(id),
        !above(m.nodes, id, p),
    ensures
        !above(m.detach(id).nodes, id, p),
{
    let d = m.detach(id);
    lemma_unhung(m, id);
    lemma_detach_shape(m, id);
    assert forall|x: NodeId| #[trigger] d.nodes.contains_key(x) implies m.nodes.contains_key(x)
        && (d.nodes[x].parent is None || d.nodes[x].parent == m.nodes[x].parent) by {
        assert(m.unhung(id).nodes.contains_key(x));
    }
    if above(d.nodes, id, p) {
        lemma_cut_above(m.nodes, d.nodes, id, p);
    }
}

/// Adding an instance together with a node that carries it keeps a scene sound: the
/// node owns the instance, the instance owns its mesh and materials, and one handle
/// for the node exists outside the scene.
pub proof fn add_instance_node_keeps_sound(
    m: SceneModel,
    id: NodeId,
    parent: Option<NodeId>,
    instance: InstanceParts,
    name: Option<Seq<char>>,
    transform: Transform,
    flags: NodeFlags,
)
    requires
        m.sound(),
        m.ledger.clock + 3 <= u64::MAX,
        m.node_generation < u64::MAX,
        forall|kind: ResourceKind| !#[trigger] m.present(kind, id),
        parent matches Some(p) ==> m.nodes.contains_key(p),
        id != instance.id,
        m.id_open(ResourceKind::Instance, instance.id),
        m.holds_outside(instance.handles()),
    ensures
        m.add_instance_node(id, parent, instance, name, transform, flags).sound(),
{
    super::laws::add_instance_keeps_sound(m, instance);
    super::laws::lemma_add_instance_clock(m, instance);
    let a = m.add_instance(instance);
    let h = m.added_instance(instance);
    assert forall|kind: ResourceKind| !#[trigger] a.present(kind, id) by {
        assert(!m.present(kind, id));
    }
    add_node_keeps_sound(a, id, parent, name, transform, flags);
    let b = a.add_node(id, parent, name, transform, flags);
    let payload = NodePayload::Instance(h);
    let c0 = h.core->0;
    assert(b.nodes.contains_key(id));
    assert(b.nodes[id].payload.handle() is None);
    // The instance's handle exists outside the scene until the node stores it.
    assert(b.holds_outside(opt_seq(payload.handle()))) by {
        assert forall|c: u64| #[trigger] b.refs(c) + count_core(opt_seq(payload.handle()), c)
            <= b.ledger.strong(c) by {
            lemma_count_opt(payload.handle(), c);
            assert(b.outside(c) == a.outside(c) + count_one(a.ledger.minted(id), c));
            assert(a.outside(c) == m.outside(c) + count_one(h, c) - count_core(
                instance.handles(),
                c,
            ));
            assert(m.refs(c) + count_core(instance.handles(), c) <= m.ledger.strong(c));
        }
    }
    let after = m.add_instance_node(id, parent, instance, name, transform, flags);
    let stored = b.with_node(id, NodeModel { payload, ..b.nodes[id] });
    assert(after =~= stored);
    lemma_store_payload_sound(b, id, payload);
}

/// Storing a payload in a node that has none keeps a scene sound.
proof fn lemma_store_payload_sound(m: SceneModel, id: NodeId, payload: NodePayload)
    requires
        m.sound(),
        m.nodes.contains_key(id),
        m.nodes[id].payload.handle() is None,
        m.holds_outside(opt_seq(payload.handle())),
    ensures
        m.with_node(id, (NodeModel { payload, ..m.nodes[id] })).sound(),
{
    let new = opt_seq(payload.handle());
    let put = m.with_node(id, NodeModel { payload, ..m.nodes[id] });
    assert(put.nodes.dom() =~= m.nodes.dom());
    assert(same_shape(m.nodes, put.nodes));
    assert(put.counted()) by {
        assert forall|c: u64| #[trigger] put.refs(c) <= put.ledger.strong(c) by {
            lemma_total_insert(m.nodes, node_refs(c), id, put.nodes[id]);
            lemma_count_append(m.nodes[id].children, new, c);
            lemma_count_append(m.nodes[id].children, opt_seq(m.nodes[id].payload.handle()), c);
            assert(m.refs(c) + count_core(new, c) <= m.ledger.strong(c));
        }
    }
    lemma_same_forest(m.nodes, put.nodes, m.roots);
    assert(put.wf()) by {
        assert forall|k: u64| #[trigger] put.nodes.contains_key(k) implies put.nodes[k].id
            == k by {
            assert(m.nodes.contains_key(k));
        }
    }
    assert(put.tree_handles()) by {
        assert forall|h: Handle| #[trigger] put.names_node(h) <==> m.names_node(h) by {}
        assert forall|i: int| 0 <= i < put.roots.len() implies put.names_node(
            #[trigger] put.roots[i],
        ) by {
            assert(m.names_node(m.roots[i]));
        }
        assert forall|k: NodeId, i: int|
            put.nodes.contains_key(k) && 0 <= i
                < put.nodes[k].children.len() implies put.names_node(
            #[trigger] put.nodes[k].children[i],
        ) by {
            assert(m.nodes.contains_key(k));
            assert(m.names_node(m.nodes[k].children[i]));
        }
    }
    assert forall|k: ResourceKind, x: GenericId| #[trigger] put.present(k, x) <==> m.present(
        k,
        x,
    ) by {}
    lemma_same_presence(m, put);
}

} // verus!
