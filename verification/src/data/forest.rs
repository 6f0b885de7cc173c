//! What keeps the scene tree a forest.
//!
//! Every change to the links between nodes is made of four steps: adding a node
//! that nothing refers to, detaching a node, attaching a detached one, and removing
//! a node while orphaning its children. Each step keeps a forest a forest.

use super::model::{all_for, lists_id, orphan, without_all};
use super::tree::{
    above, below, below_within, child_links, climb, climb_ends, climbs, descends, descent_ends,
    distinct, forest, lemma_above_present, lemma_above_step, lemma_climbs_more, lemma_descends_more,
    parent_links, root_links, NodeMap,
};
use crate::resource::handle::{Handle, NodeId};
use crate::resource::node::{
    first_for, first_index, lemma_first_index, without_first, NodeModel,
};
use vstd::prelude::*;

verus! {

/// Whether two maps hold the same nodes with the same links.
pub open spec fn same_shape(a: NodeMap, b: NodeMap) -> bool {
    &&& a.dom() == b.dom()
    &&& forall|k: NodeId| #[trigger]
        a.contains_key(k) ==> a[k].parent == b[k].parent && a[k].children == b[k].children
}

pub proof fn lemma_same_climbs(a: NodeMap, b: NodeMap, id: NodeId, n: nat)
    requires
        same_shape(a, b),
    ensures
        climbs(a, id, n) == climbs(b, id, n),
        climb(a, id, n) == climb(b, id, n),
    decreases n,
{
    assert(a.contains_key(id) == b.contains_key(id));
    if a.contains_key(id) && a[id].parent is Some && n > 0 {
        lemma_same_climbs(a, b, a[id].parent->0, (n - 1) as nat);
    }
}

pub proof fn lemma_same_descends(a: NodeMap, b: NodeMap, id: NodeId, n: nat)
    requires
        same_shape(a, b),
        descends(a, id, n),
    ensures
        descends(b, id, n),
    decreases n,
{
    assert(a.contains_key(id) == b.contains_key(id));
    if b.contains_key(id) {
        assert forall|i: int|
            #![trigger b[id].children[i]]
            0 <= i < b[id].children.len() implies n > 0 && descends(
            b,
            b[id].children[i].id,
            (n - 1) as nat,
        ) by {
            let child = a[id].children[i];
            lemma_same_descends(a, b, child.id, (n - 1) as nat);
        }
    }
}

proof fn lemma_same_below_within(a: NodeMap, b: NodeMap, k: NodeId, id: NodeId, n: nat)
    requires
        same_shape(a, b),
        below_within(a, k, id, n),
    ensures
        below_within(b, k, id, n),
    decreases n,
{
    assert(a.contains_key(id) == b.contains_key(id));
    if k != id {
        let i = choose|i: int|
            0 <= i < a[id].children.len() && below_within(
                a,
                k,
                (#[trigger] a[id].children[i]).id,
                (n - 1) as nat,
            );
        lemma_same_below_within(a, b, k, a[id].children[i].id, (n - 1) as nat);
        assert(b[id].children[i] == a[id].children[i]);
    }
}

/// Nodes with the same links are above and below the same nodes.
pub proof fn lemma_same_relations(a: NodeMap, b: NodeMap, k: NodeId, id: NodeId)
    requires
        same_shape(a, b),
    ensures
        above(a, k, id) == above(b, k, id),
        below(a, k, id) == below(b, k, id),
{
    assert(same_shape(b, a)) by {
        assert forall|x: NodeId| #[trigger] b.contains_key(x) implies b[x].parent == a[x].parent
            && b[x].children == a[x].children by {
            assert(a.contains_key(x));
        }
    }
    assert forall|n: nat| climb(a, id, n) == climb(b, id, n) by {
        lemma_same_climbs(a, b, id, n);
    }
    if above(a, k, id) {
        let n = choose|n: nat| climb(a, id, n) == Some(k);
        assert(climb(b, id, n) == Some(k));
    }
    if above(b, k, id) {
        let n = choose|n: nat| climb(b, id, n) == Some(k);
        assert(climb(a, id, n) == Some(k));
    }
    if below(a, k, id) {
        let n = choose|n: nat| below_within(a, k, id, n);
        lemma_same_below_within(a, b, k, id, n);
    }
    if below(b, k, id) {
        let n = choose|n: nat| below_within(b, k, id, n);
        lemma_same_below_within(b, a, k, id, n);
    }
}

/// Whether the links form a forest depends on nothing but the links.
pub proof fn lemma_same_forest(a: NodeMap, b: NodeMap, roots: Seq<Handle>)
    requires
        same_shape(a, b),
        forest(a, roots),
    ensures
        forest(b, roots),
{
    assert forall|id: NodeId| a.contains_key(id) == b.contains_key(id) by {}
    assert forall|id: NodeId| #[trigger] climb_ends(b, id) by {
        assert(climb_ends(a, id));
        let n = choose|n: nat| climbs(a, id, n);
        lemma_same_climbs(a, b, id, n);
        assert(climbs(b, id, n));
    }
    assert forall|id: NodeId| #[trigger] descent_ends(b, id) by {
        assert(descent_ends(a, id));
        let n = choose|n: nat| descends(a, id, n);
        lemma_same_descends(a, b, id, n);
        assert(descends(b, id, n));
    }
    assert(child_links(b)) by {
        assert forall|p: NodeId, c: NodeId|
            b.contains_key(p) && b.contains_key(c) && #[trigger] lists_id(
                b[p].children,
                c,
            ) implies b[c].parent == Some(p) by {
            assert(a.contains_key(p) && a.contains_key(c));
            assert(lists_id(a[p].children, c));
        }
    }
    assert(parent_links(b)) by {
        assert forall|c: NodeId|
            #[trigger] b.contains_key(c) && b[c].parent is Some implies b.contains_key(
            b[c].parent->0,
        ) && lists_id(b[b[c].parent->0].children, c) by {
            assert(a.contains_key(c));
            assert(a.contains_key(a[c].parent->0));
        }
    }
    assert(root_links(b, roots)) by {
        assert forall|r: NodeId|
            b.contains_key(r) && #[trigger] lists_id(roots, r) implies b[r].parent is None by {
            assert(a.contains_key(r));
        }
    }
    assert forall|id: NodeId| #[trigger] b.contains_key(id) implies distinct(b[id].children) by {
        assert(a.contains_key(id));
    }
}

/// Taking the first handle for `id` out of a list without repetitions leaves the
/// handles of the other resources.
pub proof fn lemma_without_first(handles: Seq<Handle>, id: u64)
    requires
        distinct(handles),
    ensures
        distinct(without_first(handles, id)),
        !lists_id(without_first(handles, id), id),
        forall|k: u64| #[trigger]
            lists_id(without_first(handles, id), k) <==> lists_id(handles, k) && k != id,
        forall|i: int|
            0 <= i < without_first(handles, id).len() ==> handles.contains(
                #[trigger] without_first(handles, id)[i],
            ),
        first_for(handles, id) is Some <==> lists_id(handles, id),
{
    lemma_first_index(handles, id);
    let f = first_index(handles, id);
    let rest = without_first(handles, id);
    if f < handles.len() {
        assert(handles[f].id == id);
        assert forall|i: int, j: int|
            #![trigger rest[i], rest[j]]
            0 <= i < j < rest.len() implies rest[i].id != rest[j].id by {
            let oi = if i < f { i } else { i + 1 };
            let oj = if j < f { j } else { j + 1 };
            assert(rest[i] == handles[oi] && rest[j] == handles[oj]);
        }
        assert forall|k: u64| #[trigger]
            lists_id(rest, k) <==> lists_id(handles, k) && k != id by {
            if lists_id(rest, k) {
                let i = choose|i: int| 0 <= i < rest.len() && (#[trigger] rest[i]).id == k;
                let oi = if i < f { i } else { i + 1 };
                assert(handles[oi] == rest[i]);
                assert(handles[oi].id != handles[f].id);
            }
            if lists_id(handles, k) && k != id {
                let i = choose|i: int| 0 <= i < handles.len() && (#[trigger] handles[i]).id == k;
                let ri = if i < f { i } else { i - 1 };
                assert(rest[ri] == handles[i]);
            }
        }
        assert forall|i: int| 0 <= i < rest.len() implies handles.contains(#[trigger] rest[i]) by {
            let oi = if i < f { i } else { i + 1 };
            assert(handles[oi] == rest[i]);
        }
    } else {
        assert(!lists_id(handles, id)) by {
            if lists_id(handles, id) {
                let i = choose|i: int| 0 <= i < handles.len() && (#[trigger] handles[i]).id == id;
                assert(handles[i].id != id);
            }
        }
        assert forall|i: int| 0 <= i < rest.len() implies handles.contains(#[trigger] rest[i]) by {
            assert(handles[i] == rest[i]);
        }
    }
}

/// Appending a handle for a resource that the list does not name.
pub proof fn lemma_push_distinct(handles: Seq<Handle>, handle: Handle)
    ensures
        forall|k: u64| #[trigger]
            lists_id(handles.push(handle), k) <==> lists_id(handles, k) || k == handle.id,
        distinct(handles) && !lists_id(handles, handle.id) ==> distinct(handles.push(handle)),
{
    let pushed = handles.push(handle);
    assert forall|k: u64| #[trigger]
        lists_id(pushed, k) <==> lists_id(handles, k) || k == handle.id by {
        if lists_id(pushed, k) {
            let i = choose|i: int| 0 <= i < pushed.len() && (#[trigger] pushed[i]).id == k;
            if i < handles.len() {
                assert(handles[i].id == k);
            }
        }
        if lists_id(handles, k) {
            let i = choose|i: int| 0 <= i < handles.len() && (#[trigger] handles[i]).id == k;
            assert(pushed[i].id == k);
        }
        if k == handle.id {
            assert(pushed[handles.len() as int].id == k);
        }
    }
    if distinct(handles) && !lists_id(handles, handle.id) {
        assert forall|i: int, j: int|
            #![trigger pushed[i], pushed[j]]
            0 <= i < j < pushed.len() implies pushed[i].id != pushed[j].id by {
            assert(pushed[i] == handles[i]);
            if j < handles.len() {
                assert(pushed[j] == handles[j]);
            }
        }
    }
}

/// Where nothing is named twice, taking out all handles for a resource takes out
/// the first.
pub proof fn lemma_without_all(handles: Seq<Handle>, id: u64)
    requires
        distinct(handles),
    ensures
        without_all(handles, id) == without_first(handles, id),
        all_for(handles, id) == (match first_for(handles, id) {
            Some(h) => seq![h],
            None => Seq::empty(),
        }),
    decreases handles.len(),
{
    lemma_first_index(handles, id);
    let f = first_index(handles, id);
    if handles.len() > 0 {
        let front = handles.drop_last();
        let last = handles.last();
        assert(distinct(front)) by {
            assert forall|i: int, j: int|
                #![trigger front[i], front[j]]
                0 <= i < j < front.len() implies front[i].id != front[j].id by {
                assert(front[i] == handles[i] && front[j] == handles[j]);
            }
        }
        lemma_without_all(front, id);
        lemma_first_index(front, id);
        let g = first_index(front, id);
        if last.id == id {
            assert(g == front.len()) by {
                if g < front.len() {
                    assert(front[g] == handles[g]);
                    assert(handles[g].id != handles[handles.len() - 1].id);
                }
            }
            assert(f == front.len()) by {
                if f < front.len() {
                    assert(front[f] == handles[f]);
                }
            }
            assert(handles.remove(f) =~= front);
        } else {
            assert(f < handles.len() ==> f < front.len());
            if f < handles.len() {
                assert(g == f) by {
                    assert(front[f] == handles[f]);
                    if g < f {
                        assert(front[g] == handles[g]);
                    } else if f < g {
                        assert(front[f].id != id);
                    }
                }
                assert(handles.remove(f) =~= front.remove(g).push(last));
            } else {
                assert(g == front.len()) by {
                    if g < front.len() {
                        assert(front[g] == handles[g]);
                    }
                }
                assert(handles =~= front.push(last));
            }
        }
    }
}

/// Whether nothing refers to `id`, and `id` refers to no parent.
pub open spec fn free(nodes: NodeMap, roots: Seq<Handle>, id: NodeId) -> bool {
    &&& nodes.contains_key(id) ==> nodes[id].parent is None
    &&& !lists_id(roots, id)
    &&& forall|p: NodeId| #[trigger] nodes.contains_key(p) ==> !lists_id(nodes[p].children, id)
    &&& forall|c: NodeId| #[trigger]
        nodes.contains_key(c) && c != id && !nodes.contains_key(id) ==> nodes[c].parent != Some(id)
}

/// The nodes after `id` has been taken from its parent.
pub open spec fn detached_nodes(nodes: NodeMap, id: NodeId) -> NodeMap {
    match nodes[id].parent {
        None => nodes,
        Some(p) => {
            let unlisted = if nodes.contains_key(p) {
                nodes.insert(p, nodes[p].with_children(without_first(nodes[p].children, id)))
            } else {
                nodes
            };
            unlisted.insert(id, NodeModel { parent: None, ..unlisted[id] })
        },
    }
}

/// The roots after `id` has been taken from them.
pub open spec fn detached_roots(nodes: NodeMap, roots: Seq<Handle>, id: NodeId) -> Seq<Handle> {
    match nodes[id].parent {
        None => without_first(roots, id),
        Some(_) => roots,
    }
}

/// A node is never above its own parent.
pub proof fn lemma_not_above_parent(nodes: NodeMap, id: NodeId)
    requires
        climb_ends(nodes, id),
        nodes.contains_key(id),
        nodes[id].parent is Some,
    ensures
        !above(nodes, id, nodes[id].parent->0),
        nodes[id].parent != Some(id),
{
    let n = choose|n: nat| climbs(nodes, id, n);
    if above(nodes, id, nodes[id].parent->0) {
        let j = choose|j: nat| climb(nodes, nodes[id].parent->0, j) == Some(id);
        assert(climb(nodes, id, j + 1) == Some(id));
        lemma_no_self_climb(nodes, id, n, j + 1);
    }
    if nodes[id].parent == Some(id) {
        assert(climb(nodes, id, 0) == Some(id));
        assert(climb(nodes, id, 1) == Some(id));
        lemma_no_self_climb(nodes, id, n, 1);
    }
}

pub proof fn lemma_climb_remaining(nodes: NodeMap, id: NodeId, n: nat, j: nat)
    requires
        climbs(nodes, id, n),
        climb(nodes, id, j) is Some,
    ensures
        j <= n,
        climbs(nodes, climb(nodes, id, j)->0, (n - j) as nat),
    decreases j,
{
    if j > 0 {
        lemma_climb_remaining(nodes, nodes[id].parent->0, (n - 1) as nat, (j - 1) as nat);
    }
}

pub proof fn lemma_no_self_climb(nodes: NodeMap, id: NodeId, n: nat, j: nat)
    requires
        climbs(nodes, id, n),
        j > 0,
    ensures
        climb(nodes, id, j) != Some(id),
    decreases n,
{
    if climb(nodes, id, j) == Some(id) {
        lemma_climb_remaining(nodes, id, n, j);
        lemma_no_self_climb(nodes, id, (n - j) as nat, j);
    }
}

/// Climbing takes no longer when links are only cut.
pub proof fn lemma_cut_climbs(a: NodeMap, b: NodeMap, id: NodeId, n: nat)
    requires
        forall|k: NodeId| #[trigger]
            b.contains_key(k) ==> a.contains_key(k) && (b[k].parent is None || b[k].parent
                == a[k].parent),
        climbs(a, id, n),
    ensures
        climbs(b, id, n),
    decreases n,
{
    if b.contains_key(id) && b[id].parent is Some {
        lemma_cut_climbs(a, b, a[id].parent->0, (n - 1) as nat);
    }
}

/// Descending takes no longer when lists of children only lose members.
pub proof fn lemma_cut_descends(a: NodeMap, b: NodeMap, id: NodeId, n: nat)
    requires
        forall|k: NodeId| #[trigger] b.contains_key(k) ==> a.contains_key(k),
        forall|k: NodeId, c: NodeId|
            b.contains_key(k) && #[trigger] lists_id(b[k].children, c) ==> lists_id(
                a[k].children,
                c,
            ),
        descends(a, id, n),
    ensures
        descends(b, id, n),
    decreases n,
{
    if b.contains_key(id) {
        assert forall|i: int|
            #![trigger b[id].children[i]]
            0 <= i < b[id].children.len() implies n > 0 && descends(
            b,
            b[id].children[i].id,
            (n - 1) as nat,
        ) by {
            let c = b[id].children[i].id;
            assert(lists_id(b[id].children, c));
            assert(lists_id(a[id].children, c));
            let j = choose|j: int|
                0 <= j < a[id].children.len() && (#[trigger] a[id].children[j]).id == c;
            assert(descends(a, a[id].children[j].id, (n - 1) as nat));
            lemma_cut_descends(a, b, c, (n - 1) as nat);
        }
    }
}

/// Detaching a node keeps the forest, and leaves the node free.
pub proof fn lemma_detach(nodes: NodeMap, roots: Seq<Handle>, id: NodeId)
    requires
        forest(nodes, roots),
        nodes.contains_key(id),
    ensures
        forest(detached_nodes(nodes, id), detached_roots(nodes, roots, id)),
        free(detached_nodes(nodes, id), detached_roots(nodes, roots, id), id),
        detached_nodes(nodes, id).dom() == nodes.dom(),
{
    let after = detached_nodes(nodes, id);
    let rest = detached_roots(nodes, roots, id);
    lemma_without_first(roots, id);
    match nodes[id].parent {
        None => {
            assert(after == nodes);
            assert(root_links(after, rest)) by {
                assert forall|r: NodeId|
                    after.contains_key(r) && #[trigger] lists_id(rest, r) implies after[r].parent
                    is None by {
                    assert(lists_id(roots, r));
                }
            }
            assert(free(after, rest, id)) by {
                assert forall|p: NodeId| #[trigger] after.contains_key(p) implies !lists_id(
                    after[p].children,
                    id,
                ) by {
                    if lists_id(nodes[p].children, id) {
                        assert(nodes[id].parent == Some(p));
                    }
                }
            }
        },
        Some(p) => {
            assert(climb_ends(nodes, id));
            lemma_not_above_parent(nodes, id);
            assert(nodes.contains_key(p));
            assert(p != id);
            let fewer = without_first(nodes[p].children, id);
            lemma_without_first(nodes[p].children, id);
            assert(after.dom() =~= nodes.dom());
            assert forall|k: NodeId| #[trigger] after.contains_key(k) implies nodes.contains_key(k)
                && (after[k].parent is None || after[k].parent == nodes[k].parent) by {}
            assert forall|k: NodeId, c: NodeId|
                after.contains_key(k) && #[trigger] lists_id(
                    after[k].children,
                    c,
                ) implies lists_id(nodes[k].children, c) by {
                if k == p {
                    assert(after[k].children == fewer);
                }
            }
            assert forall|x: NodeId| #[trigger] climb_ends(after, x) by {
                assert(climb_ends(nodes, x));
                let n = choose|n: nat| climbs(nodes, x, n);
                lemma_cut_climbs(nodes, after, x, n);
            }
            assert forall|x: NodeId| #[trigger] descent_ends(after, x) by {
                assert(descent_ends(nodes, x));
                let n = choose|n: nat| descends(nodes, x, n);
                lemma_cut_descends(nodes, after, x, n);
            }
            assert(child_links(after)) by {
                assert forall|q: NodeId, c: NodeId|
                    after.contains_key(q) && after.contains_key(c) && #[trigger] lists_id(
                        after[q].children,
                        c,
                    ) implies after[c].parent == Some(q) by {
                    assert(lists_id(nodes[q].children, c));
                    assert(nodes[c].parent == Some(q));
                    if c == id {
                        assert(q == p);
                    }
                }
            }
            assert(parent_links(after)) by {
                assert forall|c: NodeId|
                    #[trigger] after.contains_key(c) && after[c].parent is Some implies
                    after.contains_key(after[c].parent->0) && lists_id(
                    after[after[c].parent->0].children,
                    c,
                ) by {
                    assert(nodes.contains_key(c));
                    assert(lists_id(nodes[nodes[c].parent->0].children, c));
                }
            }
            assert(root_links(after, rest)) by {
                assert forall|r: NodeId|
                    after.contains_key(r) && #[trigger] lists_id(rest, r) implies after[r].parent
                    is None by {
                    assert(nodes.contains_key(r));
                }
            }
            assert forall|k: NodeId| #[trigger] after.contains_key(k) implies distinct(
                after[k].children,
            ) by {
                assert(nodes.contains_key(k));
            }
            assert(free(after, rest, id)) by {
                assert(!lists_id(roots, id)) by {
                    if lists_id(roots, id) {
                        assert(nodes[id].parent is None);
                    }
                }
                assert forall|q: NodeId| #[trigger] after.contains_key(q) implies !lists_id(
                    after[q].children,
                    id,
                ) by {
                    if lists_id(after[q].children, id) {
                        assert(lists_id(nodes[q].children, id));
                        assert(nodes[id].parent == Some(q));
                    }
                }
            }
        },
    }
}

/// Appending a free node to the roots keeps the forest.
pub proof fn lemma_attach_root(nodes: NodeMap, roots: Seq<Handle>, handle: Handle)
    requires
        forest(nodes, roots),
        free(nodes, roots, handle.id),
    ensures
        forest(nodes, roots.push(handle)),
{
    lemma_push_distinct(roots, handle);
    let more = roots.push(handle);
    assert(root_links(nodes, more)) by {
        assert forall|r: NodeId|
            nodes.contains_key(r) && #[trigger] lists_id(more, r) implies nodes[r].parent
            is None by {
            if lists_id(roots, r) {
            }
        }
    }
}

/// The nodes after a free node has been appended to the children of `parent`.
pub open spec fn attached_nodes(nodes: NodeMap, handle: Handle, parent: NodeId) -> NodeMap {
    let linked = nodes.insert(handle.id, NodeModel { parent: Some(parent), ..nodes[handle.id] });
    linked.insert(parent, linked[parent].with_children(linked[parent].children.push(handle)))
}

/// Climbing past a node that was free before it was attached.
proof fn lemma_attach_climbs(
    nodes: NodeMap,
    handle: Handle,
    parent: NodeId,
    x: NodeId,
    n: nat,
    up: nat,
)
    requires
        nodes.contains_key(handle.id),
        nodes.contains_key(parent),
        nodes[handle.id].parent is None,
        !above(nodes, handle.id, parent),
        climbs(nodes, x, n),
        climbs(nodes, parent, up),
    ensures
        climbs(attached_nodes(nodes, handle, parent), x, n + up + 1),
        !above(nodes, handle.id, x) ==> climbs(attached_nodes(nodes, handle, parent), x, n),
    decreases n,
{
    let after = attached_nodes(nodes, handle, parent);
    let id = handle.id;
    if nodes.contains_key(x) {
        lemma_above_step(nodes, id, x);
        if x == id {
            lemma_attach_climbs_free(nodes, handle, parent, parent, up);
            lemma_climbs_more(after, parent, up, n + up);
        } else if nodes[x].parent is Some {
            lemma_attach_climbs(nodes, handle, parent, nodes[x].parent->0, (n - 1) as nat, up);
        }
    }
}

proof fn lemma_attach_climbs_free(
    nodes: NodeMap,
    handle: Handle,
    parent: NodeId,
    x: NodeId,
    n: nat,
)
    requires
        nodes.contains_key(handle.id),
        nodes.contains_key(parent),
        !above(nodes, handle.id, x),
        climbs(nodes, x, n),
    ensures
        climbs(attached_nodes(nodes, handle, parent), x, n),
    decreases n,
{
    if nodes.contains_key(x) {
        lemma_above_step(nodes, handle.id, x);
        if nodes[x].parent is Some {
            lemma_attach_climbs_free(
                nodes,
                handle,
                parent,
                nodes[x].parent->0,
                (n - 1) as nat,
            );
        }
    }
}

/// Descending from a node that is not above the new parent.
proof fn lemma_attach_descends_aside(
    nodes: NodeMap,
    handle: Handle,
    parent: NodeId,
    x: NodeId,
    n: nat,
)
    requires
        child_links(nodes),
        nodes.contains_key(handle.id),
        nodes.contains_key(parent),
        !above(nodes, x, parent),
        descends(nodes, x, n),
    ensures
        descends(attached_nodes(nodes, handle, parent), x, n),
    decreases n,
{
    let after = attached_nodes(nodes, handle, parent);
    if nodes.contains_key(x) {
        lemma_above_step(nodes, parent, parent);
        assert(x != parent);
        assert(after[x].children == nodes[x].children);
        assert forall|i: int|
            #![trigger after[x].children[i]]
            0 <= i < after[x].children.len() implies n > 0 && descends(
            after,
            after[x].children[i].id,
            (n - 1) as nat,
        ) by {
            let child = nodes[x].children[i];
            assert(lists_id(nodes[x].children, child.id));
            if above(nodes, child.id, parent) {
                lemma_above_present(nodes, child.id, parent);
                assert(nodes[child.id].parent == Some(x));
                lemma_above_up(nodes, child.id, parent);
                assert(false);
            }
            lemma_attach_descends_aside(nodes, handle, parent, child.id, (n - 1) as nat);
        }
    }
}

/// What is above a node's ancestor is above the node.
pub proof fn lemma_above_up(nodes: NodeMap, a: NodeId, id: NodeId)
    requires
        above(nodes, a, id),
        nodes[a].parent is Some,
        nodes.contains_key(nodes[a].parent->0),
    ensures
        above(nodes, nodes[a].parent->0, id),
{
    let n = choose|n: nat| climb(nodes, id, n) == Some(a);
    lemma_climb_up(nodes, a, id, n);
}

proof fn lemma_climb_up(nodes: NodeMap, a: NodeId, id: NodeId, n: nat)
    requires
        climb(nodes, id, n) == Some(a),
        nodes[a].parent is Some,
        nodes.contains_key(nodes[a].parent->0),
    ensures
        climb(nodes, id, n + 1) == Some(nodes[a].parent->0),
    decreases n,
{
    if n == 0 {
        assert(climb(nodes, nodes[id].parent->0, 0) == Some(nodes[a].parent->0));
    } else {
        lemma_climb_up(nodes, a, nodes[id].parent->0, (n - 1) as nat);
    }
}

/// Descending from any node once the subtree of a free node hangs below `parent`.
proof fn lemma_attach_descends(
    nodes: NodeMap,
    handle: Handle,
    parent: NodeId,
    x: NodeId,
    n: nat,
    down: nat,
)
    requires
        child_links(nodes),
        nodes.contains_key(handle.id),
        nodes.contains_key(parent),
        !above(nodes, handle.id, parent),
        descends(nodes, x, n),
        descends(nodes, handle.id, down),
    ensures
        descends(attached_nodes(nodes, handle, parent), x, n + down + 1),
    decreases n,
{
    let after = attached_nodes(nodes, handle, parent);
    if nodes.contains_key(x) {
        lemma_above_step(nodes, parent, parent);
        assert(handle.id != parent);
        assert forall|i: int|
            #![trigger after[x].children[i]]
            0 <= i < after[x].children.len() implies descends(
            after,
            after[x].children[i].id,
            (n + down) as nat,
        ) by {
            if i < nodes[x].children.len() {
                let child = nodes[x].children[i];
                assert(after[x].children[i] == child);
                lemma_attach_descends(nodes, handle, parent, child.id, (n - 1) as nat, down);
            } else {
                assert(x == parent);
                assert(after[x].children[i] == handle);
                lemma_attach_descends_aside(nodes, handle, parent, handle.id, down);
                lemma_descends_more(after, handle.id, down, n + down);
            }
        }
    }
}

/// Attaching a free node below a node that it is not above keeps the forest.
pub proof fn lemma_attach_child(
    nodes: NodeMap,
    roots: Seq<Handle>,
    handle: Handle,
    parent: NodeId,
)
    requires
        forest(nodes, roots),
        free(nodes, roots, handle.id),
        nodes.contains_key(handle.id),
        nodes.contains_key(parent),
        !above(nodes, handle.id, parent),
    ensures
        forest(attached_nodes(nodes, handle, parent), roots),
        attached_nodes(nodes, handle, parent).dom() == nodes.dom(),
{
    let after = attached_nodes(nodes, handle, parent);
    let id = handle.id;
    lemma_above_step(nodes, parent, parent);
    assert(id != parent);
    assert(after.dom() =~= nodes.dom());
    lemma_push_distinct(nodes[parent].children, handle);
    assert(climb_ends(nodes, parent));
    let up = choose|n: nat| climbs(nodes, parent, n);
    assert forall|x: NodeId| #[trigger] climb_ends(after, x) by {
        assert(climb_ends(nodes, x));
        let n = choose|n: nat| climbs(nodes, x, n);
        lemma_attach_climbs(nodes, handle, parent, x, n, up);
    }
    assert(descent_ends(nodes, id));
    let down = choose|n: nat| descends(nodes, id, n);
    assert forall|x: NodeId| #[trigger] descent_ends(after, x) by {
        assert(descent_ends(nodes, x));
        let n = choose|n: nat| descends(nodes, x, n);
        lemma_attach_descends(nodes, handle, parent, x, n, down);
    }
    assert(child_links(after)) by {
        assert forall|q: NodeId, c: NodeId|
            after.contains_key(q) && after.contains_key(c) && #[trigger] lists_id(
                after[q].children,
                c,
            ) implies after[c].parent == Some(q) by {
            assert(nodes.contains_key(q) && nodes.contains_key(c));
            if q == parent {
                if c != id {
                    assert(lists_id(nodes[q].children, c));
                }
            } else {
                assert(lists_id(nodes[q].children, c));
                assert(c != id);
            }
        }
    }
    assert(parent_links(after)) by {
        assert forall|c: NodeId|
            #[trigger] after.contains_key(c) && after[c].parent is Some implies after.contains_key(
            after[c].parent->0,
        ) && lists_id(after[after[c].parent->0].children, c) by {
            assert(nodes.contains_key(c));
            if c != id {
                assert(lists_id(nodes[nodes[c].parent->0].children, c));
            }
        }
    }
    assert(root_links(after, roots)) by {
        assert forall|r: NodeId|
            after.contains_key(r) && #[trigger] lists_id(roots, r) implies after[r].parent
            is None by {
            assert(nodes.contains_key(r));
        }
    }
    assert forall|k: NodeId| #[trigger] after.contains_key(k) implies distinct(
        after[k].children,
    ) by {
        assert(nodes.contains_key(k));
    }
}

/// Adding a node that nothing refers to, without parent or children, keeps the
/// forest and leaves the node free.
pub proof fn lemma_add_isolated(nodes: NodeMap, roots: Seq<Handle>, id: NodeId, node: NodeModel)
    requires
        forest(nodes, roots),
        !nodes.contains_key(id),
        free(nodes, roots, id),
        node.parent is None,
        node.children.len() == 0,
    ensures
        forest(nodes.insert(id, node), roots),
        free(nodes.insert(id, node), roots, id),
{
    let after = nodes.insert(id, node);
    assert forall|x: NodeId| #[trigger] climb_ends(after, x) by {
        assert(climb_ends(nodes, x));
        let n = choose|n: nat| climbs(nodes, x, n);
        lemma_isolated_climbs(nodes, id, node, x, n);
    }
    assert forall|x: NodeId| #[trigger] descent_ends(after, x) by {
        assert(descent_ends(nodes, x));
        let n = choose|n: nat| descends(nodes, x, n);
        lemma_isolated_descends(nodes, id, node, x, n);
    }
    assert(child_links(after)) by {
        assert forall|q: NodeId, c: NodeId|
            after.contains_key(q) && after.contains_key(c) && #[trigger] lists_id(
                after[q].children,
                c,
            ) implies after[c].parent == Some(q) by {
            assert(q != id);
            assert(nodes.contains_key(q));
            assert(c != id);
        }
    }
    assert(parent_links(after)) by {
        assert forall|c: NodeId|
            #[trigger] after.contains_key(c) && after[c].parent is Some implies after.contains_key(
            after[c].parent->0,
        ) && lists_id(after[after[c].parent->0].children, c) by {
            assert(nodes.contains_key(c));
            assert(nodes.contains_key(nodes[c].parent->0));
        }
    }
    assert(root_links(after, roots)) by {
        assert forall|r: NodeId|
            after.contains_key(r) && #[trigger] lists_id(roots, r) implies after[r].parent
            is None by {
            assert(r != id);
        }
    }
    assert forall|k: NodeId| #[trigger] after.contains_key(k) implies distinct(
        after[k].children,
    ) by {
        if k != id {
            assert(nodes.contains_key(k));
        }
    }
    assert(free(after, roots, id)) by {
        assert forall|p: NodeId| #[trigger] after.contains_key(p) implies !lists_id(
            after[p].children,
            id,
        ) by {
            if p != id {
                assert(nodes.contains_key(p));
            }
        }
    }
}

proof fn lemma_isolated_climbs(nodes: NodeMap, id: NodeId, node: NodeModel, x: NodeId, n: nat)
    requires
        node.parent is None,
        climbs(nodes, x, n),
    ensures
        climbs(nodes.insert(id, node), x, n),
    decreases n,
{
    if x != id && nodes.contains_key(x) && nodes[x].parent is Some {
        lemma_isolated_climbs(nodes, id, node, nodes[x].parent->0, (n - 1) as nat);
    }
}

proof fn lemma_isolated_descends(nodes: NodeMap, id: NodeId, node: NodeModel, x: NodeId, n: nat)
    requires
        node.children.len() == 0,
        descends(nodes, x, n),
    ensures
        descends(nodes.insert(id, node), x, n),
    decreases n,
{
    let after = nodes.insert(id, node);
    if x != id && nodes.contains_key(x) {
        assert forall|i: int|
            #![trigger after[x].children[i]]
            0 <= i < after[x].children.len() implies n > 0 && descends(
            after,
            after[x].children[i].id,
            (n - 1) as nat,
        ) by {
            let child = nodes[x].children[i];
            lemma_isolated_descends(nodes, id, node, child.id, (n - 1) as nat);
        }
    }
}

/// Removing a node and orphaning its children keeps the forest.
pub proof fn lemma_remove_orphaning(nodes: NodeMap, roots: Seq<Handle>, id: NodeId)
    requires
        forest(nodes, roots),
        nodes.contains_key(id),
    ensures
        forest(orphan(nodes.remove(id), nodes[id].children), roots),
{
    let after = orphan(nodes.remove(id), nodes[id].children);
    assert forall|k: NodeId| #[trigger] after.contains_key(k) implies nodes.contains_key(k) && k
        != id && (after[k].parent is None || after[k].parent == nodes[k].parent)
        && after[k].children == nodes[k].children by {}
    assert forall|x: NodeId| #[trigger] climb_ends(after, x) by {
        assert(climb_ends(nodes, x));
        let n = choose|n: nat| climbs(nodes, x, n);
        lemma_cut_climbs(nodes, after, x, n);
    }
    assert forall|x: NodeId| #[trigger] descent_ends(after, x) by {
        assert(descent_ends(nodes, x));
        let n = choose|n: nat| descends(nodes, x, n);
        lemma_cut_descends(nodes, after, x, n);
    }
    assert(child_links(after)) by {
        assert forall|q: NodeId, c: NodeId|
            after.contains_key(q) && after.contains_key(c) && #[trigger] lists_id(
                after[q].children,
                c,
            ) implies after[c].parent == Some(q) by {
            assert(lists_id(nodes[q].children, c));
            assert(nodes[c].parent == Some(q));
            if lists_id(nodes[id].children, c) {
                assert(nodes[c].parent == Some(id));
            }
        }
    }
    assert(parent_links(after)) by {
        assert forall|c: NodeId|
            #[trigger] after.contains_key(c) && after[c].parent is Some implies after.contains_key(
            after[c].parent->0,
        ) && lists_id(after[after[c].parent->0].children, c) by {
            assert(nodes.contains_key(c));
            assert(lists_id(nodes[nodes[c].parent->0].children, c));
            assert(after[c].parent == nodes[c].parent);
            assert(nodes[c].parent != Some(id)) by {
                if nodes[c].parent == Some(id) {
                    assert(lists_id(nodes[id].children, c));
                }
            }
            assert(after.contains_key(nodes[c].parent->0));
        }
    }
    assert(root_links(after, roots)) by {
        assert forall|r: NodeId|
            after.contains_key(r) && #[trigger] lists_id(roots, r) implies after[r].parent
            is None by {
            assert(nodes.contains_key(r));
        }
    }
    assert forall|k: NodeId| #[trigger] after.contains_key(k) implies distinct(
        after[k].children,
    ) by {
        assert(nodes.contains_key(k));
    }
}

} // verus!
