//! The effective visibility of nodes.

use super::forest::{lemma_same_descends, lemma_same_relations, same_shape};
use super::node_laws::{attributes_keep_sound, only_attributes};
use super::tree::{
    above, climb_ends, climbs, descends, descent_ends, lemma_above_present, lemma_above_step,
    NodeMap,
};
use super::SceneData;
use crate::resource::handle::NodeId;
use crate::resource::node::{EffectiveVisibility, NodeModel, Visibility};
use vstd::prelude::*;

verus! {

/// What is shown of the subtree of a node, looking at most `n` steps down and not above
/// it. A node that is not there is invisible, a cached value counts, and a visible node is
/// visible in full when all its children are.
pub open spec fn visibility_within(nodes: NodeMap, id: NodeId, n: nat) -> EffectiveVisibility
    decreases n,
{
    if !nodes.contains_key(id) {
        EffectiveVisibility::Invisible
    } else if nodes[id].visibility_cache is Some {
        nodes[id].visibility_cache->0
    } else if nodes[id].visibility == Visibility::Invisible {
        EffectiveVisibility::Invisible
    } else if n > 0 && exists|i: int|
        0 <= i < nodes[id].children.len() && visibility_within(
            nodes,
            (#[trigger] nodes[id].children[i]).id,
            (n - 1) as nat,
        ) != EffectiveVisibility::Visible {
        EffectiveVisibility::Mixed
    } else {
        EffectiveVisibility::Visible
    }
}

/// How far down the paths from a node go.
pub open spec fn depth_below(nodes: NodeMap, id: NodeId) -> nat {
    choose|n: nat| descends(nodes, id, n)
}

/// What is shown of the subtree of a node, were it not for what is above it. Where caches
/// are right, which every operation on nodes keeps, this is what looking anew gives.
pub open spec fn shown_below(nodes: NodeMap, id: NodeId) -> EffectiveVisibility {
    visibility_within(nodes, id, depth_below(nodes, id))
}

/// Whether a node, or one above it, was made invisible.
pub open spec fn hidden_from_above(nodes: NodeMap, id: NodeId) -> bool {
    exists|a: NodeId| #[trigger]
        above(nodes, a, id) && nodes.contains_key(a) && nodes[a].visibility
            == Visibility::Invisible
}

/// The effective visibility of a node: what it is rendered with after inheritance.
/// Nothing below an invisible node is rendered.
pub open spec fn effective_visibility(nodes: NodeMap, id: NodeId) -> EffectiveVisibility {
    if hidden_from_above(nodes, id) {
        EffectiveVisibility::Invisible
    } else {
        shown_below(nodes, id)
    }
}

/// Looking further down than the paths go makes no difference.
proof fn lemma_visibility_fuel(nodes: NodeMap, id: NodeId, n: nat, k: nat)
    requires
        descends(nodes, id, n),
        descends(nodes, id, k),
    ensures
        visibility_within(nodes, id, n) == visibility_within(nodes, id, k),
    decreases n,
{
    if nodes.contains_key(id) {
        let children = nodes[id].children;
        assert forall|i: int| 0 <= i < children.len() implies n > 0 && k > 0 && visibility_within(
            nodes,
            (#[trigger] children[i]).id,
            (n - 1) as nat,
        ) == visibility_within(nodes, children[i].id, (k - 1) as nat) by {
            assert(descends(nodes, nodes[id].children[i].id, (n - 1) as nat));
            assert(descends(nodes, nodes[id].children[i].id, (k - 1) as nat));
            lemma_visibility_fuel(nodes, children[i].id, (n - 1) as nat, (k - 1) as nat);
        }
    }
}

/// What is shown of a node that has paths down of at most `n` steps.
pub proof fn lemma_visibility_depth(nodes: NodeMap, id: NodeId, n: nat)
    requires
        descends(nodes, id, n),
    ensures
        shown_below(nodes, id) == visibility_within(nodes, id, n),
{
    lemma_visibility_fuel(nodes, id, depth_below(nodes, id), n);
}

/// What is shown of a node in terms of its children: exactly the visible nodes all of
/// whose children are visible are visible themselves.
pub proof fn visibility_from_children(nodes: NodeMap, id: NodeId)
    requires
        descent_ends(nodes, id),
        nodes.contains_key(id),
        nodes[id].visibility_cache is None,
        nodes[id].visibility == Visibility::Visible,
    ensures
        shown_below(nodes, id) == (if forall|i: int|
            0 <= i < nodes[id].children.len() ==> shown_below(
                nodes,
                (#[trigger] nodes[id].children[i]).id,
            ) == EffectiveVisibility::Visible {
            EffectiveVisibility::Visible
        } else {
            EffectiveVisibility::Mixed
        }),
{
    let n = depth_below(nodes, id);
    assert forall|i: int| 0 <= i < nodes[id].children.len() implies shown_below(
        nodes,
        (#[trigger] nodes[id].children[i]).id,
    ) == visibility_within(nodes, nodes[id].children[i].id, (n - 1) as nat) by {
        assert(descends(nodes, nodes[id].children[i].id, (n - 1) as nat));
        lemma_visibility_depth(nodes, nodes[id].children[i].id, (n - 1) as nat);
    }
}

/// Whether `b` is `a` with what is shown of some nodes cached.
pub open spec fn visibility_filled(a: NodeMap, b: NodeMap) -> bool {
    &&& a.dom() == b.dom()
    &&& forall|k: NodeId| #[trigger]
        a.contains_key(k) ==> b[k] == a[k] || (a[k].visibility_cache is None && descent_ends(a, k)
            && b[k] == (NodeModel {
            visibility_cache: Some(shown_below(a, k)),
            ..a[k]
        }))
}

proof fn lemma_filled_shape(a: NodeMap, b: NodeMap)
    requires
        visibility_filled(a, b),
    ensures
        same_shape(a, b),
        same_shape(b, a),
{
    assert forall|k: NodeId| #[trigger] b.contains_key(k) implies a[k].parent == b[k].parent
        && a[k].children == b[k].children by {
        assert(a.contains_key(k));
    }
}

proof fn lemma_filled_within(a: NodeMap, b: NodeMap, id: NodeId, n: nat)
    requires
        visibility_filled(a, b),
        descends(a, id, n),
    ensures
        visibility_within(b, id, n) == visibility_within(a, id, n),
    decreases n,
{
    assert(a.contains_key(id) == b.contains_key(id));
    if a.contains_key(id) {
        if b[id] == a[id] {
            let children = a[id].children;
            assert forall|i: int| 0 <= i < children.len() implies n > 0 && visibility_within(
                a,
                (#[trigger] children[i]).id,
                (n - 1) as nat,
            ) == visibility_within(b, children[i].id, (n - 1) as nat) by {
                assert(descends(a, a[id].children[i].id, (n - 1) as nat));
                lemma_filled_within(a, b, children[i].id, (n - 1) as nat);
            }
        } else {
            lemma_visibility_depth(a, id, n);
        }
    }
}

/// Asking for a visibility changes no visibility.
pub proof fn visibility_query_changes_no_visibility(a: NodeMap, b: NodeMap, id: NodeId)
    requires
        visibility_filled(a, b),
        descent_ends(a, id),
    ensures
        shown_below(b, id) == shown_below(a, id),
        effective_visibility(b, id) == effective_visibility(a, id),
{
    lemma_filled_shape(a, b);
    assert(hidden_from_above(a, id) == hidden_from_above(b, id)) by {
        if hidden_from_above(a, id) {
            let x = choose|x: NodeId| #[trigger]
                above(a, x, id) && a.contains_key(x) && a[x].visibility == Visibility::Invisible;
            lemma_same_relations(a, b, x, id);
            assert(above(b, x, id) && b.contains_key(x));
        }
        if hidden_from_above(b, id) {
            let x = choose|x: NodeId| #[trigger]
                above(b, x, id) && b.contains_key(x) && b[x].visibility == Visibility::Invisible;
            lemma_same_relations(b, a, x, id);
            assert(above(a, x, id) && a.contains_key(x));
        }
    }
    let n = depth_below(a, id);
    lemma_same_descends(a, b, id, n);
    lemma_filled_within(a, b, id, n);
    lemma_visibility_depth(b, id, n);
}

proof fn lemma_filled_trans(a: NodeMap, b: NodeMap, c: NodeMap)
    requires
        visibility_filled(a, b),
        visibility_filled(b, c),
    ensures
        visibility_filled(a, c),
{
    lemma_filled_shape(a, b);
    assert forall|k: NodeId| #[trigger] a.contains_key(k) implies c[k] == a[k] || (
    a[k].visibility_cache is None && descent_ends(a, k) && c[k] == (NodeModel {
        visibility_cache: Some(shown_below(a, k)),
        ..a[k]
    })) by {
        assert(b.contains_key(k));
        if c[k] != b[k] {
            let n = depth_below(b, k);
            lemma_same_descends(b, a, k, n);
            visibility_query_changes_no_visibility(a, b, k);
        }
    }
}

/// A node is hidden when it is invisible, or its parent is hidden.
proof fn lemma_hidden_step(nodes: NodeMap, id: NodeId)
    requires
        nodes.contains_key(id),
    ensures
        hidden_from_above(nodes, id) == (nodes[id].visibility == Visibility::Invisible || (
        nodes[id].parent matches Some(p) && hidden_from_above(nodes, p))),
{
    lemma_above_step(nodes, id, id);
    if nodes[id].visibility == Visibility::Invisible {
        assert(above(nodes, id, id));
    }
    if hidden_from_above(nodes, id) {
        let a = choose|a: NodeId| #[trigger]
            above(nodes, a, id) && nodes.contains_key(a) && nodes[a].visibility
                == Visibility::Invisible;
        lemma_above_step(nodes, a, id);
        if a != id {
            assert(above(nodes, a, nodes[id].parent->0));
        }
    }
    if let Some(p) = nodes[id].parent {
        if hidden_from_above(nodes, p) {
            let a = choose|a: NodeId| #[trigger]
                above(nodes, a, p) && nodes.contains_key(a) && nodes[a].visibility
                    == Visibility::Invisible;
            lemma_above_step(nodes, a, id);
            assert(above(nodes, a, id));
        }
    }
}

impl SceneData {
    /// Whether a node, or one above it, was made invisible.
    fn is_hidden_from_above(&self, id: NodeId) -> (hidden: bool)
        requires
            climb_ends(self@.nodes, id),
        ensures
            hidden == hidden_from_above(self@.nodes, id),
    {
        let mut current: u64 = id;
        let ghost mut left: nat = choose|n: nat| climbs(self@.nodes, id, n);
        loop
            invariant
                climbs(self@.nodes, current, left),
                hidden_from_above(self@.nodes, current) == hidden_from_above(self@.nodes, id),
            decreases left,
        {
            match self.nodes.get(current) {
                None => {
                    proof {
                        if hidden_from_above(self@.nodes, current) {
                            let a = choose|a: NodeId| #[trigger]
                                above(self@.nodes, a, current) && self@.nodes.contains_key(a)
                                    && self@.nodes[a].visibility == Visibility::Invisible;
                            lemma_above_present(self@.nodes, a, current);
                        }
                    }
                    return false;
                },
                Some(node) => {
                    proof {
                        lemma_hidden_step(self@.nodes, current);
                    }
                    if let Visibility::Invisible = node.visibility {
                        return true;
                    }
                    match node.parent {
                        Some(parent) => {
                            proof {
                                left = (left - 1) as nat;
                            }
                            current = parent;
                        },
                        None => {
                            return false;
                        },
                    }
                },
            }
        }
    }

    /// Gets the effective visibility of a node with caching: what it is rendered with
    /// after inheritance. A node that does not exist is `Invisible`, and so is everything
    /// below an invisible one.
    pub fn node_effective_visibility(&mut self, id: NodeId) -> (effective: EffectiveVisibility)
        requires
            climb_ends(old(self)@.nodes, id),
            descent_ends(old(self)@.nodes, id),
        ensures
            effective == effective_visibility(old(self)@.nodes, id),
            visibility_filled(old(self)@.nodes, final(self)@.nodes),
            final(self)@ == old(self)@.with_nodes(final(self)@.nodes),
            old(self)@.sound() ==> final(self)@.sound(),
    {
        let ghost m = self@;
        if self.is_hidden_from_above(id) {
            assert(m =~= m.with_nodes(m.nodes));
            return EffectiveVisibility::Invisible;
        }
        let effective = self.visibility_at(id, Ghost(depth_below(self@.nodes, id)));
        proof {
            if m.sound() {
                lemma_filled_shape(m.nodes, self@.nodes);
                assert(only_attributes(m, self@));
                attributes_keep_sound(m, self@);
            }
        }
        effective
    }

    /// What is shown of the subtree of a node, with caching.
    fn visibility_at(&mut self, id: NodeId, Ghost(depth): Ghost<nat>) -> (effective:
        EffectiveVisibility)
        requires
            descends(old(self)@.nodes, id, depth),
        ensures
            effective == shown_below(old(self)@.nodes, id),
            visibility_filled(old(self)@.nodes, final(self)@.nodes),
            old(self)@.nodes.contains_key(id) ==> final(self)@.nodes[id].visibility_cache == Some(
                effective,
            ),
            final(self)@ == old(self)@.with_nodes(final(self)@.nodes),
        decreases depth, 1nat,
    {
        let ghost m = self@;
        proof {
            lemma_visibility_depth(m.nodes, id, depth);
        }
        let children: Vec<NodeId> = match self.nodes.get(id) {
            None => {
                return EffectiveVisibility::Invisible;
            },
            Some(node) => {
                if let Some(cached) = node.visibility_cache {
                    return cached;
                }
                node.child_ids()
            },
        };
        let effective = self.visibility_of(id, &children, Ghost(depth));
        let ghost before = self@;
        if let Some(node) = self.nodes.get_mut(id) {
            node.visibility_cache = Some(effective);
        }
        proof {
            let step = before.nodes.insert(
                id,
                NodeModel { visibility_cache: Some(effective), ..before.nodes[id] },
            );
            assert(self@.nodes =~= step);
            assert(m.nodes.contains_key(id) && before.nodes.contains_key(id));
            assert(before.nodes[id] == m.nodes[id] || before.nodes[id].visibility_cache == Some(
                effective,
            ));
            lemma_filled_shape(m.nodes, before.nodes);
            assert(self@.nodes.dom() =~= m.nodes.dom());
            assert forall|k: NodeId| #[trigger] m.nodes.contains_key(k) implies self@.nodes[k]
                == m.nodes[k] || (m.nodes[k].visibility_cache is None && descent_ends(m.nodes, k)
                && self@.nodes[k] == (NodeModel {
                visibility_cache: Some(shown_below(m.nodes, k)),
                ..m.nodes[k]
            })) by {
                assert(before.nodes[k] == m.nodes[k] || before.nodes[k].visibility_cache == Some(
                    shown_below(m.nodes, k),
                ));
            }
        }
        effective
    }

    /// What is shown of a node that has nothing cached.
    fn visibility_of(&mut self, id: NodeId, children: &Vec<NodeId>, Ghost(depth): Ghost<nat>) -> (
        effective: EffectiveVisibility)
        requires
            old(self)@.nodes.contains_key(id),
            old(self)@.nodes[id].visibility_cache is None,
            descends(old(self)@.nodes, id, depth),
            children.len() == old(self)@.nodes[id].children.len(),
            forall|i: int|
                0 <= i < children.len() ==> (#[trigger] children@[i])
                    == old(self)@.nodes[id].children[i].id,
        ensures
            effective == shown_below(old(self)@.nodes, id),
            visibility_filled(old(self)@.nodes, final(self)@.nodes),
            final(self)@ == old(self)@.with_nodes(final(self)@.nodes),
        decreases depth, 0nat,
    {
        let ghost m = self@;
        proof {
            lemma_visibility_depth(m.nodes, id, depth);
        }
        let shown = match self.nodes.get(id) {
            None => Visibility::Invisible,
            Some(node) => node.visibility,
        };
        if let Visibility::Invisible = shown {
            return EffectiveVisibility::Invisible;
        }
        let mut i: usize = 0;
        while i < children.len()
            invariant
                i <= children.len(),
                m == old(self)@,
                visibility_filled(m.nodes, self@.nodes),
                self@ == m.with_nodes(self@.nodes),
                m.nodes.contains_key(id),
                m.nodes[id].visibility_cache is None,
                m.nodes[id].visibility == Visibility::Visible,
                descends(m.nodes, id, depth),
                children.len() == m.nodes[id].children.len(),
                forall|j: int|
                    0 <= j < children.len() ==> (#[trigger] children@[j])
                        == m.nodes[id].children[j].id,
                forall|j: int|
                    0 <= j < i ==> shown_below(
                        m.nodes,
                        (#[trigger] m.nodes[id].children[j]).id,
                    ) == EffectiveVisibility::Visible,
            decreases children.len() - i,
        {
            let ghost before = self@;
            let child: NodeId = children[i];
            proof {
                assert(child == m.nodes[id].children[i as int].id);
                assert(descends(m.nodes, m.nodes[id].children[i as int].id, (depth - 1) as nat));
                lemma_filled_shape(m.nodes, before.nodes);
                lemma_same_descends(m.nodes, before.nodes, child, (depth - 1) as nat);
                assert(descent_ends(m.nodes, child));
                visibility_query_changes_no_visibility(m.nodes, before.nodes, child);
                assert(descent_ends(m.nodes, id));
                visibility_from_children(m.nodes, id);
            }
            let effective = self.visibility_at(child, Ghost((depth - 1) as nat));
            proof {
                lemma_filled_trans(m.nodes, before.nodes, self@.nodes);
            }
            if effective != EffectiveVisibility::Visible {
                return EffectiveVisibility::Mixed;
            }
            i = i + 1;
        }
        proof {
            assert(descent_ends(m.nodes, id));
            visibility_from_children(m.nodes, id);
        }
        EffectiveVisibility::Visible
    }
}

} // verus!
