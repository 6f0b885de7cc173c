//! Whether the links between nodes come to an end.
//!
//! Nodes can be inserted with any links, also with such that lead round in a circle.
//! Questions that follow links have no answer there, so that a caller who does not know
//! where the nodes come from asks first.

use super::bounds::acyclic;
use super::bounds_coherence::lemma_climb_split;
use super::forest::{lemma_climb_remaining, lemma_no_self_climb};
use super::model::reached;
use super::nodes::{lemma_climb_next, lemma_reached_present};
use super::rebind::lemma_below_child;
use super::tree::{
    below, below_within, climb, climb_ends, climbs, descends, descent_ends, lemma_descends_more,
    NodeMap,
};
use super::SceneData;
use crate::id_set::IdSet;
use crate::resource::handle::{Handle, NodeHandle, NodeId};
use vstd::prelude::*;

verus! {

/// A climb that comes by a node twice does not end.
proof fn lemma_circle(nodes: NodeMap, id: NodeId, i: nat, j: nat, x: NodeId)
    requires
        i < j,
        climb(nodes, id, i) == Some(x),
        climb(nodes, id, j) == Some(x),
    ensures
        !climb_ends(nodes, id),
{
    if climb_ends(nodes, id) {
        let n = choose|n: nat| climbs(nodes, id, n);
        lemma_climb_split(nodes, id, i, (j - i) as nat, x);
        lemma_climb_remaining(nodes, id, n, i);
        lemma_no_self_climb(nodes, x, (n - i) as nat, (j - i) as nat);
    }
}

/// Where all paths down from the children of a node end, those from the node do.
proof fn lemma_children_end(nodes: NodeMap, id: NodeId, upto: int) -> (n: nat)
    requires
        nodes.contains_key(id),
        0 <= upto <= nodes[id].children.len(),
        forall|i: int|
            0 <= i < upto ==> descent_ends(nodes, (#[trigger] nodes[id].children[i]).id),
    ensures
        forall|i: int|
            0 <= i < upto ==> descends(nodes, (#[trigger] nodes[id].children[i]).id, n),
    decreases upto,
{
    if upto == 0 {
        0
    } else {
        let a = lemma_children_end(nodes, id, upto - 1);
        let c = nodes[id].children[upto - 1].id;
        assert(descent_ends(nodes, c));
        let b = choose|b: nat| descends(nodes, c, b);
        let n = if a < b {
            b
        } else {
            a
        };
        assert forall|i: int| 0 <= i < upto implies descends(
            nodes,
            (#[trigger] nodes[id].children[i]).id,
            n,
        ) by {
            if i < upto - 1 {
                lemma_descends_more(nodes, nodes[id].children[i].id, a, n);
            } else {
                lemma_descends_more(nodes, c, b, n);
            }
        }
        n
    }
}

/// Where every node outside a set has a child outside it, no path down from there ends.
proof fn lemma_never_ends(nodes: NodeMap, ended: Set<NodeId>, among: Seq<NodeId>, x: NodeId, n: nat)
    requires
        forall|k: NodeId|
            among.contains(k) && !ended.contains(k) ==> #[trigger] leads_on(
                nodes,
                ended,
                among,
                k,
            ),
        among.contains(x),
        !ended.contains(x),
    ensures
        !descends(nodes, x, n),
    decreases n,
{
    assert(leads_on(nodes, ended, among, x));
    let i = choose|i: int|
        0 <= i < nodes[x].children.len() && among.contains((#[trigger] nodes[x].children[i]).id)
            && !ended.contains(nodes[x].children[i].id);
    if n > 0 {
        lemma_never_ends(nodes, ended, among, nodes[x].children[i].id, (n - 1) as nat);
    }
}

/// Whether a node lists one of `among` that is not in `ended`.
spec fn leads_on(nodes: NodeMap, ended: Set<NodeId>, among: Seq<NodeId>, x: NodeId) -> bool {
    nodes.contains_key(x) && exists|i: int|
        0 <= i < nodes[x].children.len() && among.contains((#[trigger] nodes[x].children[i]).id)
            && !ended.contains(nodes[x].children[i].id)
}

impl SceneData {
    /// Whether climbing from a node comes to an end.
    pub fn ancestry_ends(&self, id: NodeId) -> (ends: bool)
        requires
            self@.wf(),
        ensures
            ends == climb_ends(self@.nodes, id),
    {
        let ghost nodes = self@.nodes;
        let mut seen = IdSet::new();
        let mut current: u64 = id;
        let ghost mut steps: nat = 0;
        loop
            invariant
                nodes == self@.nodes,
                nodes.dom().finite(),
                seen@.finite(),
                seen@.subset_of(nodes.dom()),
                forall|x: NodeId| #[trigger]
                    seen@.contains(x) ==> exists|j: nat|
                        j < steps && #[trigger] climb(nodes, id, j) == Some(x),
                nodes.contains_key(current) ==> climb(nodes, id, steps) == Some(current),
                climb_ends(nodes, id) <==> climb_ends(nodes, current),
            decreases nodes.dom().difference(seen@).len(),
        {
            match self.nodes.get(current) {
                None => {
                    assert(climbs(nodes, current, 0));
                    return true;
                },
                Some(node) => {
                    if seen.contains(current) {
                        proof {
                            let j = choose|j: nat|
                                j < steps && #[trigger] climb(nodes, id, j) == Some(current);
                            lemma_circle(nodes, id, j, steps, current);
                        }
                        return false;
                    }
                    match node.parent {
                        None => {
                            assert(climbs(nodes, current, 0));
                            return true;
                        },
                        Some(parent) => {
                            let ghost before = seen@;
                            let fresh = seen.insert(current);
                            proof {
                                lemma_climb_next(nodes, id, steps);
                                assert(nodes.dom().difference(seen@) =~= nodes.dom().difference(
                                    before,
                                ).remove(current));
                                assert(nodes.dom().difference(before).contains(current));
                                if climb_ends(nodes, current) {
                                    let n = choose|n: nat| climbs(nodes, current, n);
                                    assert(climbs(nodes, parent, (n - 1) as nat));
                                }
                                if climb_ends(nodes, parent) {
                                    let n = choose|n: nat| climbs(nodes, parent, n);
                                    assert(climbs(nodes, current, n + 1));
                                }
                                let done = steps;
                                steps = steps + 1;
                                assert forall|x: NodeId| #[trigger] seen@.contains(
                                    x,
                                ) implies exists|j: nat|
                                    j < steps && #[trigger] climb(nodes, id, j) == Some(x) by {
                                    if x == current {
                                        assert(climb(nodes, id, done) == Some(x));
                                    } else {
                                        assert(before.contains(x));
                                    }
                                }
                            }
                            current = parent;
                        },
                    }
                },
            }
        }
    }

    /// Whether some node names `id` as its parent, be that there or not.
    pub fn is_awaited(&self, id: NodeId) -> (awaited: bool)
        ensures
            awaited == exists|k: NodeId| #[trigger]
                self@.nodes.contains_key(k) && self@.nodes[k].parent == Some(id),
    {
        let ids = self.nodes.keys();
        let mut i: usize = 0;
        while i < ids.len()
            invariant
                i <= ids.len(),
                forall|k: u64| #[trigger] ids@.contains(k) <==> self@.nodes.contains_key(k),
                forall|j: int|
                    0 <= j < i ==> self@.nodes[#[trigger] ids@[j]].parent != Some(id),
            decreases ids.len() - i,
        {
            let k: u64 = ids[i];
            assert(ids@.contains(k));
            if let Some(node) = self.nodes.get(k) {
                if node.parent == Some(id) {
                    return true;
                }
            }
            i = i + 1;
        }
        proof {
            assert forall|k: NodeId| #[trigger] self@.nodes.contains_key(k) implies
                self@.nodes[k].parent != Some(id) by {
                assert(ids@.contains(k));
                let j = choose|j: int| 0 <= j < ids.len() && ids@[j] == k;
                assert(self@.nodes[ids@[j]].parent != Some(id));
            }
        }
        false
    }

    /// Whether all children of a node that are there are in the set.
    fn children_in(&self, id: NodeId, ended: &IdSet) -> (all: bool)
        requires
            self@.nodes.contains_key(id),
        ensures
            all == forall|i: int|
                0 <= i < self@.nodes[id].children.len() ==> ended@.contains(
                    (#[trigger] self@.nodes[id].children[i]).id,
                ) || !self@.nodes.contains_key(self@.nodes[id].children[i].id),
    {
        if let Some(node) = self.nodes.get(id) {
            let mut i: usize = 0;
            while i < node.children.len()
                invariant
                    i <= node.children.len(),
                    node@ == self@.nodes[id],
                    forall|j: int|
                        0 <= j < i ==> ended@.contains(
                            (#[trigger] self@.nodes[id].children[j]).id,
                        ) || !self@.nodes.contains_key(self@.nodes[id].children[j].id),
                decreases node.children.len() - i,
            {
                let child: u64 = node.children[i].id;
                assert(self@.nodes[id].children[i as int].id == child);
                if !ended.contains(child) && self.nodes.contains(child) {
                    return false;
                }
                i = i + 1;
            }
        }
        true
    }

    /// Those of the given nodes from which all paths down come to an end. The list holds
    /// the children of its members.
    fn ending_among(&self, ids: &Vec<NodeId>) -> (ended: IdSet)
        requires
            self@.nodes.dom().finite(),
            forall|k: NodeId| #[trigger] ids@.contains(k) ==> self@.nodes.contains_key(k),
            forall|k: NodeId, i: int|
                ids@.contains(k) && 0 <= i < self@.nodes[k].children.len()
                    && self@.nodes.contains_key((#[trigger] self@.nodes[k].children[i]).id)
                    ==> ids@.contains(self@.nodes[k].children[i].id),
        ensures
            forall|k: NodeId| #[trigger]
                ids@.contains(k) ==> ended@.contains(k) == descent_ends(self@.nodes, k),
    {
        let ghost nodes = self@.nodes;
        let mut ended = IdSet::new();
        let mut changed = true;
        while changed
            invariant
                nodes == self@.nodes,
                nodes.dom().finite(),
                ended@.finite(),
                ended@.subset_of(nodes.dom()),
                forall|k: NodeId| #[trigger] ids@.contains(k) ==> nodes.contains_key(k),
                forall|k: NodeId, i: int|
                    ids@.contains(k) && 0 <= i < nodes[k].children.len() && nodes.contains_key(
                        (#[trigger] nodes[k].children[i]).id,
                    ) ==> ids@.contains(nodes[k].children[i].id),
                forall|k: NodeId| #[trigger] ended@.contains(k) ==> descent_ends(nodes, k),
                !changed ==> forall|k: NodeId|
                    ids@.contains(k) && !ended@.contains(k) ==> #[trigger] leads_on(
                        nodes,
                        ended@,
                        ids@,
                        k,
                    ),
            decreases nodes.dom().difference(ended@).len(), (if changed {
                1nat
            } else {
                0nat
            }),
        {
            changed = false;
            let mut left: usize = ids.len();
            let ghost start = ended@;
            while left > 0
                invariant
                    left <= ids.len(),
                    nodes == self@.nodes,
                    nodes.dom().finite(),
                    ended@.finite(),
                    ended@.subset_of(nodes.dom()),
                    start.subset_of(ended@),
                    forall|k: NodeId| #[trigger] ids@.contains(k) ==> nodes.contains_key(k),
                    forall|k: NodeId, i: int|
                        ids@.contains(k) && 0 <= i < nodes[k].children.len() && nodes.contains_key(
                            (#[trigger] nodes[k].children[i]).id,
                        ) ==> ids@.contains(nodes[k].children[i].id),
                    forall|k: NodeId| #[trigger] ended@.contains(k) ==> descent_ends(nodes, k),
                    !changed ==> ended@ == start,
                    changed ==> nodes.dom().difference(ended@).len() < nodes.dom().difference(
                        start,
                    ).len(),
                    !changed ==> forall|j: int|
                        left <= j < ids.len() && !ended@.contains(#[trigger] ids@[j]) ==> leads_on(
                            nodes,
                            ended@,
                            ids@,
                            ids@[j],
                        ),
                decreases left,
            {
                left = left - 1;
                let id: u64 = ids[left];
                assert(ids@.contains(id));
                if !ended.contains(id) {
                    if self.children_in(id, &ended) {
                        let ghost before = ended@;
                        proof {
                            let kids = nodes[id].children;
                            assert forall|i: int| 0 <= i < kids.len() implies descent_ends(
                                nodes,
                                (#[trigger] nodes[id].children[i]).id,
                            ) by {
                                let c = nodes[id].children[i].id;
                                if !nodes.contains_key(c) {
                                    assert(descends(nodes, c, 0));
                                } else {
                                    assert(ended@.contains(c));
                                }
                            }
                            let n = lemma_children_end(nodes, id, kids.len() as int);
                            assert(descends(nodes, id, n + 1));
                        }
                        let fresh = ended.insert(id);
                        changed = true;
                        proof {
                            assert(nodes.dom().difference(ended@) =~= nodes.dom().difference(
                                before,
                            ).remove(id));
                            assert(nodes.dom().difference(before).contains(id));
                            if before != start {
                                assert(nodes.dom().difference(before).len()
                                    < nodes.dom().difference(start).len());
                            }
                        }
                    } else {
                        proof {
                            let i = choose|i: int|
                                0 <= i < nodes[id].children.len() && !(ended@.contains(
                                    (#[trigger] nodes[id].children[i]).id,
                                ) || !nodes.contains_key(nodes[id].children[i].id));
                            assert(ids@.contains(nodes[id].children[i].id));
                            assert(leads_on(nodes, ended@, ids@, id));
                        }
                    }
                }
            }
            proof {
                if !changed {
                    assert forall|k: NodeId|
                        ids@.contains(k) && !ended@.contains(k) implies #[trigger] leads_on(
                        nodes,
                        ended@,
                        ids@,
                        k,
                    ) by {
                        let j = choose|j: int| 0 <= j < ids.len() && ids@[j] == k;
                        assert(leads_on(nodes, ended@, ids@, ids@[j]));
                    }
                }
            }
        }
        proof {
            assert forall|k: NodeId| #[trigger] ids@.contains(k) implies ended@.contains(k)
                == descent_ends(nodes, k) by {
                if !ended@.contains(k) && descent_ends(nodes, k) {
                    let n = choose|n: nat| descends(nodes, k, n);
                    lemma_never_ends(nodes, ended@, ids@, k, n);
                }
            }
        }
        ended
    }

    /// Whether all paths down from a node come to an end.
    pub fn subtree_ends(&self, id: NodeId) -> (ends: bool)
        requires
            self@.wf(),
        ensures
            ends == descent_ends(self@.nodes, id),
    {
        let ghost nodes = self@.nodes;
        if !self.nodes.contains(id) {
            assert(descends(nodes, id, 0));
            return true;
        }
        let mut top: Vec<NodeHandle> = Vec::new();
        top.push(Handle::unbound(id));
        let (set, ids) = self.mark_below(&top);
        proof {
            assert(top@[0].id == id);
            assert(below_within(nodes, id, id, 0));
            assert(below(nodes, id, top@[0].id));
            assert(reached(nodes, top@, id));
            assert(ids@.contains(id));
            assert forall|k: NodeId| #[trigger] ids@.contains(k) implies nodes.contains_key(k) by {
                lemma_reached_present(nodes, top@, k);
            }
            assert forall|k: NodeId, i: int|
                ids@.contains(k) && 0 <= i < nodes[k].children.len() && nodes.contains_key(
                    (#[trigger] nodes[k].children[i]).id,
                ) implies ids@.contains(nodes[k].children[i].id) by {
                assert(reached(nodes, top@, k));
                let r = choose|r: int|
                    0 <= r < top.len() && below(nodes, k, (#[trigger] top@[r]).id);
                lemma_below_child(nodes, top@[r].id, k, i);
                assert(reached(nodes, top@, nodes[k].children[i].id));
            }
        }
        let ended = self.ending_among(&ids);
        ended.contains(id)
    }

    /// Whether climbing and descending come to an end everywhere.
    pub fn links_end(&self) -> (ends: bool)
        requires
            self@.wf(),
        ensures
            ends == acyclic(self@.nodes),
    {
        let ghost nodes = self@.nodes;
        let ids = self.nodes.keys();
        let ended = self.ending_among(&ids);
        let mut i: usize = 0;
        while i < ids.len()
            invariant
                i <= ids.len(),
                nodes == self@.nodes,
                self@.wf(),
                forall|k: NodeId| #[trigger] ids@.contains(k) <==> nodes.contains_key(k),
                forall|k: NodeId| #[trigger]
                    ids@.contains(k) ==> ended@.contains(k) == descent_ends(nodes, k),
                forall|j: int|
                    0 <= j < i ==> climb_ends(nodes, #[trigger] ids@[j]) && descent_ends(
                        nodes,
                        ids@[j],
                    ),
            decreases ids.len() - i,
        {
            let id: u64 = ids[i];
            assert(ids@.contains(id));
            if !ended.contains(id) || !self.ancestry_ends(id) {
                return false;
            }
            i = i + 1;
        }
        proof {
            assert forall|id: NodeId| #[trigger] climb_ends(nodes, id) by {
                if nodes.contains_key(id) {
                    assert(ids@.contains(id));
                    let j = choose|j: int| 0 <= j < ids.len() && ids@[j] == id;
                    assert(climb_ends(nodes, ids@[j]));
                } else {
                    assert(climbs(nodes, id, 0));
                }
            }
            assert forall|id: NodeId| #[trigger] descent_ends(nodes, id) by {
                if nodes.contains_key(id) {
                    assert(ids@.contains(id));
                    let j = choose|j: int| 0 <= j < ids.len() && ids@[j] == id;
                    assert(climb_ends(nodes, ids@[j]));
                } else {
                    assert(descends(nodes, id, 0));
                }
            }
        }
        true
    }
}

} // verus!
