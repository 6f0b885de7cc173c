//! The scene tree.
//!
//! A node names its parent by id and lists its children by handle. This module
//! says what it means for these links to form a forest, and answers questions that
//! follow the links upwards.

use super::model::{lists_id, SceneModel};
use super::SceneData;
use crate::light::Light;
use crate::resource::handle::{Handle, NodeId};
use crate::resource::node::{NodeModel, NodePayload};
use vstd::prelude::*;

verus! {

/// The nodes of a scene, by id.
pub type NodeMap = Map<u64, NodeModel>;

/// The node `n` steps above `id`, if there is one.
pub open spec fn climb(nodes: NodeMap, id: NodeId, n: nat) -> Option<NodeId>
    decreases n,
{
    if !nodes.contains_key(id) {
        None
    } else if n == 0 {
        Some(id)
    } else {
        match nodes[id].parent {
            None => None,
            Some(p) => climb(nodes, p, (n - 1) as nat),
        }
    }
}

/// Whether climbing from `id` comes to an end within `n` steps: at a node without a
/// parent, or at an id that is not there.
pub open spec fn climbs(nodes: NodeMap, id: NodeId, n: nat) -> bool
    decreases n,
{
    nodes.contains_key(id) && nodes[id].parent is Some ==> n > 0 && climbs(
        nodes,
        nodes[id].parent->0,
        (n - 1) as nat,
    )
}

/// Whether climbing from `id` comes to an end.
pub open spec fn climb_ends(nodes: NodeMap, id: NodeId) -> bool {
    exists|n: nat| climbs(nodes, id, n)
}

/// Whether every path down from `id` along the lists of children comes to an end
/// within `n` steps.
pub open spec fn descends(nodes: NodeMap, id: NodeId, n: nat) -> bool
    decreases n,
{
    nodes.contains_key(id) ==> forall|i: int|
        #![trigger nodes[id].children[i]]
        0 <= i < nodes[id].children.len() ==> n > 0 && descends(
            nodes,
            nodes[id].children[i].id,
            (n - 1) as nat,
        )
}

/// Whether every path down from `id` comes to an end.
pub open spec fn descent_ends(nodes: NodeMap, id: NodeId) -> bool {
    exists|n: nat| descends(nodes, id, n)
}

/// Whether `a` is `id` or a node above it.
pub open spec fn above(nodes: NodeMap, a: NodeId, id: NodeId) -> bool {
    exists|n: nat| climb(nodes, id, n) == Some(a)
}

/// Whether `k` is `id` or reached from it within `n` steps down the lists of
/// children.
pub open spec fn below_within(nodes: NodeMap, k: NodeId, id: NodeId, n: nat) -> bool
    decreases n,
{
    nodes.contains_key(id) && (k == id || (n > 0 && exists|i: int|
        0 <= i < nodes[id].children.len() && below_within(
            nodes,
            k,
            (#[trigger] nodes[id].children[i]).id,
            (n - 1) as nat,
        )))
}

/// Whether `k` belongs to the subtree of `id`.
pub open spec fn below(nodes: NodeMap, k: NodeId, id: NodeId) -> bool {
    exists|n: nat| below_within(nodes, k, id, n)
}

/// Whether the parent links and the lists of children describe one forest, with
/// `roots` naming some of its tops:
///
/// - climbing and descending come to an end everywhere;
/// - a node that lists a child is that child's parent;
/// - a node's parent is there and lists the node;
/// - the roots have no parent;
/// - no list names a node twice.
pub open spec fn forest(nodes: NodeMap, roots: Seq<Handle>) -> bool {
    &&& forall|id: NodeId| #[trigger] climb_ends(nodes, id)
    &&& forall|id: NodeId| #[trigger] descent_ends(nodes, id)
    &&& child_links(nodes)
    &&& parent_links(nodes)
    &&& root_links(nodes, roots)
    &&& distinct(roots)
    &&& forall|id: NodeId| #[trigger] nodes.contains_key(id) ==> distinct(nodes[id].children)
}

/// Whether no two of the handles are for the same resource.
pub open spec fn distinct(handles: Seq<Handle>) -> bool {
    forall|i: int, j: int|
        #![trigger handles[i], handles[j]]
        0 <= i < j < handles.len() ==> handles[i].id != handles[j].id
}

/// A node that lists a child is that child's parent.
pub open spec fn child_links(nodes: NodeMap) -> bool {
    forall|p: NodeId, c: NodeId|
        nodes.contains_key(p) && nodes.contains_key(c) && #[trigger] lists_id(nodes[p].children, c)
            ==> nodes[c].parent == Some(p)
}

/// A node's parent is there and lists the node.
pub open spec fn parent_links(nodes: NodeMap) -> bool {
    forall|c: NodeId|
        #[trigger] nodes.contains_key(c) && nodes[c].parent is Some ==> nodes.contains_key(
            nodes[c].parent->0,
        ) && lists_id(nodes[nodes[c].parent->0].children, c)
}

/// The roots have no parent.
pub open spec fn root_links(nodes: NodeMap, roots: Seq<Handle>) -> bool {
    forall|r: NodeId|
        nodes.contains_key(r) && #[trigger] lists_id(roots, r) ==> nodes[r].parent is None
}

impl SceneModel {
    /// Whether the node links form a forest.
    pub open spec fn tree(self) -> bool {
        forest(self.nodes, self.roots)
    }

    /// Whether climbing from every node that carries a light comes to an end.
    pub open spec fn lights_climb_out(self) -> bool {
        forall|id: NodeId| #[trigger]
            self.nodes.contains_key(id) && self.light_of(id) is Some ==> climb_ends(
                self.nodes,
                id,
            )
    }

    /// Whether the node is there and its subtree hangs off the scene roots.
    pub open spec fn attached(self, id: NodeId) -> bool {
        exists|r: NodeId| #[trigger]
            above(self.nodes, r, id) && self.nodes[r].parent is None && lists_id(self.roots, r)
    }

    /// The light that a node carries.
    pub open spec fn light_of(self, id: NodeId) -> Option<Light> {
        match self.nodes[id].payload {
            NodePayload::Light(light) => Some(light),
            _ => None,
        }
    }

    /// The attached nodes that carry a light.
    pub open spec fn lit_nodes(self) -> Set<NodeId> {
        self.nodes.dom().filter(|id: NodeId| self.light_of(id) is Some && self.attached(id))
    }
}

/// A scene without nodes is a forest.
pub proof fn lemma_empty_forest()
    ensures
        forest(Map::empty(), Seq::empty()),
{
    let nodes: NodeMap = Map::empty();
    assert forall|id: NodeId| #[trigger] climb_ends(nodes, id) by {
        assert(climbs(nodes, id, 0));
    }
    assert forall|id: NodeId| #[trigger] descent_ends(nodes, id) by {
        assert(descends(nodes, id, 0));
    }
}

/// A climb that ends within some number of steps ends within more.
pub proof fn lemma_climbs_more(nodes: NodeMap, id: NodeId, n: nat, more: nat)
    requires
        climbs(nodes, id, n),
        n <= more,
    ensures
        climbs(nodes, id, more),
    decreases n,
{
    if nodes.contains_key(id) && nodes[id].parent is Some {
        lemma_climbs_more(nodes, nodes[id].parent->0, (n - 1) as nat, (more - 1) as nat);
    }
}

/// A descent that ends within some number of steps ends within more.
pub proof fn lemma_descends_more(nodes: NodeMap, id: NodeId, n: nat, more: nat)
    requires
        descends(nodes, id, n),
        n <= more,
    ensures
        descends(nodes, id, more),
    decreases n,
{
    if nodes.contains_key(id) {
        assert forall|i: int|
            #![trigger nodes[id].children[i]]
            0 <= i < nodes[id].children.len() implies more > 0 && descends(
            nodes,
            nodes[id].children[i].id,
            (more - 1) as nat,
        ) by {
            lemma_descends_more(
                nodes,
                nodes[id].children[i].id,
                (n - 1) as nat,
                (more - 1) as nat,
            );
        }
    }
}

/// What is above a node's parent is above the node, and the other way round but for
/// the node itself.
pub proof fn lemma_above_step(nodes: NodeMap, a: NodeId, id: NodeId)
    requires
        nodes.contains_key(id),
    ensures
        above(nodes, a, id) <==> a == id || (nodes[id].parent is Some && above(
            nodes,
            a,
            nodes[id].parent->0,
        )),
{
    if above(nodes, a, id) && a != id {
        let n = choose|n: nat| climb(nodes, id, n) == Some(a);
        assert(n > 0);
        assert(climb(nodes, nodes[id].parent->0, (n - 1) as nat) == Some(a));
    }
    if a == id {
        assert(climb(nodes, id, 0) == Some(a));
    }
    if nodes[id].parent is Some && above(nodes, a, nodes[id].parent->0) {
        let n = choose|n: nat| climb(nodes, nodes[id].parent->0, n) == Some(a);
        assert(climb(nodes, id, n + 1) == Some(a));
    }
}

/// What a climb reaches is there.
pub proof fn lemma_above_present(nodes: NodeMap, a: NodeId, id: NodeId)
    requires
        above(nodes, a, id),
    ensures
        nodes.contains_key(a),
        nodes.contains_key(id),
{
    let n = choose|n: nat| climb(nodes, id, n) == Some(a);
    lemma_climb_present(nodes, id, n);
}

proof fn lemma_climb_present(nodes: NodeMap, id: NodeId, n: nat)
    ensures
        climb(nodes, id, n) is Some ==> nodes.contains_key(climb(nodes, id, n)->0),
    decreases n,
{
    if nodes.contains_key(id) && n > 0 && nodes[id].parent is Some {
        lemma_climb_present(nodes, nodes[id].parent->0, (n - 1) as nat);
    }
}

impl SceneData {
    /// Returns true if the node exists and its subtree hangs off the scene roots (as
    /// opposed to being detached but kept alive by a handle).
    pub fn is_node_attached(&self, node_id: NodeId) -> (attached: bool)
        requires
            climb_ends(self@.nodes, node_id),
        ensures
            attached == self@.attached(node_id),
    {
        let mut current: u64 = node_id;
        let ghost mut left: nat = choose|n: nat| climbs(self@.nodes, node_id, n);
        loop
            invariant
                climbs(self@.nodes, current, left),
                self@.attached(current) == self@.attached(node_id),
            decreases left,
        {
            match self.nodes.get(current) {
                None => {
                    return false;
                },
                Some(node) => match node.parent {
                    Some(parent) => {
                        proof {
                            let here = current;
                            assert forall|r: NodeId|
                                self@.nodes[r].parent is None implies (above(
                                self@.nodes,
                                r,
                                here,
                            ) <==> above(self@.nodes, r, parent)) by {
                                lemma_above_step(self@.nodes, r, here);
                            }
                            assert(self@.attached(here) == self@.attached(parent));
                            left = (left - 1) as nat;
                        }
                        current = parent;
                    },
                    None => {
                        let found = lists(&self.root_nodes, current);
                        proof {
                            assert forall|r: NodeId| above(self@.nodes, r, current) <==> r
                                == current by {
                                lemma_above_step(self@.nodes, r, current);
                            }
                            assert(above(self@.nodes, current, current));
                        }
                        return found;
                    },
                },
            }
        }
    }

    /// Returns true if any attached node carries a light.
    pub fn has_light_nodes(&self) -> (yes: bool)
        requires
            self@.wf(),
            self@.lights_climb_out(),
        ensures
            yes == (self@.lit_nodes() != Set::<NodeId>::empty()),
    {
        let lights = self.light_nodes();
        proof {
            if lights.len() > 0 {
                assert(lights@.map_values(|l: (NodeId, Light)| l.0)[0] == lights@[0].0);
                assert(self@.lit_nodes().contains(lights@[0].0));
            } else {
                assert(lights@.map_values(|l: (NodeId, Light)| l.0) =~= Seq::<NodeId>::empty());
                assert(Seq::<NodeId>::empty().to_set() =~= Set::<NodeId>::empty());
            }
        }
        lights.len() > 0
    }

    /// Returns the number of attached nodes that carry a light.
    pub fn light_count(&self) -> (n: usize)
        requires
            self@.wf(),
            self@.lights_climb_out(),
        ensures
            n == self@.lit_nodes().len(),
    {
        let lights = self.light_nodes();
        proof {
            let ids = lights@.map_values(|l: (NodeId, Light)| l.0);
            ids.unique_seq_to_set();
        }
        lights.len()
    }

    /// Collects every light in the scene with the attached node carrying it, each
    /// once, in no particular order.
    pub fn light_nodes(&self) -> (lights: Vec<(NodeId, Light)>)
        requires
            self@.wf(),
            self@.lights_climb_out(),
        ensures
            lights@.map_values(|l: (NodeId, Light)| l.0).no_duplicates(),
            lights@.map_values(|l: (NodeId, Light)| l.0).to_set() == self@.lit_nodes(),
            forall|i: int|
                0 <= i < lights.len() ==> self@.light_of((#[trigger] lights@[i]).0) == Some(
                    lights@[i].1,
                ),
    {
        let ids = self.nodes.keys();
        let mut lights: Vec<(NodeId, Light)> = Vec::new();
        let mut i: usize = 0;
        let ghost first = |l: (NodeId, Light)| l.0;
        while i < ids.len()
            invariant
                i <= ids.len(),
                self@.lights_climb_out(),
                ids@.no_duplicates(),
                forall|id: u64| #[trigger] ids@.contains(id) <==> self@.nodes.contains_key(id),
                forall|j: int|
                    0 <= j < lights.len() ==> self@.light_of((#[trigger] lights@[j]).0) == Some(
                        lights@[j].1,
                    ) && self@.lit_nodes().contains(lights@[j].0) && ids@.take(
                        i as int,
                    ).contains(lights@[j].0),
                forall|j: int, k: int|
                    0 <= j < k < lights.len() ==> (#[trigger] lights@[j]).0 != (
                    #[trigger] lights@[k]).0,
                forall|j: int|
                    0 <= j < i && self@.lit_nodes().contains(#[trigger] ids@[j]) ==> exists|k: int|
                        0 <= k < lights.len() && (#[trigger] lights@[k]).0 == ids@[j],
            decreases ids.len() - i,
        {
            let id: u64 = ids[i];
            let ghost before = lights@;
            proof {
                assert(ids@.contains(id));
                assert(self@.nodes.contains_key(id));
                assert(ids@.take(i + 1) =~= ids@.take(i as int).push(id));
                assert forall|x: u64| ids@.take(i as int).contains(x) implies ids@.take(
                    i + 1,
                ).contains(x) && x != id by {
                    let j = choose|j: int| 0 <= j < i && ids@.take(i as int)[j] == x;
                    assert(ids@.take(i + 1)[j] == x);
                    assert(ids@[j] != ids@[i as int]);
                }
                assert(ids@.take(i + 1)[i as int] == id);
            }
            if let Some(node) = self.nodes.get(id) {
                if let NodePayload::Light(light) = &node.payload {
                    if self.is_node_attached(id) {
                        lights.push((id, *light));
                    }
                }
            }
            proof {
                assert forall|j: int|
                    0 <= j < i + 1 && self@.lit_nodes().contains(
                        #[trigger] ids@[j],
                    ) implies exists|k: int|
                    0 <= k < lights.len() && (#[trigger] lights@[k]).0 == ids@[j] by {
                    if j < i {
                        let k = choose|k: int|
                            0 <= k < before.len() && (#[trigger] before[k]).0 == ids@[j];
                        assert(lights@[k] == before[k]);
                    } else {
                        assert(lights@[lights.len() - 1].0 == id);
                    }
                }
            }
            i = i + 1;
        }
        proof {
            let firsts = lights@.map_values(first);
            assert forall|id: NodeId| firsts.to_set().contains(id) <==> self@.lit_nodes().contains(
                id,
            ) by {
                if firsts.contains(id) {
                    let k = choose|k: int| 0 <= k < firsts.len() && firsts[k] == id;
                    assert(lights@[k].0 == id);
                }
                if self@.lit_nodes().contains(id) {
                    assert(ids@.contains(id));
                    let j = choose|j: int| 0 <= j < ids.len() && ids@[j] == id;
                    let k = choose|k: int|
                        0 <= k < lights.len() && (#[trigger] lights@[k]).0 == ids@[j];
                    assert(firsts[k] == id);
                }
            }
            assert(firsts.to_set() =~= self@.lit_nodes());
            assert forall|j: int, k: int| 0 <= j < k < firsts.len() implies firsts[j]
                != firsts[k] by {
                assert(lights@[j].0 != lights@[k].0);
            }
        }
        lights
    }
}

/// Whether some handle of `handles` is for `id`.
pub(super) fn lists(handles: &Vec<Handle>, id: u64) -> (found: bool)
    ensures
        found == lists_id(handles@, id),
{
    let mut i: usize = 0;
    while i < handles.len()
        invariant
            i <= handles.len(),
            forall|j: int| 0 <= j < i ==> (#[trigger] handles@[j]).id != id,
        decreases handles.len() - i,
    {
        if handles[i].id == id {
            assert(handles@[i as int].id == id);
            return true;
        }
        i = i + 1;
    }
    false
}

} // verus!
