//! World transforms of nodes.

use super::forest::same_shape;
use super::node_laws::{attributes_keep_sound, only_attributes};
use super::nodes::{ancestors, lemma_climb_next, lemma_climb_stops};
use super::tree::{above, climb, climb_ends, climbs, lemma_above_present, NodeMap};
use super::SceneData;
use crate::common::{identity_matrix, Matrix4, Transform};
use crate::numeric::{apply2, definite2, value2};
use crate::resource::handle::NodeId;
use crate::resource::node::NodeModel;
use vstd::prelude::*;

verus! {

/// Composes a world transform with a local one.
pub type Compose = spec_fn(Matrix4, Transform) -> Matrix4;

/// Whether the node and all nodes above it, up to one without a parent, are there.
pub open spec fn rooted(nodes: NodeMap, id: NodeId) -> bool {
    exists|r: NodeId| #[trigger] above(nodes, r, id) && nodes[r].parent is None
}

/// The world transform of a node, looking at most `n` steps up: what is cached, or
/// the world transform of the parent composed with the local transform.
pub open spec fn world_within(nodes: NodeMap, id: NodeId, n: nat, compose: Compose) -> Matrix4
    decreases n,
{
    if !nodes.contains_key(id) {
        identity_matrix()
    } else if nodes[id].world_cache is Some {
        nodes[id].world_cache->0
    } else {
        match nodes[id].parent {
            Some(p) if n > 0 => compose(
                world_within(nodes, p, (n - 1) as nat, compose),
                nodes[id].transform,
            ),
            _ => compose(identity_matrix(), nodes[id].transform),
        }
    }
}

/// How many steps up there are from a node.
pub open spec fn height_above(nodes: NodeMap, id: NodeId) -> nat {
    choose|n: nat| climbs(nodes, id, n)
}

/// The world transform of a node, provided the nodes above it are there.
pub open spec fn world(nodes: NodeMap, id: NodeId, compose: Compose) -> Matrix4 {
    world_within(nodes, id, height_above(nodes, id), compose)
}

/// The world transform of a node: what is cached, or else computed, provided the
/// nodes above it are there.
pub open spec fn transform_of(nodes: NodeMap, id: NodeId, compose: Compose) -> Option<Matrix4> {
    if !nodes.contains_key(id) {
        None
    } else if nodes[id].world_cache is Some || rooted(nodes, id) {
        Some(world(nodes, id, compose))
    } else {
        None
    }
}

/// The nodes after the world transform of `id` was asked for: unless it was cached
/// or cannot be computed, it is now cached for the node and all nodes above it.
pub open spec fn warmed(nodes: NodeMap, id: NodeId, compose: Compose) -> NodeMap {
    if nodes.contains_key(id) && nodes[id].world_cache is None && rooted(nodes, id) {
        nodes.map_entries(
            |k: NodeId, n: NodeModel|
                if above(nodes, k, id) {
                    NodeModel { world_cache: Some(world(nodes, k, compose)), ..n }
                } else {
                    n
                },
        )
    } else {
        nodes
    }
}

proof fn lemma_world_fuel(nodes: NodeMap, id: NodeId, n: nat, k: nat, compose: Compose)
    requires
        climbs(nodes, id, n),
        climbs(nodes, id, k),
    ensures
        world_within(nodes, id, n, compose) == world_within(nodes, id, k, compose),
    decreases n,
{
    if nodes.contains_key(id) && nodes[id].parent is Some {
        lemma_world_fuel(
            nodes,
            nodes[id].parent->0,
            (n - 1) as nat,
            (k - 1) as nat,
            compose,
        );
    }
}

pub proof fn lemma_world_height(nodes: NodeMap, id: NodeId, n: nat, compose: Compose)
    requires
        climbs(nodes, id, n),
    ensures
        world(nodes, id, compose) == world_within(nodes, id, n, compose),
{
    lemma_world_fuel(nodes, id, height_above(nodes, id), n, compose);
}

/// The world transform of a node in terms of its parent's.
pub proof fn world_from_parent(nodes: NodeMap, id: NodeId, compose: Compose)
    requires
        climb_ends(nodes, id),
        nodes.contains_key(id),
        nodes[id].world_cache is None,
    ensures
        world(nodes, id, compose) == compose(
            match nodes[id].parent {
                Some(p) => world(nodes, p, compose),
                None => identity_matrix(),
            },
            nodes[id].transform,
        ),
        nodes[id].parent matches Some(p) ==> climb_ends(nodes, p),
{
    let n = height_above(nodes, id);
    if let Some(p) = nodes[id].parent {
        assert(climbs(nodes, p, (n - 1) as nat));
        lemma_world_height(nodes, p, (n - 1) as nat, compose);
    }
}

/// Whether `b` is `a` with the world transform of some nodes cached.
pub open spec fn world_filled(a: NodeMap, b: NodeMap, compose: Compose) -> bool {
    &&& a.dom() == b.dom()
    &&& forall|k: NodeId| #[trigger]
        a.contains_key(k) ==> b[k] == a[k] || (a[k].world_cache is None && rooted(a, k)
            && climb_ends(a, k) && b[k] == (NodeModel {
            world_cache: Some(world(a, k, compose)),
            ..a[k]
        }))
}

/// What lies on the way up from a rooted node is rooted.
pub proof fn lemma_rooted_above(nodes: NodeMap, k: NodeId, id: NodeId, n: nat)
    requires
        rooted(nodes, id),
        climb_ends(nodes, id),
        climb(nodes, id, n) == Some(k),
    ensures
        rooted(nodes, k),
        climb_ends(nodes, k),
    decreases n,
{
    let r = choose|r: NodeId| #[trigger] above(nodes, r, id) && nodes[r].parent is None;
    let j = choose|j: nat| climb(nodes, id, j) == Some(r);
    if n > 0 {
        let p = nodes[id].parent->0;
        assert(j > 0);
        assert(climb(nodes, p, (j - 1) as nat) == Some(r));
        assert(above(nodes, r, p));
        let h = height_above(nodes, id);
        assert(climbs(nodes, p, (h - 1) as nat));
        lemma_rooted_above(nodes, k, p, (n - 1) as nat);
    }
}

/// Asking for a transform fills in caches.
pub proof fn lemma_warmed_filled(nodes: NodeMap, id: NodeId, compose: Compose)
    requires
        climb_ends(nodes, id),
    ensures
        world_filled(nodes, warmed(nodes, id, compose), compose),
{
    let after = warmed(nodes, id, compose);
    assert(after.dom() =~= nodes.dom());
    if nodes.contains_key(id) && nodes[id].world_cache is None && rooted(nodes, id) {
        assert forall|k: NodeId| #[trigger] nodes.contains_key(k) implies after[k] == nodes[k] || (
        nodes[k].world_cache is None && rooted(nodes, k) && climb_ends(nodes, k) && after[k] == (
        NodeModel { world_cache: Some(world(nodes, k, compose)), ..nodes[k] })) by {
            if above(nodes, k, id) {
                let n = choose|n: nat| climb(nodes, id, n) == Some(k);
                lemma_rooted_above(nodes, k, id, n);
            }
        }
    }
}

impl SceneData {
    /// Gets the world transform of a node.
    ///
    /// This returns the cached transform if valid, otherwise computes it by walking
    /// from the root to the node, computing and caching transforms along the way.
    ///
    /// Returns `None` if the node itself or any ancestor is missing from the scene,
    /// as happens while a scene is still being built up.
    pub fn nodes_transform<F: Fn(Matrix4, Transform) -> Matrix4>(
        &mut self,
        id: NodeId,
        compose: &F,
    ) -> (found: Option<Matrix4>)
        requires
            climb_ends(old(self)@.nodes, id),
            definite2(*compose),
        ensures
            found == transform_of(old(self)@.nodes, id, value2(*compose)),
            final(self)@ == old(self)@.with_nodes(
                warmed(old(self)@.nodes, id, value2(*compose)),
            ),
            old(self)@.sound() ==> final(self)@.sound(),
    {
        let ghost m = self@;
        let ghost g = value2(*compose);
        match self.nodes.get(id) {
            None => {
                return None;
            },
            Some(node) => {
                if let Some(cached) = node.world_cache {
                    return Some(cached);
                }
            },
        }
        let path = self.ancestor_ids(id);
        proof {
            lemma_path(m.nodes, id, path@);
        }
        let top: NodeId = path[path.len() - 1];
        let reaches = match self.nodes.get(top) {
            Some(node) => node.parent.is_none(),
            None => false,
        };
        if !reaches {
            return None;
        }
        let mut transform = Matrix4::identity();
        let mut left: usize = path.len();
        while left > 0
            invariant
                left <= path.len(),
                path.len() > 0,
                definite2(*compose),
                g == value2(*compose),
                climb_ends(m.nodes, id),
                rooted(m.nodes, id),
                path_of(m.nodes, id, path@),
                m.nodes[path@[path.len() - 1]].parent is None,
                self@ == m.with_nodes(self@.nodes),
                filled_from(m.nodes, self@.nodes, path@, left as int, g),
                transform == (if left < path.len() {
                    world(m.nodes, path@[left as int], g)
                } else {
                    identity_matrix()
                }),
            decreases left,
        {
            left = left - 1;
            let k: NodeId = path[left];
            let ghost before = self@;
            proof {
                lemma_path_step(m.nodes, id, path@, left as int);
                assert(before.nodes.contains_key(k));
                lemma_rooted_above(m.nodes, k, id, left as nat);
                if m.nodes[k].world_cache is None {
                    world_from_parent(m.nodes, k, g);
                }
            }
            let (cached, local) = match self.nodes.get(k) {
                Some(node) => (node.world_cache, node.transform),
                None => {
                    return None;
                },
            };
            match cached {
                Some(value) => {
                    transform = value;
                },
                None => {
                    transform = apply2(compose, transform, local);
                    if let Some(node) = self.nodes.get_mut(k) {
                        node.world_cache = Some(transform);
                    }
                },
            }
            proof {
                assert(self@.nodes =~= before.nodes.insert(
                    k,
                    NodeModel { world_cache: Some(transform), ..before.nodes[k] },
                ));
                assert(transform == world(m.nodes, k, g));
                assert(self@.nodes.dom() =~= m.nodes.dom());
                assert(filled_from(m.nodes, self@.nodes, path@, left as int, g)) by {
                    assert forall|x: NodeId| #[trigger] m.nodes.contains_key(x) implies
                        self@.nodes[x] == (if path@.skip(left as int).contains(x) {
                        NodeModel { world_cache: Some(world(m.nodes, x, g)), ..m.nodes[x] }
                    } else {
                        m.nodes[x]
                    }) by {
                        lemma_skip_contains(path@, left as int, x);
                    }
                }
            }
        }
        proof {
            assert(path@[0] == id) by {
                assert(climb(m.nodes, id, 0) == Some(id));
            }
            assert(self@.nodes =~= warmed(m.nodes, id, g)) by {
                assert(self@.nodes.dom() =~= warmed(m.nodes, id, g).dom());
                assert(path@.skip(0) =~= path@);
                assert forall|x: NodeId| #[trigger] m.nodes.contains_key(x) implies self@.nodes[x]
                    == warmed(m.nodes, id, g)[x] by {
                    assert(path@.to_set().contains(x) <==> path@.contains(x));
                    assert(ancestors(m.nodes, id).contains(x) <==> above(m.nodes, x, id));
                }
            }
            if m.sound() {
                lemma_warmed_filled(m.nodes, id, g);
                assert(same_shape(m.nodes, self@.nodes));
                assert(only_attributes(m, self@));
                attributes_keep_sound(m, self@);
            }
        }
        Some(transform)
    }
}

impl SceneData {
    /// Caches the world transform of a node.
    pub(crate) fn set_world_cache(&mut self, id: NodeId, transform: Matrix4)
        requires
            old(self)@.nodes.contains_key(id),
        ensures
            final(self)@ == old(self)@.with_nodes(
                old(self)@.nodes.insert(
                    id,
                    NodeModel { world_cache: Some(transform), ..old(self)@.nodes[id] },
                ),
            ),
    {
        let ghost m = self@;
        if let Some(node) = self.nodes.get_mut(id) {
            node.world_cache = Some(transform);
        }
        proof {
            assert(self@.nodes =~= m.nodes.insert(
                id,
                NodeModel { world_cache: Some(transform), ..m.nodes[id] },
            ));
        }
    }
}

/// Whether `path` lists the node and the nodes above it, nearest first.
spec fn path_of(nodes: NodeMap, id: NodeId, path: Seq<NodeId>) -> bool {
    &&& path.to_set() == ancestors(nodes, id)
    &&& forall|i: int| 0 <= i < path.len() ==> climb(nodes, id, i as nat) == Some(#[trigger] path[i])
    &&& climb(nodes, id, path.len()) is None
}

/// Whether exactly the nodes of the path from position `from` on have their world
/// transform cached in addition.
spec fn filled_from(
    a: NodeMap,
    b: NodeMap,
    path: Seq<NodeId>,
    from: int,
    compose: Compose,
) -> bool {
    &&& a.dom() == b.dom()
    &&& forall|k: NodeId| #[trigger]
        a.contains_key(k) ==> b[k] == (if path.skip(from).contains(k) {
            NodeModel { world_cache: Some(world(a, k, compose)), ..a[k] }
        } else {
            a[k]
        })
}

proof fn lemma_skip_contains(path: Seq<NodeId>, from: int, x: NodeId)
    requires
        0 <= from < path.len(),
    ensures
        path.skip(from).contains(x) <==> x == path[from] || path.skip(from + 1).contains(x),
{
    let a = path.skip(from);
    let b = path.skip(from + 1);
    if a.contains(x) {
        let i = choose|i: int| 0 <= i < a.len() && a[i] == x;
        if i > 0 {
            assert(b[i - 1] == x);
        }
    }
    if b.contains(x) {
        let i = choose|i: int| 0 <= i < b.len() && b[i] == x;
        assert(a[i + 1] == x);
    }
    if x == path[from] {
        assert(a[0] == x);
    }
}

/// What the path up from a node says about the nodes above it.
proof fn lemma_path(nodes: NodeMap, id: NodeId, path: Seq<NodeId>)
    requires
        nodes.contains_key(id),
        path_of(nodes, id, path),
    ensures
        path.len() > 0,
        nodes.contains_key(path.last()),
        rooted(nodes, id) <==> nodes[path.last()].parent is None,
{
    assert(climb(nodes, id, 0) == Some(id));
    if path.len() == 0 {
        assert(climb(nodes, id, path.len()) is None);
    }
    let top = path.last();
    assert(climb(nodes, id, (path.len() - 1) as nat) == Some(top));
    assert(above(nodes, top, id));
    lemma_above_present(nodes, top, id);
    if rooted(nodes, id) {
        let r = choose|r: NodeId| #[trigger] above(nodes, r, id) && nodes[r].parent is None;
        let j = choose|j: nat| climb(nodes, id, j) == Some(r);
        if j >= path.len() {
            lemma_climb_stops(nodes, id, path.len(), j);
        }
        lemma_climb_next(nodes, id, j);
        if j + 1 < path.len() {
            assert(path[j as int + 1] == path[(j + 1) as int]);
            assert(climb(nodes, id, (j + 1) as nat) is None);
            assert(climb(nodes, id, (j + 1) as nat) == Some(path[(j + 1) as int]));
        }
    }
}

/// A node on the path is there, and its parent is next.
proof fn lemma_path_step(nodes: NodeMap, id: NodeId, path: Seq<NodeId>, i: int)
    requires
        path_of(nodes, id, path),
        0 <= i < path.len(),
        nodes[path.last()].parent is None,
    ensures
        nodes.contains_key(path[i]),
        nodes[path[i]].parent == (if i + 1 < path.len() {
            Some(path[i + 1])
        } else {
            None::<NodeId>
        }),
        above(nodes, path[i], id),
{
    assert(climb(nodes, id, i as nat) == Some(path[i]));
    assert(above(nodes, path[i], id));
    lemma_above_present(nodes, path[i], id);
    if i + 1 < path.len() {
        lemma_climb_next(nodes, id, i as nat);
        assert(climb(nodes, id, (i + 1) as nat) == Some(path[i + 1]));
    }
}

} // verus!
