//! Every change to the node tree moves the node generation.
//!
//! Whoever mirrors the tree remembers the last generation that it saw. As long as the
//! generation stays, so does the tree, but for what is cached in it; queries fill caches
//! and leave the generation alone.

use super::bounds::{geometry_filled, node_filled, Geometry};
use super::laws::lemma_reap_one_effect;
use super::model::{lemma_reap_one_bound, SceneModel};
use super::nodes::lemma_detach_wf;
use super::tree::NodeMap;
use super::visibility::visibility_filled;
use crate::common::Transform;
use crate::resource::display::DisplayBehavior;
use crate::resource::handle::{GenericId, NodeId, ResourceKind};
use crate::resource::instance::InstanceParts;
use crate::resource::node::{NodeFlags, NodeModel, NodePayload, Visibility};
use vstd::prelude::*;

verus! {

/// Whether two scenes have the same node tree, but for what is cached in it.
pub open spec fn same_tree(a: SceneModel, b: SceneModel) -> bool {
    &&& a.roots == b.roots
    &&& a.nodes.dom() == b.nodes.dom()
    &&& forall|k: NodeId| #[trigger]
        a.nodes.contains_key(k) ==> a.nodes[k].authored() == b.nodes[k].authored()
}

/// Whether a step between two scenes can be told from the node generation: that never
/// goes back, and where it stays, the tree does.
pub open spec fn noticed(a: SceneModel, b: SceneModel) -> bool {
    &&& a.node_generation <= b.node_generation
    &&& a.node_generation == b.node_generation ==> same_tree(a, b)
}

/// Steps that can each be told from the generation can be told together.
pub proof fn noticed_steps_compose(a: SceneModel, b: SceneModel, c: SceneModel)
    requires
        noticed(a, b),
        noticed(b, c),
    ensures
        noticed(a, c),
{
    if a.node_generation == c.node_generation {
        assert forall|k: NodeId| #[trigger] a.nodes.contains_key(k) implies a.nodes[k].authored()
            == c.nodes[k].authored() by {
            assert(b.nodes.contains_key(k));
        }
    }
}

/// A new scene has seen a change already, so whoever remembers nothing yet, or zero,
/// finds one.
pub proof fn generations_start_above_zero()
    ensures
        SceneModel::empty().node_generation > 0,
{
}

/// Setting anything of a node can be told from the generation; and where the node is
/// there, the generation moves.
pub proof fn node_edits_are_noticed(
    m: SceneModel,
    id: NodeId,
    transform: Transform,
    flags: NodeFlags,
    visibility: Visibility,
    payload: NodePayload,
    display: DisplayBehavior,
    name: Option<Seq<char>>,
)
    requires
        m.node_generation < u64::MAX,
    ensures
        noticed(m, m.set_node_transform(id, transform)),
        noticed(m, m.set_node_flags(id, flags)),
        noticed(m, m.set_node_visibility(id, visibility)),
        noticed(m, m.set_node_payload(id, payload)),
        m.nodes.contains_key(id) ==> {
            &&& noticed(m, m.with_node(id, NodeModel { display, ..m.nodes[id] }).bumped())
            &&& noticed(m, m.with_node(id, NodeModel { name, ..m.nodes[id] }).bumped())
            &&& m.node_generation < m.set_node_transform(id, transform).node_generation
            &&& m.node_generation < m.set_node_flags(id, flags).node_generation
            &&& m.node_generation < m.set_node_visibility(id, visibility).node_generation
            &&& m.node_generation < m.set_node_payload(id, payload).node_generation
        },
{
}

/// Adding a node, and moving one, moves the generation.
pub proof fn placing_nodes_is_noticed(
    m: SceneModel,
    id: NodeId,
    parent: Option<NodeId>,
    node: NodeModel,
    instance: InstanceParts,
    name: Option<Seq<char>>,
    transform: Transform,
    flags: NodeFlags,
)
    requires
        m.node_generation < u64::MAX,
    ensures
        m.node_generation < m.add_node(id, parent, name, transform, flags).node_generation,
        m.node_generation < m.add_instance_node(
            id,
            parent,
            instance,
            name,
            transform,
            flags,
        ).node_generation,
        m.node_generation < m.insert_node(node).node_generation,
        m.node_generation < m.reparent_node(id, parent).node_generation,
        m.node_generation < m.clear().node_generation,
{
}

/// Removing a resource by its id can be told from the generation where it is a node, and
/// changes no node where it is not.
pub proof fn removing_resources_is_noticed(m: SceneModel, kind: ResourceKind, id: GenericId)
    requires
        m.node_generation < u64::MAX,
    ensures
        noticed(m, m.remove_resource(kind, id)),
        m.present(ResourceKind::Node, id) ==> m.node_generation < m.remove_resource(
            ResourceKind::Node,
            id,
        ).node_generation,
{
}

/// Reaping can be told from the generation: it moves when a node goes.
pub proof fn reaping_is_noticed(m: SceneModel)
    requires
        m.wf(),
        m.node_generation + m.nodes.dom().len() <= u64::MAX,
    ensures
        noticed(m, m.reaped()),
    decreases m.ledger.drain_bound(),
{
    if m.ledger.dropped.len() > 0 {
        let entry = m.ledger.dropped[0];
        lemma_reap_one_bound(m);
        lemma_reap_one_effect(m);
        if entry.0 == ResourceKind::Node && m.nodes.contains_key(entry.1) {
            assert(m.nodes.dom().contains(entry.1));
            assert(m.nodes.dom().len() > 0);
        }
        assert(noticed(m, m.reap_one()));
        reaping_is_noticed(m.reap_one());
        noticed_steps_compose(m, m.reap_one(), m.reaped());
    }
}

/// Detaching a node that is there moves the generation.
pub proof fn removing_nodes_is_noticed(m: SceneModel, id: NodeId)
    requires
        m.wf(),
        m.tree(),
        m.node_generation + 1 + m.nodes.dom().len() <= u64::MAX,
    ensures
        noticed(m, m.remove_node(id)),
        m.nodes.contains_key(id) ==> m.node_generation < m.remove_node(id).node_generation,
{
    if m.nodes.contains_key(id) {
        lemma_detach_wf(m, id);
        let cut = m.detach(id);
        let freed = cut.with_ledger(cut.ledger.release_opt(m.tree_handle(id))).bumped();
        assert(freed.wf());
        reaping_is_noticed(freed);
    }
}

/// Queries leave the tree and the generation as they are.
pub proof fn queries_leave_the_tree(m: SceneModel, filled: NodeMap, geo: Geometry)
    ensures
        geometry_filled(m, filled, geo) ==> same_tree(m, m.with_nodes(filled)),
        visibility_filled(m.nodes, filled) ==> same_tree(m, m.with_nodes(filled)),
{
    if geometry_filled(m, filled, geo) {
        assert forall|k: NodeId| #[trigger] m.nodes.contains_key(k) implies m.nodes[k].authored()
            == filled[k].authored() by {
            assert(node_filled(m, filled, k, geo));
        }
    }
}

} // verus!
