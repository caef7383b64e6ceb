//! The stable graph that holds nodes and edges, and what is taken on trust
//! about it.
//!
//! Nodes and edges lie in slots that are numbered from zero; the number of a
//! slot is the handle of what lies in it. Removing an edge vacates its slot
//! and leaves every other handle as it was. The functions with a body that
//! Verus does not read are the only places where the graph is touched; each
//! says which method it calls and what it claims of it.

use vstd::prelude::*;
use petgraph::stable_graph::{EdgeIndex, NodeIndex, StableGraph};
use petgraph::{Directed, Direction};
use super::node::{GraphEdge, GraphNode, Link};

verus! {

/// `petgraph::stable_graph::StableGraph`, as a type whose inside Verus does
/// not see.
#[verifier::external_type_specification]
#[verifier::external_body]
#[verifier::reject_recursive_types(N)]
#[verifier::reject_recursive_types(E)]
#[verifier::reject_recursive_types(Ty)]
#[verifier::reject_recursive_types(Ix)]
pub struct ExStableGraph<N, E, Ty, Ix>(StableGraph<N, E, Ty, Ix>);

/// `petgraph::Directed`, the marker of graphs with directed edges.
#[verifier::external_type_specification]
#[verifier::external_body]
pub struct ExDirected(Directed);

/// The graph type of this library: directed, with handles of 32 bits.
pub type Topology = StableGraph<GraphNode, GraphEdge, Directed, u32>;

/// The largest number of slots of either kind.
pub const MAX_SLOTS: usize = 0xFFFF_FFFF;

// ---------------------------------------------------------------------------
// The model
// ---------------------------------------------------------------------------

/// The node slots of a graph, by handle. A slot is vacant after a removal.
pub uninterp spec fn node_slots(g: Topology) -> Seq<Option<GraphNode>>;

/// The edge slots of a graph, by handle. A slot is vacant after a removal.
pub uninterp spec fn edge_slots(g: Topology) -> Seq<Option<Link>>;

/// The handles of the edges that leave the node `a`, in the order in which
/// the graph walks them. Empty where `a` is no node of the graph.
pub uninterp spec fn outgoing(g: Topology, a: usize) -> Seq<usize>;

/// What lies in slot `i`, if there is such a slot and it is occupied.
pub open spec fn slot<T>(slots: Seq<Option<T>>, i: usize) -> Option<T> {
    if i < slots.len() {
        slots[i as int]
    } else {
        None
    }
}

/// Whether every slot is occupied.
pub open spec fn full<T>(slots: Seq<Option<T>>) -> bool {
    forall|i: int| 0 <= i < slots.len() ==> (#[trigger] slots[i]) is Some
}

/// The handles of the occupied slots among the first `n`, in rising order.
pub open spec fn filled<T>(slots: Seq<Option<T>>, n: int) -> Seq<usize>
    decreases n,
{
    if n <= 0 {
        Seq::empty()
    } else if slots[n - 1] is Some {
        filled(slots, n - 1).push((n - 1) as usize)
    } else {
        filled(slots, n - 1)
    }
}

/// The slots with `value` placed in slot `i`: in that slot where there is
/// one, else in a new slot at the end.
pub open spec fn put<T>(slots: Seq<Option<T>>, i: usize, value: T) -> Seq<Option<T>> {
    if i < slots.len() {
        slots.update(i as int, Some(value))
    } else {
        slots.push(Some(value))
    }
}

/// The nodes at which the edges with the handles in `order` end.
pub open spec fn heads(slots: Seq<Option<Link>>, order: Seq<usize>) -> Seq<usize> {
    order.map_values(|e: usize| slot(slots, e)->0.target)
}

// ---------------------------------------------------------------------------
// Trusted: the methods of the stable graph
// ---------------------------------------------------------------------------

/// `StableGraph::new`: a graph without a slot of either kind.
#[verifier::external_body]
pub(crate) fn graph_new() -> (g: Topology)
    ensures
        node_slots(g).len() == 0,
        edge_slots(g).len() == 0,
        forall|a: usize| (#[trigger] outgoing(g, a)).len() == 0,
{
    StableGraph::new()
}

/// `StableGraph::add_node`, on a graph from which no node was removed: the
/// node goes into a new slot at the end, and no edge leaves it. The method
/// panics once the handles are used up, which the bound rules out.
#[verifier::external_body]
pub(crate) fn add_node(g: &mut Topology, node: GraphNode) -> (a: usize)
    requires
        full(node_slots(*old(g))),
        node_slots(*old(g)).len() < MAX_SLOTS,
    ensures
        a == node_slots(*old(g)).len(),
        node_slots(*final(g)) == node_slots(*old(g)).push(Some(node)),
        edge_slots(*final(g)) == edge_slots(*old(g)),
        forall|x: usize| #[trigger] outgoing(*final(g), x) == outgoing(*old(g), x),
{
    g.add_node(node).index()
}

/// `StableGraph::add_edge`: the edge goes into a vacant slot where there is
/// one, else into a new slot at the end, and is walked first among the edges
/// that leave `a`. The method panics where `a` or `b` is no node, and where
/// a new slot is needed once the handles are used up; the bounds rule both
/// out.
#[verifier::external_body]
pub(crate) fn add_edge(g: &mut Topology, a: usize, b: usize, edge: GraphEdge) -> (e: usize)
    requires
        slot(node_slots(*old(g)), a) is Some,
        slot(node_slots(*old(g)), b) is Some,
        a <= MAX_SLOTS,
        b <= MAX_SLOTS,
        edge_slots(*old(g)).len() < MAX_SLOTS || !full(edge_slots(*old(g))),
    ensures
        e <= edge_slots(*old(g)).len(),
        (e == edge_slots(*old(g)).len()) == full(edge_slots(*old(g))),
        slot(edge_slots(*old(g)), e) is None,
        edge_slots(*final(g)) == put(
            edge_slots(*old(g)),
            e,
            Link { source: a, target: b, edge },
        ),
        node_slots(*final(g)) == node_slots(*old(g)),
        outgoing(*final(g), a) == seq![e] + outgoing(*old(g), a),
        forall|x: usize| x != a ==> #[trigger] outgoing(*final(g), x) == outgoing(*old(g), x),
{
    g.add_edge(NodeIndex::new(a), NodeIndex::new(b), edge).index()
}

/// `StableGraph::remove_edge`: vacates the slot `e` and hands out what the
/// edge carried; the other edges that leave the same node keep their order.
/// Where the slot is vacant or missing, nothing changes.
#[verifier::external_body]
pub(crate) fn remove_edge(g: &mut Topology, e: usize) -> (removed: Option<GraphEdge>)
    requires
        e <= MAX_SLOTS,
    ensures
        node_slots(*final(g)) == node_slots(*old(g)),
        match slot(edge_slots(*old(g)), e) {
            Some(link) => {
                &&& removed == Some(link.edge)
                &&& edge_slots(*final(g)) == edge_slots(*old(g)).update(e as int, None)
                &&& outgoing(*final(g), link.source) == outgoing(*old(g), link.source).filter(
                    |x: usize| x != e,
                )
                &&& forall|x: usize|
                    x != link.source ==> #[trigger] outgoing(*final(g), x) == outgoing(*old(g), x)
            },
            None => {
                &&& removed is None
                &&& edge_slots(*final(g)) == edge_slots(*old(g))
                &&& forall|x: usize| #[trigger] outgoing(*final(g), x) == outgoing(*old(g), x)
            },
        },
{
    g.remove_edge(EdgeIndex::new(e))
}

/// `StableGraph::node_count`: the number of occupied node slots.
#[verifier::external_body]
pub(crate) fn node_count(g: &Topology) -> (count: usize)
    ensures
        count == filled(node_slots(*g), node_slots(*g).len() as int).len(),
{
    g.node_count()
}

/// `StableGraph::edge_count`: the number of occupied edge slots.
#[verifier::external_body]
pub(crate) fn edge_count(g: &Topology) -> (count: usize)
    ensures
        count == filled(edge_slots(*g), edge_slots(*g).len() as int).len(),
{
    g.edge_count()
}

/// `StableGraph::edge_indices`: the handles of the occupied edge slots, in
/// rising order.
#[verifier::external_body]
pub(crate) fn edge_indices(g: &Topology) -> (handles: Vec<usize>)
    ensures
        handles@ == filled(edge_slots(*g), edge_slots(*g).len() as int),
{
    g.edge_indices().map(|e| e.index()).collect()
}

/// `StableGraph::edge_endpoints`: the nodes at which the edge in slot `e`
/// starts and ends.
#[verifier::external_body]
pub(crate) fn edge_endpoints(g: &Topology, e: usize) -> (ends: Option<(usize, usize)>)
    requires
        e <= MAX_SLOTS,
    ensures
        ends == match slot(edge_slots(*g), e) {
            Some(link) => Some((link.source, link.target)),
            None => None,
        },
{
    match g.edge_endpoints(EdgeIndex::new(e)) {
        Some((a, b)) => Some((a.index(), b.index())),
        None => None,
    }
}

/// `StableGraph::edge_weight`: what the edge in slot `e` carries.
#[verifier::external_body]
pub(crate) fn edge_weight(g: &Topology, e: usize) -> (edge: Option<GraphEdge>)
    requires
        e <= MAX_SLOTS,
    ensures
        edge == match slot(edge_slots(*g), e) {
            Some(link) => Some(link.edge),
            None => None,
        },
{
    g.edge_weight(EdgeIndex::new(e)).copied()
}

/// `StableGraph::node_weight`: the node in slot `a`.
#[verifier::external_body]
pub(crate) fn node_weight(g: &Topology, a: usize) -> (node: Option<&GraphNode>)
    requires
        a <= MAX_SLOTS,
    ensures
        match node {
            Some(node) => slot(node_slots(*g), a) == Some(*node),
            None => slot(node_slots(*g), a) is None,
        },
{
    g.node_weight(NodeIndex::new(a))
}

/// `StableGraph::index_mut` by a node handle: the node in the occupied slot
/// `a`, to be changed in place. Nothing else changes. The method panics on a
/// vacant or missing slot, which the bound rules out.
#[verifier::external_body]
pub(crate) fn node_mut(g: &mut Topology, a: usize) -> (node: &mut GraphNode)
    requires
        slot(node_slots(*old(g)), a) is Some,
        a <= MAX_SLOTS,
    ensures
        Some(*node) == slot(node_slots(*old(g)), a),
        node_slots(*final(g)) == node_slots(*old(g)).update(a as int, Some(*final(node))),
        edge_slots(*final(g)) == edge_slots(*old(g)),
        forall|x: usize| #[trigger] outgoing(*final(g), x) == outgoing(*old(g), x),
{
    &mut g[NodeIndex::new(a)]
}

/// `StableGraph::index_mut` by an edge handle: what the edge in the occupied
/// slot `e` carries, to be changed in place. The edge stays between its
/// nodes and nothing else changes. The method panics on a vacant or missing
/// slot, which the bound rules out.
#[verifier::external_body]
pub(crate) fn edge_mut(g: &mut Topology, e: usize) -> (edge: &mut GraphEdge)
    requires
        slot(edge_slots(*old(g)), e) is Some,
        e <= MAX_SLOTS,
    ensures
        *edge == slot(edge_slots(*old(g)), e)->0.edge,
        edge_slots(*final(g)) == edge_slots(*old(g)).update(
            e as int,
            Some(
                Link {
                    source: slot(edge_slots(*old(g)), e)->0.source,
                    target: slot(edge_slots(*old(g)), e)->0.target,
                    edge: *final(edge),
                },
            ),
        ),
        node_slots(*final(g)) == node_slots(*old(g)),
        forall|x: usize| #[trigger] outgoing(*final(g), x) == outgoing(*old(g), x),
{
    &mut g[EdgeIndex::new(e)]
}

/// `StableGraph::neighbors_directed` with `Direction::Outgoing`: the nodes at
/// which the edges that leave `a` end, one for each edge, in the order in
/// which the graph walks those edges.
#[verifier::external_body]
pub(crate) fn neighbors_out(g: &Topology, a: usize) -> (targets: Vec<usize>)
    requires
        a <= MAX_SLOTS,
    ensures
        targets@ == heads(edge_slots(*g), outgoing(*g, a)),
{
    g.neighbors_directed(NodeIndex::new(a), Direction::Outgoing).map(|b| b.index()).collect()
}

} // verus!
