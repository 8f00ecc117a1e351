//! The storage structures the store keeps from `petgraph` and `indexmap`.
use vstd::prelude::*;

use indexmap::IndexMap;
use petgraph::stable_graph::{EdgeIndex, NodeIndex, StableGraph};
use petgraph::Directed;

use crate::fact::{Edge, Node};

verus! {

#[verifier::external_type_specification]
#[verifier::external_body]
#[verifier::reject_recursive_types(N)]
#[verifier::reject_recursive_types(E)]
#[verifier::reject_recursive_types(Ty)]
#[verifier::reject_recursive_types(Ix)]
pub struct ExStableGraph<N, E, Ty, Ix>(StableGraph<N, E, Ty, Ix>);

#[verifier::external_type_specification]
#[verifier::external_body]
pub struct ExDirected(Directed);

#[verifier::external_type_specification]
#[verifier::external_body]
#[verifier::reject_recursive_types(K)]
#[verifier::reject_recursive_types(V)]
#[verifier::reject_recursive_types(S)]
pub struct ExIndexMap<K, V, S>(IndexMap<K, V, S>);

/// The node slots of a graph, by raw index: `None` for a vacant slot.
pub uninterp spec fn graph_nodes(g: StableGraph<Node, Edge, Directed, u32>) -> Seq<Option<Node>>;

/// The edge slots of a graph, by raw index, each with its source and
/// target node indices: `None` for a vacant slot.
pub uninterp spec fn graph_edges(g: StableGraph<Node, Edge, Directed, u32>) -> Seq<Option<(usize, usize, Edge)>>;

/// The entries of an id map, by key.
pub uninterp spec fn id_map_entries(m: IndexMap<String, usize>) -> Map<Seq<char>, usize>;

/// The source node index of an occupied edge slot.
pub open spec fn edge_slot_source(slot: Option<(usize, usize, Edge)>) -> usize {
    match slot {
        Some((s, _, _)) => s,
        None => 0,
    }
}

/// The target node index of an occupied edge slot.
pub open spec fn edge_slot_target(slot: Option<(usize, usize, Edge)>) -> usize {
    match slot {
        Some((_, t, _)) => t,
        None => 0,
    }
}

/// The weight of an occupied edge slot.
pub open spec fn edge_slot_weight(slot: Option<(usize, usize, Edge)>) -> Edge {
    slot.unwrap().2
}

/// An empty directed graph (`StableGraph::new`).
#[verifier::external_body]
pub(crate) fn graph_new() -> (g: StableGraph<Node, Edge, Directed, u32>)
    ensures
        graph_nodes(g).len() == 0,
        graph_edges(g).len() == 0,
{
    StableGraph::new()
}

/// Adds a node (`StableGraph::add_node`): it takes a vacant slot, or a
/// new slot at the end when none is vacant. Edges are unchanged.
#[verifier::external_body]
pub(crate) fn graph_add_node(g: &mut StableGraph<Node, Edge, Directed, u32>, w: Node) -> (r: usize)
    requires
        graph_nodes(*old(g)).len() < 0xffff_ffff,
    ensures
        ({
            let before = graph_nodes(*old(g));
            ||| (r < before.len() && before[r as int] is None && graph_nodes(*final(g)) == before.update(r as int, Some(w)))
            ||| (r == before.len() && graph_nodes(*final(g)) == before.push(Some(w)))
        }),
        graph_edges(*final(g)) == graph_edges(*old(g)),
{
    g.add_node(w).index()
}

/// The weight of node `i` (`StableGraph::node_weight`).
#[verifier::external_body]
pub(crate) fn graph_node(g: &StableGraph<Node, Edge, Directed, u32>, i: usize) -> (r: Option<&Node>)
    requires
        i < 0xffff_ffff,
    ensures
        match r {
            Some(n) => i < graph_nodes(*g).len() && graph_nodes(*g)[i as int] == Some(*n),
            None => i >= graph_nodes(*g).len() || graph_nodes(*g)[i as int] is None,
        },
{
    g.node_weight(NodeIndex::new(i))
}

/// Replaces the weight of occupied node `i` (`IndexMut` on the graph).
#[verifier::external_body]
pub(crate) fn graph_set_node(g: &mut StableGraph<Node, Edge, Directed, u32>, i: usize, w: Node)
    requires
        i < graph_nodes(*old(g)).len(),
        i < 0xffff_ffff,
        graph_nodes(*old(g))[i as int] is Some,
    ensures
        graph_nodes(*final(g)) == graph_nodes(*old(g)).update(i as int, Some(w)),
        graph_edges(*final(g)) == graph_edges(*old(g)),
{
    g[NodeIndex::new(i)] = w;
}

/// Adds an edge from `a` to `b` (`StableGraph::add_edge`): it takes a
/// vacant slot, or a new slot at the end when none is vacant.
#[verifier::external_body]
pub(crate) fn graph_add_edge(g: &mut StableGraph<Node, Edge, Directed, u32>, a: usize, b: usize, w: Edge) -> (r: usize)
    requires
        a < graph_nodes(*old(g)).len(),
        b < graph_nodes(*old(g)).len(),
        graph_nodes(*old(g))[a as int] is Some,
        graph_nodes(*old(g))[b as int] is Some,
        a < 0xffff_ffff,
        b < 0xffff_ffff,
        graph_edges(*old(g)).len() < 0xffff_ffff,
    ensures
        ({
            let before = graph_edges(*old(g));
            ||| (r < before.len() && before[r as int] is None && graph_edges(*final(g)) == before.update(r as int, Some((a, b, w))))
            ||| (r == before.len() && graph_edges(*final(g)) == before.push(Some((a, b, w))))
        }),
        graph_nodes(*final(g)) == graph_nodes(*old(g)),
{
    g.add_edge(NodeIndex::new(a), NodeIndex::new(b), w).index()
}

/// The endpoints of edge `i` (`StableGraph::edge_endpoints`).
#[verifier::external_body]
pub(crate) fn graph_edge_endpoints(g: &StableGraph<Node, Edge, Directed, u32>, i: usize) -> (r: Option<(usize, usize)>)
    requires
        i < 0xffff_ffff,
    ensures
        match r {
            Some((s, t)) => i < graph_edges(*g).len() && graph_edges(*g)[i as int] is Some
                && edge_slot_source(graph_edges(*g)[i as int]) == s && edge_slot_target(graph_edges(*g)[i as int]) == t,
            None => i >= graph_edges(*g).len() || graph_edges(*g)[i as int] is None,
        },
{
    g.edge_endpoints(EdgeIndex::new(i)).map(|(s, t)| (s.index(), t.index()))
}

/// The weight of edge `i` (`StableGraph::edge_weight`).
#[verifier::external_body]
pub(crate) fn graph_edge_weight(g: &StableGraph<Node, Edge, Directed, u32>, i: usize) -> (r: Option<&Edge>)
    requires
        i < 0xffff_ffff,
    ensures
        match r {
            Some(e) => i < graph_edges(*g).len() && graph_edges(*g)[i as int] is Some
                && edge_slot_weight(graph_edges(*g)[i as int]) == *e,
            None => i >= graph_edges(*g).len() || graph_edges(*g)[i as int] is None,
        },
{
    g.edge_weight(EdgeIndex::new(i))
}

/// An empty id map (`IndexMap::new`).
#[verifier::external_body]
pub(crate) fn id_map_new() -> (m: IndexMap<String, usize>)
    ensures
        id_map_entries(m) =~= Map::empty(),
{
    IndexMap::new()
}

/// The value under `k` (`IndexMap::get`).
#[verifier::external_body]
pub(crate) fn id_map_get(m: &IndexMap<String, usize>, k: &str) -> (r: Option<usize>)
    ensures
        match r {
            Some(v) => id_map_entries(*m).contains_key(k@) && id_map_entries(*m)[k@] == v,
            None => !id_map_entries(*m).contains_key(k@),
        },
{
    m.get(k).copied()
}

/// Stores `v` under `k` (`IndexMap::insert`).
#[verifier::external_body]
pub(crate) fn id_map_insert(m: &mut IndexMap<String, usize>, k: String, v: usize)
    ensures
        id_map_entries(*final(m)) == id_map_entries(*old(m)).insert(k@, v),
{
    m.insert(k, v);
}

} // verus!
