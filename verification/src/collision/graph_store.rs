//! The graph of `petgraph` and the hash table with the hasher of
//! `fxhash`, as the interaction graph uses them. The contracts of the
//! functions in this file are not proved: they state what the code of those
//! crates does.

use vstd::prelude::*;
use super::collision_graph::Interaction;
use crate::object::handle_arena::swap_removed;
use crate::object::ColliderHandle;
use fxhash::FxHasher;
use petgraph::graph::{EdgeIndex, Graph, NodeIndex};
use petgraph::visit::EdgeRef;
use petgraph::Undirected;
use std::collections::HashMap;
use std::hash::BuildHasherDefault;

verus! {

// `petgraph::graph::Graph`, opaque.
#[verifier::external_type_specification]
#[verifier::external_body]
#[verifier::reject_recursive_types(N)]
#[verifier::reject_recursive_types(E)]
#[verifier::reject_recursive_types(Ty)]
#[verifier::reject_recursive_types(Ix)]
pub struct ExGraph<N, E, Ty, Ix>(Graph<N, E, Ty, Ix>);

// `petgraph::Undirected`, the marker of graphs without directions.
#[verifier::external_type_specification]
#[verifier::external_body]
pub struct ExUndirected(Undirected);

// `fxhash::FxHasher`, opaque.
#[verifier::external_type_specification]
#[verifier::external_body]
pub struct ExFxHasher(FxHasher);

// `std::hash::BuildHasherDefault`, opaque.
#[verifier::external_type_specification]
#[verifier::external_body]
#[verifier::reject_recursive_types(H)]
pub struct ExBuildHasherDefault<H>(BuildHasherDefault<H>);

/// The node weights of a graph, each at its node index.
pub uninterp spec fn graph_nodes(
    g: Graph<ColliderHandle, Option<Interaction>, Undirected, usize>,
) -> Seq<ColliderHandle>;

/// The edges of a graph, each at its edge index, as the node indices of its
/// two ends and its weight.
pub uninterp spec fn graph_edges(
    g: Graph<ColliderHandle, Option<Interaction>, Undirected, usize>,
) -> Seq<(usize, usize, Option<Interaction>)>;

/// Whether an edge joins the nodes `a` and `b`, in either direction.
pub open spec fn connects(e: (usize, usize, Option<Interaction>), a: usize, b: usize) -> bool {
    (e.0 == a && e.1 == b) || (e.0 == b && e.1 == a)
}

/// Whether an edge has an end in the node `a`.
pub open spec fn touches(e: (usize, usize, Option<Interaction>), a: usize) -> bool {
    e.0 == a || e.1 == a
}

/// The end of an edge that is not `a`; `a` itself for a loop.
pub open spec fn other_end(e: (usize, usize, Option<Interaction>), a: usize) -> usize {
    if e.0 == a {
        e.1
    } else {
        e.0
    }
}

/// An edge with the node index `from` at its ends replaced by `to`.
pub open spec fn rerouted(e: (usize, usize, Option<Interaction>), from: usize, to: usize) -> (
    usize,
    usize,
    Option<Interaction>,
) {
    (if e.0 == from { to } else { e.0 }, if e.1 == from { to } else { e.1 }, e.2)
}

/// `order` lists, each once, the indices of the edges of `before` that do not
/// touch the node `a`, and `after` holds those edges in that order, with the
/// node index `last` replaced by `a`.
pub open spec fn kept_edges(
    before: Seq<(usize, usize, Option<Interaction>)>,
    a: usize,
    last: usize,
    after: Seq<(usize, usize, Option<Interaction>)>,
    order: Seq<int>,
) -> bool {
    &&& order.len() == after.len()
    &&& order.no_duplicates()
    &&& forall|k: int|
        0 <= k < order.len() ==> 0 <= #[trigger] order[k] < before.len() && !touches(
            before[order[k]],
            a,
        ) && after[k] == rerouted(before[order[k]], last, a)
    &&& forall|i: int| 0 <= i < before.len() && !touches(#[trigger] before[i], a)
        ==> order.contains(i)
}

/// `order` lists, each once, the indices of the edges that touch the node
/// `a`, and `out` holds for each, in that order, its other end and its weight.
pub open spec fn listed_edges(
    edges: Seq<(usize, usize, Option<Interaction>)>,
    a: usize,
    out: Seq<(usize, Option<Interaction>)>,
    order: Seq<int>,
) -> bool {
    &&& order.len() == out.len()
    &&& order.no_duplicates()
    &&& forall|k: int|
        0 <= k < order.len() ==> 0 <= #[trigger] order[k] < edges.len() && touches(
            edges[order[k]],
            a,
        ) && out[k] == (other_end(edges[order[k]], a), edges[order[k]].2)
    &&& forall|i: int| 0 <= i < edges.len() && touches(#[trigger] edges[i], a) ==> order.contains(i)
}

/// Whether room for so many nodes and edges is within the limit that Rust
/// sets on the size of one allocation, `isize::MAX` bytes; a node of the
/// graph of interactions takes at most 32 bytes, an edge at most 64.
pub open spec fn graph_fits(nodes: usize, edges: usize) -> bool {
    nodes * 32 <= isize::MAX && edges * 64 <= isize::MAX
}

/// `Graph::with_capacity`: a graph without nodes and edges. It panics where
/// the room asked for exceeds the size of an allocation.
#[verifier::external_body]
pub(crate) fn graph_with_capacity(nodes: usize, edges: usize) -> (g: Graph<
    ColliderHandle,
    Option<Interaction>,
    Undirected,
    usize,
>)
    requires
        graph_fits(nodes, edges),
    ensures
        graph_nodes(g).len() == 0,
        graph_edges(g).len() == 0,
{
    Graph::with_capacity(nodes, edges)
}

/// `Graph::add_node`: the new node comes after the others, and its index is
/// returned. The edges stay.
#[verifier::external_body]
pub(crate) fn graph_add_node(
    g: &mut Graph<ColliderHandle, Option<Interaction>, Undirected, usize>,
    weight: ColliderHandle,
) -> (index: usize)
    ensures
        index == graph_nodes(*old(g)).len(),
        graph_nodes(*final(g)) == graph_nodes(*old(g)).push(weight),
        graph_edges(*final(g)) == graph_edges(*old(g)),
{
    g.add_node(weight).index()
}

/// `Graph::node_weight`: the weight of the node `a`, if there is such a node.
#[verifier::external_body]
pub(crate) fn graph_node_weight(
    g: &Graph<ColliderHandle, Option<Interaction>, Undirected, usize>,
    a: usize,
) -> (weight: Option<ColliderHandle>)
    ensures
        weight == if a < graph_nodes(*g).len() {
            Some(graph_nodes(*g)[a as int])
        } else {
            None::<ColliderHandle>
        },
{
    g.node_weight(NodeIndex::new(a)).copied()
}

/// `Graph::add_edge`: the new edge comes after the others, and its index is
/// returned. The nodes stay. Panics unless both ends are nodes.
#[verifier::external_body]
pub(crate) fn graph_add_edge(
    g: &mut Graph<ColliderHandle, Option<Interaction>, Undirected, usize>,
    a: usize,
    b: usize,
    weight: Option<Interaction>,
) -> (index: usize)
    requires
        a < graph_nodes(*old(g)).len(),
        b < graph_nodes(*old(g)).len(),
    ensures
        index == graph_edges(*old(g)).len(),
        graph_nodes(*final(g)) == graph_nodes(*old(g)),
        graph_edges(*final(g)) == graph_edges(*old(g)).push((a, b, weight)),
{
    g.add_edge(NodeIndex::new(a), NodeIndex::new(b), weight).index()
}

/// `Graph::find_edge` on an undirected graph: the index of an edge that
/// joins `a` and `b` in either direction, or `None` if there is none.
#[verifier::external_body]
pub(crate) fn graph_find_edge(
    g: &Graph<ColliderHandle, Option<Interaction>, Undirected, usize>,
    a: usize,
    b: usize,
) -> (found: Option<usize>)
    ensures
        match found {
            Some(e) => e < graph_edges(*g).len() && connects(graph_edges(*g)[e as int], a, b),
            None => forall|i: int|
                0 <= i < graph_edges(*g).len() ==> !connects(#[trigger] graph_edges(*g)[i], a, b),
        },
{
    g.find_edge(NodeIndex::new(a), NodeIndex::new(b)).map(|e| e.index())
}

/// `Graph::remove_node`: takes out the node `a` and every edge that touches
/// it, and returns the node's weight. The last node takes the index `a`. The
/// other edges stay, in an order that is left open, and those of the node
/// that moved now name it by its new index. Without a node `a` nothing
/// changes.
#[verifier::external_body]
pub(crate) fn graph_remove_node(
    g: &mut Graph<ColliderHandle, Option<Interaction>, Undirected, usize>,
    a: usize,
) -> (weight: Option<ColliderHandle>)
    ensures
        a >= graph_nodes(*old(g)).len() ==> weight.is_none() && graph_nodes(*final(g))
            == graph_nodes(*old(g)) && graph_edges(*final(g)) == graph_edges(*old(g)),
        a < graph_nodes(*old(g)).len() ==> weight == Some(graph_nodes(*old(g))[a as int])
            && graph_nodes(*final(g)) == swap_removed(graph_nodes(*old(g)), a as int)
            && exists|order: Seq<int>|
            #[trigger] kept_edges(
                graph_edges(*old(g)),
                a,
                (graph_nodes(*old(g)).len() - 1) as usize,
                graph_edges(*final(g)),
                order,
            ),
{
    g.remove_node(NodeIndex::new(a))
}

/// `Graph::edges` on an undirected graph: every edge that touches `a`, once,
/// in an order that is left open, as its other end and its weight.
#[verifier::external_body]
pub(crate) fn graph_edges_of(
    g: &Graph<ColliderHandle, Option<Interaction>, Undirected, usize>,
    a: usize,
) -> (out: Vec<(usize, Option<Interaction>)>)
    ensures
        exists|order: Seq<int>| #[trigger] listed_edges(graph_edges(*g), a, out@, order),
{
    g.edges(NodeIndex::new(a)).map(|e| (e.target().index(), *e.weight())).collect()
}

/// `Graph::edge_count`.
#[verifier::external_body]
pub(crate) fn graph_edge_count(
    g: &Graph<ColliderHandle, Option<Interaction>, Undirected, usize>,
) -> (n: usize)
    ensures
        n == graph_edges(*g).len(),
{
    g.edge_count()
}

/// `Graph::node_count`.
#[verifier::external_body]
pub(crate) fn graph_node_count(
    g: &Graph<ColliderHandle, Option<Interaction>, Undirected, usize>,
) -> (n: usize)
    ensures
        n == graph_nodes(*g).len(),
{
    g.node_count()
}

/// `Graph::edge_endpoints`: the two ends of the edge `e`, if there is such an edge.
#[verifier::external_body]
pub(crate) fn graph_edge_endpoints(
    g: &Graph<ColliderHandle, Option<Interaction>, Undirected, usize>,
    e: usize,
) -> (ends: Option<(usize, usize)>)
    ensures
        ends == if e < graph_edges(*g).len() {
            Some((graph_edges(*g)[e as int].0, graph_edges(*g)[e as int].1))
        } else {
            None::<(usize, usize)>
        },
{
    g.edge_endpoints(EdgeIndex::new(e)).map(|(a, b)| (a.index(), b.index()))
}

/// `Graph::edge_weight`: the weight of the edge `e`, if there is such an edge.
#[verifier::external_body]
pub(crate) fn graph_edge_weight(
    g: &Graph<ColliderHandle, Option<Interaction>, Undirected, usize>,
    e: usize,
) -> (weight: Option<Option<Interaction>>)
    ensures
        weight == if e < graph_edges(*g).len() {
            Some(graph_edges(*g)[e as int].2)
        } else {
            None::<Option<Interaction>>
        },
{
    g.edge_weight(EdgeIndex::new(e)).copied()
}

/// `IndexMut::index_mut` of `Graph` by an edge index, assigned through:
/// replaces the weight of the edge `e`. Panics without such an edge.
#[verifier::external_body]
pub(crate) fn graph_set_edge_weight(
    g: &mut Graph<ColliderHandle, Option<Interaction>, Undirected, usize>,
    e: usize,
    weight: Option<Interaction>,
)
    requires
        e < graph_edges(*old(g)).len(),
    ensures
        graph_nodes(*final(g)) == graph_nodes(*old(g)),
        graph_edges(*final(g)) == graph_edges(*old(g)).update(
            e as int,
            (graph_edges(*old(g))[e as int].0, graph_edges(*old(g))[e as int].1, weight),
        ),
{
    g[EdgeIndex::new(e)] = weight;
}

/// `Graph::remove_edge`: takes out the edge `e` and returns its weight; the
/// last edge takes the index `e`. Without an edge `e` nothing changes.
#[verifier::external_body]
pub(crate) fn graph_remove_edge(
    g: &mut Graph<ColliderHandle, Option<Interaction>, Undirected, usize>,
    e: usize,
) -> (weight: Option<Option<Interaction>>)
    ensures
        graph_nodes(*final(g)) == graph_nodes(*old(g)),
        e >= graph_edges(*old(g)).len() ==> weight.is_none() && graph_edges(*final(g))
            == graph_edges(*old(g)),
        e < graph_edges(*old(g)).len() ==> weight == Some(graph_edges(*old(g))[e as int].2)
            && graph_edges(*final(g)) == swap_removed(graph_edges(*old(g)), e as int),
{
    g.remove_edge(EdgeIndex::new(e))
}

/// The contents of an empty table.
pub open spec fn no_bindings() -> Map<usize, usize> {
    Map::empty()
}

/// `HashMap::default` with the Fx hasher: an empty table.
#[verifier::external_body]
pub(crate) fn binding_new() -> (table: HashMap<usize, usize, BuildHasherDefault<FxHasher>>)
    ensures
        table@ == no_bindings(),
{
    HashMap::default()
}

/// `HashMap::insert` with the Fx hasher: `key` now maps to `value`.
#[verifier::external_body]
pub(crate) fn binding_insert(
    table: &mut HashMap<usize, usize, BuildHasherDefault<FxHasher>>,
    key: usize,
    value: usize,
)
    ensures
        final(table)@ == old(table)@.insert(key, value),
{
    table.insert(key, value);
}

/// `HashMap::get` with the Fx hasher: what `key` maps to, if anything.
#[verifier::external_body]
pub(crate) fn binding_get(
    table: &HashMap<usize, usize, BuildHasherDefault<FxHasher>>,
    key: usize,
) -> (value: Option<usize>)
    ensures
        value == if table@.contains_key(key) {
            Some(table@[key])
        } else {
            None::<usize>
        },
{
    table.get(&key).copied()
}

/// `HashMap::remove` with the Fx hasher: `key` maps to nothing afterwards.
#[verifier::external_body]
pub(crate) fn binding_remove(
    table: &mut HashMap<usize, usize, BuildHasherDefault<FxHasher>>,
    key: usize,
)
    ensures
        final(table)@ == old(table)@.remove(key),
{
    table.remove(&key);
}

} // verus!
