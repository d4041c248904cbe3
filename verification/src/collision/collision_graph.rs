//! The graph of interactions: which colliders touch, and how.

use vstd::prelude::*;
use crate::collision::aabb::Contact;
use crate::object::handle_arena::swap_removed;
use crate::object::ColliderHandle;
use crate::vector::Vec2;
use super::graph_store::{
    binding_get, binding_insert, binding_new, binding_remove, connects, graph_add_edge,
    graph_add_node, graph_edge_count, graph_edge_endpoints, graph_edge_weight, graph_edges,
    graph_edges_of, graph_find_edge, graph_node_count, graph_node_weight, graph_nodes,
    graph_fits, graph_remove_edge, graph_remove_node, graph_set_edge_weight,
    graph_with_capacity, kept_edges,
    listed_edges, touches,
};
use fxhash::FxHasher;
use petgraph::graph::Graph;
use petgraph::Undirected;
use std::collections::HashMap;
use std::hash::BuildHasherDefault;

verus! {

/// What is known of a collision between two solid colliders: its best contact.
#[derive(Copy, Clone, Debug, PartialEq, Eq, Structural)]
pub struct CollisionInfo {
    pub depth: i32,
    pub normal: Vec2,
    pub contact_point: Vec2,
}

impl CollisionInfo {
    /// What is kept of a contact.
    pub fn from(contact: &Contact) -> (info: CollisionInfo)
        ensures
            info == (CollisionInfo {
                depth: contact.depth,
                normal: contact.normal,
                contact_point: contact.contact_point,
            }),
    {
        CollisionInfo {
            depth: contact.depth,
            normal: contact.normal,
            contact_point: contact.contact_point,
        }
    }
}

/// How two colliders touch.
#[derive(Copy, Clone, Debug, PartialEq, Eq, Structural)]
pub enum Interaction {
    Collision(CollisionInfo),
    Overlap,
}

impl Interaction {
    /// The contact, if this is a collision.
    pub fn collision(&self) -> (info: Option<&CollisionInfo>)
        ensures
            info == match *self {
                Interaction::Collision(data) => Some(&data),
                Interaction::Overlap => None,
            },
    {
        match self {
            Interaction::Collision(data) => Some(data),
            _ => None,
        }
    }

    /// Whether this is an overlap, in which a sensor takes part.
    pub fn is_overlap(&self) -> (r: bool)
        ensures
            r == (*self == Interaction::Overlap),
    {
        matches!(self, Interaction::Overlap)
    }
}

/// One edge of the interaction graph: the handles of the two colliders that
/// it joins, in the order in which the edge was made, and how they touched
/// when the edge was last classified (`None`: not yet, or not at all).
#[derive(Copy, Clone, Debug)]
pub struct GraphEdge {
    pub first: ColliderHandle,
    pub second: ColliderHandle,
    pub interaction: Option<Interaction>,
}

impl GraphEdge {
    /// Whether the edge joins `h1` and `h2`, in either order.
    pub open spec fn joins(self, h1: ColliderHandle, h2: ColliderHandle) -> bool {
        (self.first == h1 && self.second == h2) || (self.first == h2 && self.second == h1)
    }

    /// Whether the edge has an end in `h`.
    pub open spec fn ends_in(self, h: ColliderHandle) -> bool {
        self.first == h || self.second == h
    }

    /// The end of the edge that is not `h`.
    pub open spec fn opposite(self, h: ColliderHandle) -> ColliderHandle {
        if self.first == h {
            self.second
        } else {
            self.first
        }
    }
}

/// Indices below `n`, each listed once, are at most `n`.
pub proof fn lemma_distinct_indices_are_few(order: Seq<int>, n: int)
    requires
        0 <= n,
        order.no_duplicates(),
        forall|k: int| 0 <= k < order.len() ==> 0 <= #[trigger] order[k] < n,
    ensures
        order.len() <= n,
{
    order.unique_seq_to_set();
    vstd::set_lib::lemma_int_range(0, n);
    assert(order.to_set().subset_of(vstd::set_lib::set_int_range(0, n))) by {
        assert forall|x: int| order.to_set().contains(x) implies vstd::set_lib::set_int_range(
            0,
            n,
        ).contains(x) by {
            let k = order.index_of(x);
            assert(order[k] == x);
        }
    }
    vstd::set_lib::lemma_len_subset(order.to_set(), vstd::set_lib::set_int_range(0, n));
}

/// Whether some edge of `edges` joins `h1` and `h2`.
pub open spec fn joined_in(edges: Seq<GraphEdge>, h1: ColliderHandle, h2: ColliderHandle) -> bool {
    exists|i: int| 0 <= i < edges.len() && (#[trigger] edges[i]).joins(h1, h2)
}

/// Index of an edge of `edges` that joins `h1` and `h2`.
pub open spec fn link_in(edges: Seq<GraphEdge>, h1: ColliderHandle, h2: ColliderHandle) -> int {
    choose|i: int| 0 <= i < edges.len() && (#[trigger] edges[i]).joins(h1, h2)
}

/// `edges` with an edge between `h1` and `h2`: as they are if one joins the
/// two already, with a new edge at the end, not yet classified, if none does.
pub open spec fn linked(edges: Seq<GraphEdge>, h1: ColliderHandle, h2: ColliderHandle) -> Seq<
    GraphEdge,
> {
    if joined_in(edges, h1, h2) {
        edges
    } else {
        edges.push(GraphEdge { first: h1, second: h2, interaction: None })
    }
}

/// `edges` without the edge between `h1` and `h2`, the last edge moved into
/// its place; as they are if none joins the two.
pub open spec fn unlinked(edges: Seq<GraphEdge>, h1: ColliderHandle, h2: ColliderHandle) -> Seq<
    GraphEdge,
> {
    if joined_in(edges, h1, h2) {
        swap_removed(edges, link_in(edges, h1, h2))
    } else {
        edges
    }
}

/// `order` lists, each once, the indices of the edges of `before` that have
/// no end in `h`, and `after` holds those edges in that order.
pub open spec fn edges_kept(
    before: Seq<GraphEdge>,
    h: ColliderHandle,
    after: Seq<GraphEdge>,
    order: Seq<int>,
) -> bool {
    &&& order.len() == after.len()
    &&& order.no_duplicates()
    &&& forall|k: int|
        0 <= k < order.len() ==> 0 <= #[trigger] order[k] < before.len()
            && !before[order[k]].ends_in(
            h,
        ) && after[k] == before[order[k]]
    &&& forall|i: int| 0 <= i < before.len() && !(#[trigger] before[i]).ends_in(h)
        ==> order.contains(i)
}

/// `order` lists, each once, the indices of the edges with an end in `h`,
/// and `out` holds for each, in that order, the handle at its other end.
pub open spec fn neighbors_listed(
    edges: Seq<GraphEdge>,
    h: ColliderHandle,
    out: Seq<ColliderHandle>,
    order: Seq<int>,
) -> bool {
    &&& order.len() == out.len()
    &&& order.no_duplicates()
    &&& forall|k: int|
        0 <= k < order.len() ==> 0 <= #[trigger] order[k] < edges.len()
            && edges[order[k]].ends_in(h)
            && out[k] == edges[order[k]].opposite(h)
    &&& forall|i: int| 0 <= i < edges.len() && (#[trigger] edges[i]).ends_in(h)
        ==> order.contains(i)
}

/// `order` lists, each once, the indices of the classified edges with an
/// end in `h`, and `out` holds for each, in that order, the handle at its
/// other end and the interaction.
pub open spec fn interactions_listed(
    edges: Seq<GraphEdge>,
    h: ColliderHandle,
    out: Seq<(ColliderHandle, Interaction)>,
    order: Seq<int>,
) -> bool {
    &&& order.len() == out.len()
    &&& order.no_duplicates()
    &&& forall|k: int|
        0 <= k < order.len() ==> 0 <= #[trigger] order[k] < edges.len()
            && edges[order[k]].ends_in(h)
            && edges[order[k]].interaction.is_some() && out[k] == (
            edges[order[k]].opposite(h),
            edges[order[k]].interaction.unwrap(),
        )
    &&& forall|i: int|
        0 <= i < edges.len() && (#[trigger] edges[i]).ends_in(h) && edges[i].interaction.is_some()
            ==> order.contains(i)
}

/// Structure for storing informations about the active collisions.
///
/// The nodes are the handles of the live colliders; an edge joins two
/// colliders that touch or have just ceased to. A table binds the slot of
/// each handle to the index of its node, and is kept exact when the removal
/// of a node moves another node to the index that became free.
pub struct CollisionGraph {
    src: Graph<ColliderHandle, Option<Interaction>, Undirected, usize>,
    binding: HashMap<usize, usize, BuildHasherDefault<FxHasher>>,
}

impl CollisionGraph {
    /// The handles of the nodes, each at the index of its node.
    pub closed spec fn nodes(&self) -> Seq<ColliderHandle> {
        graph_nodes(self.src)
    }

    /// The edges by node index.
    pub closed spec fn links(&self) -> Seq<(usize, usize, Option<Interaction>)> {
        graph_edges(self.src)
    }

    /// The edge at an index, by handles.
    pub closed spec fn edge_at(&self, i: int) -> GraphEdge {
        GraphEdge {
            first: self.nodes()[self.links()[i].0 as int],
            second: self.nodes()[self.links()[i].1 as int],
            interaction: self.links()[i].2,
        }
    }

    /// The edges by handles, each at its index.
    pub closed spec fn all_edges(&self) -> Seq<GraphEdge> {
        Seq::new(self.links().len(), |i: int| self.edge_at(i))
    }

    /// The table is the inverse of the node list, every edge ends in nodes,
    /// and no two edges join the same pair.
    pub closed spec fn wf(&self) -> bool {
        let nodes = self.nodes();
        let links = self.links();
        &&& forall|i: int|
            0 <= i < nodes.len() ==> self.binding@.contains_key((#[trigger] nodes[i]).0.0)
                && self.binding@[nodes[i].0.0] == i
        &&& forall|s: usize| #[trigger]
            self.binding@.contains_key(s) ==> self.binding@[s] < nodes.len()
                && nodes[self.binding@[s] as int].0.0 == s
        &&& forall|e: int|
            0 <= e < links.len() ==> (#[trigger] links[e]).0 < nodes.len() && links[e].1
                < nodes.len()
        &&& forall|e1: int, e2: int|
            0 <= e1 < links.len() && 0 <= e2 < links.len() && e1 != e2 ==> !connects(
                #[trigger] links[e1],
                (#[trigger] links[e2]).0,
                links[e2].1,
            )
    }

    /// Whether `handle` is a node.
    pub open spec fn has_node(&self, handle: ColliderHandle) -> bool {
        self.nodes().contains(handle)
    }

    /// Whether some edge joins `h1` and `h2`.
    pub open spec fn joined(&self, h1: ColliderHandle, h2: ColliderHandle) -> bool {
        joined_in(self.all_edges(), h1, h2)
    }

    /// Index of an edge that joins `h1` and `h2`.
    pub open spec fn link_between(&self, h1: ColliderHandle, h2: ColliderHandle) -> int {
        link_in(self.all_edges(), h1, h2)
    }

    /// In a well-formed graph no two nodes share a slot, every edge ends in
    /// nodes, and no two edges join the same pair of handles.
    pub proof fn lemma_wf(&self)
        requires
            self.wf(),
        ensures
            forall|i: int, j: int|
                0 <= i < self.nodes().len() && 0 <= j < self.nodes().len() && (
                #[trigger] self.nodes()[i]).0.0 == (#[trigger] self.nodes()[j]).0.0 ==> i == j,
            forall|e: int|
                0 <= e < self.all_edges().len()
                    ==> self.has_node((#[trigger] self.all_edges()[e]).first)
                    && self.has_node(self.all_edges()[e].second),
            forall|e1: int, e2: int|
                0 <= e1 < self.all_edges().len() && 0 <= e2 < self.all_edges().len() && (
                #[trigger] self.all_edges()[e1]).joins(
                    (#[trigger] self.all_edges()[e2]).first,
                    self.all_edges()[e2].second,
                ) ==> e1 == e2,
    {
        let nodes = self.nodes();
        let links = self.links();
        assert forall|e: int| 0 <= e < self.all_edges().len() implies self.has_node(
            (#[trigger] self.all_edges()[e]).first,
        ) && self.has_node(self.all_edges()[e].second) by {
            assert(links[e].0 < nodes.len());
            assert(nodes[links[e].0 as int] == self.all_edges()[e].first);
            assert(nodes[links[e].1 as int] == self.all_edges()[e].second);
        }
        assert forall|e1: int, e2: int|
            0 <= e1 < self.all_edges().len() && 0 <= e2 < self.all_edges().len() && (
            #[trigger] self.all_edges()[e1]).joins(
                (#[trigger] self.all_edges()[e2]).first,
                self.all_edges()[e2].second,
            ) implies e1 == e2 by {
            assert(links[e1].0 < nodes.len() && links[e2].0 < nodes.len());
            let a1 = links[e1].0 as int;
            let b1 = links[e1].1 as int;
            let a2 = links[e2].0 as int;
            let b2 = links[e2].1 as int;
            assert(self.binding@[nodes[a1].0.0] == a1);
            assert(self.binding@[nodes[b1].0.0] == b1);
            assert(self.binding@[nodes[a2].0.0] == a2);
            assert(self.binding@[nodes[b2].0.0] == b2);
            if e1 != e2 {
                assert(connects(links[e1], links[e2].0, links[e2].1));
            }
        }
    }

    /// A graph without nodes, with room for `nodes` nodes and `edges` edges.
    pub fn with_capacity(nodes: usize, edges: usize) -> (graph: Self)
        requires
            graph_fits(nodes, edges),
        ensures
            graph.wf(),
            graph.nodes().len() == 0,
            graph.all_edges().len() == 0,
    {
        let graph = Self { src: graph_with_capacity(nodes, edges), binding: binding_new() };
        graph
    }

    /// Number of nodes.
    pub fn node_count(&self) -> (n: usize)
        ensures
            n == self.nodes().len(),
    {
        graph_node_count(&self.src)
    }

    /// Number of edges.
    pub fn edge_count(&self) -> (n: usize)
        ensures
            n == self.all_edges().len(),
    {
        graph_edge_count(&self.src)
    }

    /// Index of the node of `handle`, or `None` if the handle is no node.
    pub fn get_node_index(&self, handle: ColliderHandle) -> (index: Option<usize>)
        requires
            self.wf(),
        ensures
            index.is_some() == self.has_node(handle),
            index.is_some() ==> index.unwrap() < self.nodes().len()
                && self.nodes()[index.unwrap() as int]
                == handle,
    {
        match binding_get(&self.binding, handle.0.0) {
            None => {
                proof {
                    if self.nodes().contains(handle) {
                        let i = self.nodes().index_of(handle);
                        assert(self.binding@.contains_key(self.nodes()[i].0.0));
                    }
                }
                None
            },
            Some(i) => {
                match graph_node_weight(&self.src, i) {
                    Some(weight) => {
                        if weight.same(&handle) {
                            Some(i)
                        } else {
                            proof {
                                if self.nodes().contains(handle) {
                                    let j = self.nodes().index_of(handle);
                                    assert(self.binding@[self.nodes()[j].0.0] == j);
                                }
                            }
                            None
                        }
                    },
                    None => None,
                }
            },
        }
    }

    /// Whether no node has the slot of `handle`.
    pub open spec fn slot_free(&self, handle: ColliderHandle) -> bool {
        forall|i: int| 0 <= i < self.nodes().len()
            ==> (#[trigger] self.nodes()[i]).0.0 != handle.0.0
    }

    /// Adds a node for `handle` and binds the handle to it.
    pub fn add_node(&mut self, handle: ColliderHandle)
        requires
            old(self).wf(),
            old(self).slot_free(handle),
        ensures
            final(self).wf(),
            final(self).nodes() == old(self).nodes().push(handle),
            final(self).all_edges() == old(self).all_edges(),
    {
        let node_id = graph_add_node(&mut self.src, handle);
        binding_insert(&mut self.binding, handle.0.0, node_id);
        proof {
            let nodes = old(self).nodes();
            assert forall|i: int| 0 <= i < self.nodes().len() implies self.binding@.contains_key(
                (#[trigger] self.nodes()[i]).0.0,
            ) && self.binding@[self.nodes()[i].0.0] == i by {
                if i < nodes.len() {
                    assert(nodes[i].0.0 != handle.0.0);
                    assert(old(self).binding@.contains_key(nodes[i].0.0));
                }
            }
            assert forall|e: int| 0 <= e < self.links().len() implies (#[trigger] self.links()[e]).0
                < self.nodes().len() && self.links()[e].1 < self.nodes().len() by {
                assert(old(self).links()[e].0 < nodes.len());
            }
            assert forall|e: int| 0 <= e < self.links().len() implies self.edge_at(e) == old(
                self,
            ).edge_at(e) by {
                assert(old(self).links()[e].0 < nodes.len());
            }
            assert(self.all_edges() =~= old(self).all_edges());
        }
    }

    /// Makes an edge between two nodes unless one joins them already. A new
    /// edge is not classified yet.
    pub fn update_edge(&mut self, handle1: ColliderHandle, handle2: ColliderHandle)
        requires
            old(self).wf(),
            old(self).has_node(handle1),
            old(self).has_node(handle2),
        ensures
            final(self).wf(),
            final(self).nodes() == old(self).nodes(),
            final(self).all_edges() == linked(old(self).all_edges(), handle1, handle2),
    {
        proof {
            self.lemma_wf();
        }
        let (node_id1, node_id2) = match (
            self.get_node_index(handle1),
            self.get_node_index(handle2),
        ) {
            (Some(a), Some(b)) => (a, b),
            _ => { return ; },
        };
        // don't add the edge if it already exists
        match graph_find_edge(&self.src, node_id1, node_id2) {
            Some(e) => {
                proof {
                    assert(old(self).links()[e as int].0 < old(self).nodes().len());
                    assert(old(self).all_edges()[e as int].joins(handle1, handle2));
                }
            },
            None => {
                proof {
                    if old(self).joined(handle1, handle2) {
                        let i = old(self).link_between(handle1, handle2);
                        assert(old(self).links()[i].0 < old(self).nodes().len());
                        assert(connects(old(self).links()[i], node_id1, node_id2));
                    }
                }
                let _ = graph_add_edge(&mut self.src, node_id1, node_id2, None);
                proof {
                    let links = old(self).links();
                    assert forall|e1: int, e2: int|
                        0 <= e1 < self.links().len() && 0 <= e2 < self.links().len() && e1
                            != e2 implies !connects(
                        #[trigger] self.links()[e1],
                        (#[trigger] self.links()[e2]).0,
                        self.links()[e2].1,
                    ) by {
                        if e1 < links.len() && e2 < links.len() {
                            assert(!connects(links[e1], links[e2].0, links[e2].1));
                        } else if e1 < links.len() {
                            assert(!connects(links[e1], node_id1, node_id2));
                        } else {
                            assert(!connects(links[e2], node_id1, node_id2));
                        }
                    }
                    assert forall|e: int| 0 <= e < self.links().len() implies (
                    #[trigger] self.links()[e]).0 < self.nodes().len() && self.links()[e].1
                        < self.nodes().len() by {
                        if e < links.len() {
                            assert(links[e].0 < old(self).nodes().len());
                        }
                    }
                    assert(self.all_edges() =~= old(self).all_edges().push(
                        GraphEdge { first: handle1, second: handle2, interaction: None },
                    ));
                }
            },
        }
    }

    /// Removes the node of `handle` with the edges that end in it. The graph
    /// moves its last node to the index that becomes free; the table is
    /// rebound to it, so that every other handle still finds its node.
    pub fn remove_node(&mut self, handle: ColliderHandle)
        requires
            old(self).wf(),
            old(self).has_node(handle),
        ensures
            final(self).wf(),
            final(self).nodes() == swap_removed(
                old(self).nodes(),
                old(self).nodes().index_of(handle),
            ),
            exists|order: Seq<int>| #[trigger]
                edges_kept(old(self).all_edges(), handle, final(self).all_edges(), order),
    {
        proof {
            self.lemma_wf();
        }
        let node_id = match self.get_node_index(handle) {
            Some(node_id) => node_id,
            None => { return ; },
        };
        let _ = graph_remove_node(&mut self.src, node_id);
        binding_remove(&mut self.binding, handle.0.0);
        // in case graph reallocated some other handle to this node
        match graph_node_weight(&self.src, node_id) {
            Some(new_handle) => {
                binding_insert(&mut self.binding, new_handle.0.0, node_id);
            },
            None => {},
        }
        proof {
            let nodes = old(self).nodes();
            let links = old(self).links();
            let a = node_id as int;
            let last = nodes.len() - 1;
            assert(nodes.index_of(handle) == a) by {
                let p = nodes.index_of(handle);
                assert(nodes[p] == handle);
            }
            let order = choose|order: Seq<int>| #[trigger]
                kept_edges(links, node_id, last as usize, self.links(), order);
            assert forall|i: int| 0 <= i < self.nodes().len() implies self.binding@.contains_key(
                (#[trigger] self.nodes()[i]).0.0,
            ) && self.binding@[self.nodes()[i].0.0] == i by {
                if i != a {
                    assert(nodes[i].0.0 != nodes[a].0.0);
                    assert(nodes[i].0.0 != nodes[last].0.0);
                    assert(old(self).binding@.contains_key(nodes[i].0.0));
                }
            }
            assert forall|s: usize| #[trigger] self.binding@.contains_key(s)
                implies self.binding@[s]
                < self.nodes().len() && self.nodes()[self.binding@[s] as int].0.0 == s by {
                if a < last && s == nodes[last].0.0 {
                } else {
                    assert(old(self).binding@.contains_key(s));
                    let j = old(self).binding@[s] as int;
                    assert(nodes[j].0.0 == s);
                    assert(old(self).binding@[nodes[a].0.0] == a);
                    assert(old(self).binding@[nodes[last].0.0] == last);
                }
            }
            assert forall|e: int| 0 <= e < self.links().len() implies (#[trigger] self.links()[e]).0
                < self.nodes().len() && self.links()[e].1 < self.nodes().len() by {
                assert(links[order[e]].0 < nodes.len());
            }
            assert forall|e1: int, e2: int|
                0 <= e1 < self.links().len() && 0 <= e2 < self.links().len() && e1 != e2
                    implies !connects(
                #[trigger] self.links()[e1],
                (#[trigger] self.links()[e2]).0,
                self.links()[e2].1,
            ) by {
                assert(order[e1] != order[e2]);
                assert(!connects(links[order[e1]], links[order[e2]].0, links[order[e2]].1));
            }
            assert forall|k: int| 0 <= k < order.len() implies 0 <= #[trigger] order[k] < old(
                self,
            ).all_edges().len() && !old(self).all_edges()[order[k]].ends_in(handle)
                && self.all_edges()[k] == old(
                self,
            ).all_edges()[order[k]] by {
                let x = links[order[k]].0 as int;
                let y = links[order[k]].1 as int;
                assert(x < nodes.len() && y < nodes.len());
                assert(x != a && y != a);
                assert(nodes[x].0.0 != nodes[a].0.0);
                assert(nodes[y].0.0 != nodes[a].0.0);
            }
            assert forall|i: int|
                0 <= i < old(self).all_edges().len()
                    && !(#[trigger] old(self).all_edges()[i]).ends_in(
                    handle,
                ) implies order.contains(i) by {
                assert(links[i].0 < nodes.len());
                assert(!touches(links[i], node_id));
            }
            assert(edges_kept(old(self).all_edges(), handle, self.all_edges(), order));
        }
    }

    /// The edge at an index.
    pub fn edge(&self, index: usize) -> (edge: GraphEdge)
        requires
            self.wf(),
            index < self.all_edges().len(),
        ensures
            edge == self.all_edges()[index as int],
    {
        assert(self.links()[index as int].0 < self.nodes().len());
        let ends = graph_edge_endpoints(&self.src, index).unwrap();
        let interaction = graph_edge_weight(&self.src, index).unwrap();
        let first = graph_node_weight(&self.src, ends.0).unwrap();
        let second = graph_node_weight(&self.src, ends.1).unwrap();
        GraphEdge { first, second, interaction }
    }

    /// Replaces the classification of the edge at an index.
    pub fn set_interaction(&mut self, index: usize, interaction: Option<Interaction>)
        requires
            old(self).wf(),
            index < old(self).all_edges().len(),
        ensures
            final(self).wf(),
            final(self).nodes() == old(self).nodes(),
            final(self).all_edges() == old(self).all_edges().update(
                index as int,
                GraphEdge {
                    first: old(self).all_edges()[index as int].first,
                    second: old(self).all_edges()[index as int].second,
                    interaction,
                },
            ),
    {
        graph_set_edge_weight(&mut self.src, index, interaction);
        proof {
            let links = old(self).links();
            assert forall|e: int| 0 <= e < self.links().len() implies (#[trigger] self.links()[e]).0
                < self.nodes().len() && self.links()[e].1 < self.nodes().len() by {
                assert(links[e].0 < old(self).nodes().len());
            }
            assert forall|e1: int, e2: int|
                0 <= e1 < self.links().len() && 0 <= e2 < self.links().len() && e1 != e2
                    implies !connects(
                #[trigger] self.links()[e1],
                (#[trigger] self.links()[e2]).0,
                self.links()[e2].1,
            ) by {
                assert(!connects(links[e1], links[e2].0, links[e2].1));
            }
            assert(self.all_edges() =~= old(self).all_edges().update(
                index as int,
                GraphEdge {
                    first: old(self).all_edges()[index as int].first,
                    second: old(self).all_edges()[index as int].second,
                    interaction,
                },
            ));
        }
    }

    /// Removes the edge that joins two handles, if there is one, and says
    /// whether there was. The last edge takes the index of the removed one.
    pub fn remove_edge_between(&mut self, handle1: ColliderHandle, handle2: ColliderHandle)
        -> (removed:
        bool)
        requires
            old(self).wf(),
        ensures
            final(self).wf(),
            final(self).nodes() == old(self).nodes(),
            removed == joined_in(old(self).all_edges(), handle1, handle2),
            final(self).all_edges() == unlinked(old(self).all_edges(), handle1, handle2),
    {
        proof {
            self.lemma_wf();
        }
        let (node_id1, node_id2) = match (
            self.get_node_index(handle1),
            self.get_node_index(handle2),
        ) {
            (Some(a), Some(b)) => (a, b),
            _ => {
                proof {
                    if old(self).joined(handle1, handle2) {
                        let i = old(self).link_between(handle1, handle2);
                        assert(old(self).has_node(old(self).all_edges()[i].first));
                    }
                }
                return false;
            },
        };
        match graph_find_edge(&self.src, node_id1, node_id2) {
            Some(e) => {
                proof {
                    assert(old(self).links()[e as int].0 < old(self).nodes().len());
                    assert(old(self).all_edges()[e as int].joins(handle1, handle2));
                    let i = old(self).link_between(handle1, handle2);
                    assert(old(self).all_edges()[i].joins(
                        old(self).all_edges()[e as int].first,
                        old(self).all_edges()[e as int].second,
                    ));
                    assert(i == e);
                }
                let _ = graph_remove_edge(&mut self.src, e);
                proof {
                    let links = old(self).links();
                    let last = links.len() - 1;
                    assert forall|k: int| 0 <= k < self.links().len() implies (
                    #[trigger] self.links()[k]).0 < self.nodes().len() && self.links()[k].1
                        < self.nodes().len() by {
                        assert(links[k].0 < old(self).nodes().len());
                        assert(links[last].0 < old(self).nodes().len());
                    }
                    assert forall|e1: int, e2: int|
                        0 <= e1 < self.links().len() && 0 <= e2 < self.links().len() && e1
                            != e2 implies !connects(
                        #[trigger] self.links()[e1],
                        (#[trigger] self.links()[e2]).0,
                        self.links()[e2].1,
                    ) by {
                        let o1 = if e1 == e { last } else { e1 };
                        let o2 = if e2 == e { last } else { e2 };
                        assert(!connects(links[o1], links[o2].0, links[o2].1));
                    }
                    assert(self.all_edges() =~= swap_removed(old(self).all_edges(), e as int));
                }
                true
            },
            None => {
                proof {
                    if old(self).joined(handle1, handle2) {
                        let i = old(self).link_between(handle1, handle2);
                        assert(old(self).links()[i].0 < old(self).nodes().len());
                        assert(connects(old(self).links()[i], node_id1, node_id2));
                    }
                }
                false
            },
        }
    }

    /// The handles at the other ends of the edges of `handle`, whether the
    /// edges are classified or not, in an order that the graph leaves open.
    pub fn neighbors(&self, handle: ColliderHandle) -> (out: Vec<ColliderHandle>)
        requires
            self.wf(),
        ensures
            exists|order: Seq<int>| #[trigger] neighbors_listed(self.all_edges(), handle, out@, order),
            out@.len() <= self.all_edges().len(),
    {
        proof {
            self.lemma_wf();
        }
        let mut out: Vec<ColliderHandle> = Vec::new();
        let node_id = match self.get_node_index(handle) {
            Some(node_id) => node_id,
            None => {
                proof {
                    assert forall|i: int| 0 <= i < self.all_edges().len() implies !(
                    #[trigger] self.all_edges()[i]).ends_in(handle) by {
                        assert(self.has_node(self.all_edges()[i].first));
                    }
                    assert(neighbors_listed(self.all_edges(), handle, out@, Seq::<int>::empty()));
                }
                return out;
            },
        };
        let found = graph_edges_of(&self.src, node_id);
        let ghost order = choose|order: Seq<int>| #[trigger]
            listed_edges(self.links(), node_id, found@, order);
        let mut i: usize = 0;
        while i < found.len()
            invariant
                self.wf(),
                0 <= i <= found@.len(),
                node_id < self.nodes().len(),
                self.nodes()[node_id as int] == handle,
                listed_edges(self.links(), node_id, found@, order),
                out@.len() == i,
                forall|k: int|
                    0 <= k < i ==> #[trigger] out@[k]
                        == self.all_edges()[order[k]].opposite(handle),
            decreases found@.len() - i,
        {
            let target = found[i].0;
            proof {
                self.lemma_wf();
                let e = order[i as int];
                assert(self.links()[e].0 < self.nodes().len());
                let x = self.links()[e].0 as int;
                let y = self.links()[e].1 as int;
                if x != node_id {
                    assert(self.nodes()[x].0.0 != self.nodes()[node_id as int].0.0);
                }
            }
            let weight = graph_node_weight(&self.src, target).unwrap();
            out.push(weight);
            i += 1;
        }
        proof {
            self.lemma_wf();
            assert forall|k: int| 0 <= k < order.len() implies 0 <= #[trigger] order[k]
                < self.all_edges().len() && self.all_edges()[order[k]].ends_in(handle) && out@[k]
                == self.all_edges()[order[k]].opposite(handle) by {
                assert(self.links()[order[k]].0 < self.nodes().len());
            }
            assert forall|j: int|
                0 <= j < self.all_edges().len() && (#[trigger] self.all_edges()[j]).ends_in(
                    handle,
                ) implies order.contains(j) by {
                assert(self.links()[j].0 < self.nodes().len());
                let x = self.links()[j].0 as int;
                let y = self.links()[j].1 as int;
                if x != node_id && y != node_id {
                    assert(self.nodes()[x].0.0 != self.nodes()[node_id as int].0.0);
                    assert(self.nodes()[y].0.0 != self.nodes()[node_id as int].0.0);
                }
                assert(touches(self.links()[j], node_id));
            }
            assert(neighbors_listed(self.all_edges(), handle, out@, order));
            lemma_distinct_indices_are_few(order, self.all_edges().len() as int);
        }
        out
    }

    /// The classified edges of `handle`: for each, the handle at its other
    /// end and the interaction, in an order that the graph leaves open.
    pub fn edges(&self, handle: ColliderHandle) -> (out: Vec<(ColliderHandle, Interaction)>)
        requires
            self.wf(),
        ensures
            exists|order: Seq<int>| #[trigger]
                interactions_listed(self.all_edges(), handle, out@, order),
            out@.len() <= self.all_edges().len(),
    {
        proof {
            self.lemma_wf();
        }
        let mut out: Vec<(ColliderHandle, Interaction)> = Vec::new();
        let node_id = match self.get_node_index(handle) {
            Some(node_id) => node_id,
            None => {
                proof {
                    assert forall|i: int| 0 <= i < self.all_edges().len() implies !(
                    #[trigger] self.all_edges()[i]).ends_in(handle) by {
                        assert(self.has_node(self.all_edges()[i].first));
                    }
                    assert(interactions_listed(self.all_edges(), handle, out@, Seq::<int>::empty()));
                }
                return out;
            },
        };
        let found = graph_edges_of(&self.src, node_id);
        let ghost order = choose|order: Seq<int>| #[trigger]
            listed_edges(self.links(), node_id, found@, order);
        let ghost mut kept: Seq<int> = Seq::empty();
        let mut i: usize = 0;
        while i < found.len()
            invariant
                self.wf(),
                0 <= i <= found@.len(),
                node_id < self.nodes().len(),
                self.nodes()[node_id as int] == handle,
                listed_edges(self.links(), node_id, found@, order),
                out@.len() == kept.len(),
                kept.no_duplicates(),
                forall|m: int|
                    0 <= m < kept.len() ==> exists|k: int|
                        0 <= k < i && #[trigger] order[k] == #[trigger] kept[m],
                forall|m: int|
                    0 <= m < kept.len() ==> 0 <= #[trigger] kept[m] < self.all_edges().len()
                        && self.all_edges()[kept[m]].ends_in(handle)
                        && self.all_edges()[kept[m]].interaction.is_some() && out@[m] == (
                        self.all_edges()[kept[m]].opposite(handle),
                        self.all_edges()[kept[m]].interaction.unwrap(),
                    ),
                forall|k: int|
                    0 <= k < i && self.links()[#[trigger] order[k]].2.is_some() ==> kept.contains(
                        order[k],
                    ),
            decreases found@.len() - i,
        {
            let target = found[i].0;
            let weight = found[i].1;
            proof {
                self.lemma_wf();
                let e = order[i as int];
                assert(self.links()[e].0 < self.nodes().len());
                let x = self.links()[e].0 as int;
                if x != node_id {
                    assert(self.nodes()[x].0.0 != self.nodes()[node_id as int].0.0);
                }
            }
            match weight {
                Some(interaction) => {
                    let other = graph_node_weight(&self.src, target).unwrap();
                    out.push((other, interaction));
                    proof {
                        let e = order[i as int];
                        let before = kept;
                        if before.contains(e) {
                            let m = before.index_of(e);
                            let k = choose|k: int| 0 <= k < i && #[trigger] order[k] == before[m];
                            assert(order[k] == order[i as int]);
                        }
                        kept = kept.push(e);
                        assert forall|m: int| 0 <= m < kept.len() implies exists|k: int|
                            0 <= k < i + 1 && #[trigger] order[k] == #[trigger] kept[m] by {
                            if m < before.len() {
                                let k = choose|k: int| 0 <= k < i && #[trigger] order[k]
                                    == before[m];
                                assert(order[k] == kept[m]);
                            } else {
                                assert(order[i as int] == kept[m]);
                            }
                        }
                        assert forall|k: int|
                            0 <= k < i + 1 && self.links()[#[trigger] order[k]].2.is_some()
                                implies kept.contains(
                            order[k],
                        ) by {
                            if k < i {
                                let m = before.index_of(order[k]);
                                assert(kept[m] == order[k]);
                            } else {
                                assert(kept[before.len() as int] == order[k]);
                            }
                        }
                    }
                },
                None => {},
            }
            i += 1;
        }
        proof {
            self.lemma_wf();
            assert forall|j: int|
                0 <= j < self.all_edges().len() && (#[trigger] self.all_edges()[j]).ends_in(handle)
                    && self.all_edges()[j].interaction.is_some() implies kept.contains(j) by {
                assert(self.links()[j].0 < self.nodes().len());
                let x = self.links()[j].0 as int;
                let y = self.links()[j].1 as int;
                if x != node_id && y != node_id {
                    assert(self.nodes()[x].0.0 != self.nodes()[node_id as int].0.0);
                    assert(self.nodes()[y].0.0 != self.nodes()[node_id as int].0.0);
                }
                assert(touches(self.links()[j], node_id));
                assert(order.contains(j));
                let k = order.index_of(j);
                assert(order[k] == j);
            }
            assert(interactions_listed(self.all_edges(), handle, out@, kept));
            lemma_distinct_indices_are_few(kept, self.all_edges().len() as int);
        }
        out
    }
}

} // verus!
