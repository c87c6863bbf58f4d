//! The wire structure of a circuit, kept in a `petgraph` stable graph.
//!
//! Verus does not look inside the graph. Its contents are named by
//! [`wiring_nodes`] and [`wiring_edges`], those of a traversal by
//! [`dfs_stack`], [`dfs_seen`] and [`dfs_limit`], and its drawing by
//! [`dot_content`]. Every function in this file
//! states over those names what the `petgraph` method it calls does. None of
//! these statements is proved here: they are what the rest of the library
//! takes on trust.

use vstd::prelude::*;

use fixedbitset::FixedBitSet;
use petgraph::dot::{Config, Dot};
use petgraph::stable_graph::StableGraph;
use petgraph::visit::Dfs;
use petgraph::Directed;

use crate::dot::edge_attributes;

verus! {

/// `petgraph::Directed`, the marker for directed edges.
#[verifier::external_type_specification]
#[verifier::external_body]
pub struct ExDirected(Directed);

/// `petgraph::stable_graph::StableGraph`, opaque to the verifier.
#[verifier::external_type_specification]
#[verifier::external_body]
#[verifier::reject_recursive_types(N)]
#[verifier::reject_recursive_types(E)]
#[verifier::reject_recursive_types(Ty)]
#[verifier::reject_recursive_types(Ix)]
pub struct ExStableGraph<N, E, Ty, Ix>(StableGraph<N, E, Ty, Ix>);

/// `petgraph::stable_graph::NodeIndex`, opaque to the verifier.
#[verifier::external_type_specification]
#[verifier::external_body]
#[verifier::reject_recursive_types(Ix)]
pub struct ExGraphIndex<Ix>(petgraph::stable_graph::NodeIndex<Ix>);

/// `fixedbitset::FixedBitSet`, the visit map of a traversal.
#[verifier::external_type_specification]
#[verifier::external_body]
pub struct ExFixedBitSet(FixedBitSet);

/// `petgraph::visit::Dfs`, the state of a depth-first traversal.
#[verifier::external_type_specification]
#[verifier::external_body]
#[verifier::reject_recursive_types(N)]
#[verifier::reject_recursive_types(VM)]
pub struct ExDfs<N, VM>(Dfs<N, VM>);

/// The graph type used for wiring: unit node weights, `(source port,
/// destination port)` edge weights, 32-bit indices.
pub type Wiring = StableGraph<(), (u8, u8), Directed, u32>;

/// The traversal state that goes with [`Wiring`].
pub type Walk = Dfs<petgraph::stable_graph::NodeIndex<u32>, FixedBitSet>;

/// One wire: its endpoints and the ports it joins.
pub struct Wire {
    pub src: int,
    pub dst: int,
    pub src_port: int,
    pub dst_port: int,
}

/// An incident wire as handed out by the graph: the edge index, the node at
/// the other end, and the two ports.
#[derive(Clone, Copy, Debug)]
pub struct Link {
    pub edge: u32,
    pub node: u32,
    pub src_port: u8,
    pub dst_port: u8,
}

/// The node indices that are valid in the graph.
pub uninterp spec fn wiring_nodes(g: Wiring) -> Set<int>;

/// The edges of the graph, by edge index.
pub uninterp spec fn wiring_edges(g: Wiring) -> Map<int, Wire>;

/// The nodes still to be looked at by a traversal, the next one last.
pub uninterp spec fn dfs_stack(w: Walk) -> Seq<int>;

/// The nodes that a traversal has handed out.
pub uninterp spec fn dfs_seen(w: Walk) -> Set<int>;

/// The size of the traversal's visit map: it can record indices below it.
pub uninterp spec fn dfs_limit(w: Walk) -> int;

/// The text that `petgraph` writes for the graph in the `dot` language,
/// without the frame around it, when node `i` is given the attributes
/// `attributes[i]` and a wire from node `i` the attributes that
/// [`crate::dot::edge_attributes_text`] makes of `secure[i]` and the ports of
/// the wire.
pub uninterp spec fn dot_content(g: Wiring, attributes: Seq<Seq<char>>, secure: Seq<bool>) -> Seq<char>;

/// The same wires with source and destination exchanged.
pub open spec fn reversed(edges: Map<int, Wire>) -> Map<int, Wire> {
    Map::new(
        |e: int| edges.contains_key(e),
        |e: int|
            Wire {
                src: edges[e].dst,
                dst: edges[e].src,
                src_port: edges[e].dst_port,
                dst_port: edges[e].src_port,
            },
    )
}

/// There is a wire from `u` to `v`.
pub open spec fn has_wire(edges: Map<int, Wire>, u: int, v: int) -> bool {
    exists|e: int| #[trigger] edges.contains_key(e) && edges[e].src == u && edges[e].dst == v
}

/// The elements of `links` are exactly the wires into `v`, each once.
pub open spec fn lists_wires_into(links: Seq<Link>, edges: Map<int, Wire>, v: int) -> bool {
    &&& forall|i: int|
        0 <= i < links.len() ==> edges.contains_key(#[trigger] links[i].edge as int) && edges[links[i].edge as int]
            == (Wire {
            src: links[i].node as int,
            dst: v,
            src_port: links[i].src_port as int,
            dst_port: links[i].dst_port as int,
        })
    &&& forall|i: int, j: int|
        0 <= i < j < links.len() ==> (#[trigger] links[i]).edge != (#[trigger] links[j]).edge
    &&& forall|e: int| #[trigger]
        edges.contains_key(e) && edges[e].dst == v ==> exists|i: int|
            0 <= i < links.len() && (#[trigger] links[i]).edge == e
}

/// The elements of `links` are exactly the wires out of `u`, each once.
pub open spec fn lists_wires_from(links: Seq<Link>, edges: Map<int, Wire>, u: int) -> bool {
    &&& forall|i: int|
        0 <= i < links.len() ==> edges.contains_key(#[trigger] links[i].edge as int) && edges[links[i].edge as int]
            == (Wire {
            src: u,
            dst: links[i].node as int,
            src_port: links[i].src_port as int,
            dst_port: links[i].dst_port as int,
        })
    &&& forall|i: int, j: int|
        0 <= i < j < links.len() ==> (#[trigger] links[i]).edge != (#[trigger] links[j]).edge
    &&& forall|e: int| #[trigger]
        edges.contains_key(e) && edges[e].src == u ==> exists|i: int|
            0 <= i < links.len() && (#[trigger] links[i]).edge == e
}

/// What one call of `Dfs::next` does to the traversal state, over the wires
/// `edges`. With `Some(n)`: the entries above some position `k` of the stack
/// had been handed out before and are dropped, `n` is the entry at `k` and is
/// new, and above the untouched lower part of the stack now lie successors of
/// `n` that have not been handed out, every such successor among them. With
/// `None`: every entry had been handed out before, and the stack is empty.
pub open spec fn dfs_step(
    edges: Map<int, Wire>,
    stack0: Seq<int>,
    seen0: Set<int>,
    stack1: Seq<int>,
    seen1: Set<int>,
    out: Option<u32>,
) -> bool {
    match out {
        None => {
            &&& stack1.len() == 0
            &&& seen1 == seen0
            &&& forall|i: int| 0 <= i < stack0.len() ==> seen0.contains(#[trigger] stack0[i])
        },
        Some(n) => exists|k: int|
            {
                &&& 0 <= k < stack0.len()
                &&& #[trigger] stack0[k] == n as int
                &&& !seen0.contains(n as int)
                &&& forall|j: int| k < j < stack0.len() ==> seen0.contains(#[trigger] stack0[j])
                &&& seen1 == seen0.insert(n as int)
                &&& stack1.len() >= k
                &&& stack1.subrange(0, k) == stack0.subrange(0, k)
                &&& forall|j: int|
                    k <= j < stack1.len() ==> has_wire(edges, n as int, #[trigger] stack1[j])
                        && !seen1.contains(stack1[j])
                &&& forall|v: int|
                    has_wire(edges, n as int, v) && !seen1.contains(v) ==> exists|j: int|
                        k <= j < stack1.len() && #[trigger] stack1[j] == v
            },
    }
}

/// `StableGraph::default`: a graph without nodes and edges (so both are
/// finite sets).
#[verifier::external_body]
pub(crate) fn wiring_new() -> (g: Wiring)
    ensures
        wiring_nodes(g) =~= Set::empty(),
        wiring_edges(g) =~= Map::empty(),
        wiring_nodes(g).finite(),
        wiring_edges(g).dom().finite(),
{
    StableGraph::default()
}

/// `StableGraph::node_count`: the number of valid nodes.
#[verifier::external_body]
pub(crate) fn wiring_node_count(g: &Wiring) -> (n: usize)
    ensures
        n == wiring_nodes(*g).len(),
{
    g.node_count()
}

/// `StableGraph::edge_count`: the number of edges.
#[verifier::external_body]
pub(crate) fn wiring_edge_count(g: &Wiring) -> (n: usize)
    ensures
        n == wiring_edges(*g).dom().len(),
{
    g.edge_count()
}

/// `StableGraph::add_node`: adds a node and returns its index, which was not
/// valid before. It panics when the index type is exhausted, which cannot
/// happen below `u32::MAX` nodes.
#[verifier::external_body]
pub(crate) fn wiring_add_node(g: &mut Wiring) -> (index: u32)
    requires
        wiring_nodes(*old(g)).finite(),
        wiring_nodes(*old(g)).len() < u32::MAX,
    ensures
        !wiring_nodes(*old(g)).contains(index as int),
        wiring_nodes(*final(g)) == wiring_nodes(*old(g)).insert(index as int),
        wiring_edges(*final(g)) == wiring_edges(*old(g)),
{
    g.add_node(()).index() as u32
}

/// `StableGraph::add_edge`: adds an edge between two valid nodes and returns
/// its index, which was not in use before. It panics when an endpoint is not
/// valid or when the index type is exhausted, which cannot happen below
/// `u32::MAX` edges.
#[verifier::external_body]
pub(crate) fn wiring_add_edge(g: &mut Wiring, src: u32, src_port: u8, dst: u32, dst_port: u8) -> (edge: u32)
    requires
        wiring_nodes(*old(g)).contains(src as int),
        wiring_nodes(*old(g)).contains(dst as int),
        wiring_edges(*old(g)).dom().finite(),
        wiring_edges(*old(g)).dom().len() < u32::MAX,
    ensures
        !wiring_edges(*old(g)).contains_key(edge as int),
        wiring_edges(*final(g)) == wiring_edges(*old(g)).insert(
            edge as int,
            Wire {
                src: src as int,
                dst: dst as int,
                src_port: src_port as int,
                dst_port: dst_port as int,
            },
        ),
        wiring_nodes(*final(g)) == wiring_nodes(*old(g)),
{
    let a = petgraph::stable_graph::NodeIndex::new(src as usize);
    let b = petgraph::stable_graph::NodeIndex::new(dst as usize);
    g.add_edge(a, b, (src_port, dst_port)).index() as u32
}

/// `StableGraph::remove_edge`: removes the edge if there is one of that
/// index, and says whether there was.
#[verifier::external_body]
pub(crate) fn wiring_remove_edge(g: &mut Wiring, edge: u32) -> (removed: bool)
    ensures
        removed == wiring_edges(*old(g)).contains_key(edge as int),
        wiring_edges(*final(g)) == wiring_edges(*old(g)).remove(edge as int),
        wiring_nodes(*final(g)) == wiring_nodes(*old(g)),
{
    g.remove_edge(petgraph::stable_graph::EdgeIndex::new(edge as usize)).is_some()
}

/// `StableGraph::edges_directed` with `Incoming`: the wires into `v`, each
/// once, in the graph's own order.
#[verifier::external_body]
pub(crate) fn wiring_edges_into(g: &Wiring, v: u32) -> (links: Vec<Link>)
    ensures
        lists_wires_into(links@, wiring_edges(*g), v as int),
{
    g.edges_directed(petgraph::stable_graph::NodeIndex::new(v as usize), petgraph::Incoming)
        .map(
            |e|
                Link {
                    edge: petgraph::visit::EdgeRef::id(&e).index() as u32,
                    node: petgraph::visit::EdgeRef::source(&e).index() as u32,
                    src_port: e.weight().0,
                    dst_port: e.weight().1,
                },
        )
        .collect()
}

/// `StableGraph::edges_directed` with `Outgoing`: the wires out of `u`, each
/// once, in the graph's own order.
#[verifier::external_body]
pub(crate) fn wiring_edges_from(g: &Wiring, u: u32) -> (links: Vec<Link>)
    ensures
        lists_wires_from(links@, wiring_edges(*g), u as int),
{
    g.edges_directed(petgraph::stable_graph::NodeIndex::new(u as usize), petgraph::Outgoing)
        .map(
            |e|
                Link {
                    edge: petgraph::visit::EdgeRef::id(&e).index() as u32,
                    node: petgraph::visit::EdgeRef::target(&e).index() as u32,
                    src_port: e.weight().0,
                    dst_port: e.weight().1,
                },
        )
        .collect()
}

/// `Dfs::new`: a traversal that has handed out nothing, with `start` alone
/// on its stack and a visit map sized to hold every valid node of `g`.
#[verifier::external_body]
pub(crate) fn dfs_new(g: &Wiring, start: u32) -> (w: Walk)
    ensures
        dfs_stack(w) == seq![start as int],
        dfs_seen(w) =~= Set::empty(),
        forall|v: int| wiring_nodes(*g).contains(v) ==> 0 <= v < dfs_limit(w),
{
    Dfs::new(g, petgraph::stable_graph::NodeIndex::new(start as usize))
}

/// `Dfs::next` on the graph itself: one step along the wires, as
/// [`dfs_step`] describes. It panics when it pops an index that the visit
/// map cannot record.
#[verifier::external_body]
pub(crate) fn dfs_next(w: &mut Walk, g: &Wiring) -> (out: Option<u32>)
    requires
        forall|i: int|
            0 <= i < dfs_stack(*old(w)).len() ==> 0 <= #[trigger] dfs_stack(*old(w))[i] < dfs_limit(
                *old(w),
            ),
    ensures
        dfs_step(
            wiring_edges(*g),
            dfs_stack(*old(w)),
            dfs_seen(*old(w)),
            dfs_stack(*final(w)),
            dfs_seen(*final(w)),
            out,
        ),
        dfs_limit(*final(w)) == dfs_limit(*old(w)),
{
    w.next(g).map(|n| n.index() as u32)
}

/// `Dfs::next` on `Reversed` of the graph: one step against the wires, as
/// [`dfs_step`] describes over the reversed wires. It panics when it pops an
/// index that the visit map cannot record.
#[verifier::external_body]
pub(crate) fn dfs_next_reversed(w: &mut Walk, g: &Wiring) -> (out: Option<u32>)
    requires
        forall|i: int|
            0 <= i < dfs_stack(*old(w)).len() ==> 0 <= #[trigger] dfs_stack(*old(w))[i] < dfs_limit(
                *old(w),
            ),
    ensures
        dfs_step(
            reversed(wiring_edges(*g)),
            dfs_stack(*old(w)),
            dfs_seen(*old(w)),
            dfs_stack(*final(w)),
            dfs_seen(*final(w)),
            out,
        ),
        dfs_limit(*final(w)) == dfs_limit(*old(w)),
{
    w.next(petgraph::visit::Reversed(g)).map(|n| n.index() as u32)
}

/// The texts of a list of strings.
pub open spec fn string_views(strings: Seq<String>) -> Seq<Seq<char>> {
    strings.map_values(|s: String| s@)
}

/// `Dot::with_attr_getters`, written out with `{:?}`: the content of the
/// drawing of the graph, named [`dot_content`]. The attributes of a node are
/// taken from `attributes`, those of a wire are made from the secure flag of
/// its source and its ports. Both lists must reach to every valid node.
#[verifier::external_body]
pub(crate) fn wiring_dot(g: &Wiring, attributes: &Vec<String>, secure: &Vec<bool>) -> (text: String)
    requires
        forall|i: int| #[trigger] wiring_nodes(*g).contains(i) ==> 0 <= i < attributes@.len() && i < secure@.len(),
    ensures
        text@ == dot_content(*g, string_views(attributes@), secure@),
{
    let config = [Config::NodeNoLabel, Config::EdgeNoLabel, Config::GraphContentOnly];
    let wires = |_, e: petgraph::stable_graph::EdgeReference<(u8, u8)>| {
        edge_attributes(secure[petgraph::visit::EdgeRef::source(&e).index()], e.weight().0, e.weight().1)
    };
    let nodes = |_, n: (petgraph::stable_graph::NodeIndex, &())| attributes[n.0.index()].clone();
    format!("{:?}", Dot::with_attr_getters(g, &config, &wires, &nodes))
}

} // verus!
