//! Node and edge storage: a `petgraph` graph addressed by small integers,
//! and what this library relies on it to do.
//!
//! Nothing in this file is proved. Each function makes one call into
//! `petgraph`, and its contract records what that call is trusted to do.

use crate::package::{Kind, Node};
use petgraph::visit::EdgeRef;
use vstd::prelude::*;

verus! {

/// The storage itself: a directed `petgraph` graph with `usize` indices,
/// which holds a [`Node`] for each node and a [`Kind`] for each edge. It is
/// kept behind a type of this library because its own name is that of this
/// library's graph. What it holds is known to the contracts only by
/// [`arena_nodes`] and [`arena_edges`].
#[verifier::external_body]
#[derive(Debug)]
pub struct Arena {
    inner: petgraph::graph::Graph<Node, Kind, petgraph::Directed, usize>,
}

/// One stored edge: the indices of the dependent and of the dependency, and
/// why the one needs the other.
pub struct Edge {
    pub from: int,
    pub to: int,
    pub kind: Kind,
}

/// The end of an edge from which it is looked at.
#[derive(Clone, Copy, Debug, PartialEq, Eq, Structural)]
pub enum Direction {
    /// From the dependent: the edges that leave a node.
    Outgoing,
    /// From the dependency: the edges that enter a node.
    Incoming,
}

/// The node weights that `g` holds, in the order of their indices.
pub uninterp spec fn arena_nodes(g: Arena) -> Seq<Node>;

/// The edges that `g` holds, in the order in which they were added.
pub uninterp spec fn arena_edges(g: Arena) -> Seq<Edge>;

/// The end of `e` that `dir` looks from.
pub open spec fn near_end(e: Edge, dir: Direction) -> int {
    match dir {
        Direction::Outgoing => e.from,
        Direction::Incoming => e.to,
    }
}

/// The end of `e` that `dir` looks at.
pub open spec fn far_end(e: Edge, dir: Direction) -> int {
    match dir {
        Direction::Outgoing => e.to,
        Direction::Incoming => e.from,
    }
}

/// The edges among `edges` that touch node `a` with their near end, the one
/// added last coming first.
pub open spec fn incident(edges: Seq<Edge>, a: int, dir: Direction) -> Seq<Edge>
    decreases edges.len(),
{
    if edges.len() == 0 {
        Seq::empty()
    } else if near_end(edges.last(), dir) == a {
        seq![edges.last()] + incident(edges.drop_last(), a, dir)
    } else {
        incident(edges.drop_last(), a, dir)
    }
}

/// `Graph::with_capacity(0, 0)`: a graph without nodes or edges.
#[verifier::external_body]
pub(crate) fn arena_new() -> (g: Arena)
    ensures
        arena_nodes(g) == Seq::<Node>::empty(),
        arena_edges(g) == Seq::<Edge>::empty(),
{
    Arena { inner: petgraph::graph::Graph::with_capacity(0, 0) }
}

/// `Graph::add_node`: stores `weight` behind the existing nodes and returns
/// its index, which is the number of nodes there were. Edges stay as they
/// are. With `usize` indices the call has no capacity to run out of.
#[verifier::external_body]
pub(crate) fn arena_add_node(g: &mut Arena, weight: Node) -> (idx: usize)
    ensures
        arena_nodes(*final(g)) == arena_nodes(*old(g)).push(weight),
        arena_edges(*final(g)) == arena_edges(*old(g)),
        idx == arena_nodes(*old(g)).len(),
{
    g.inner.add_node(weight).index()
}

/// `Graph::add_edge`: stores an edge from node `a` to node `b` behind the
/// existing edges. Parallel edges are kept apart. Nodes stay as they are.
/// The call panics where a node is missing, so both must exist. With `usize`
/// indices it has no capacity to run out of.
#[verifier::external_body]
pub(crate) fn arena_add_edge(g: &mut Arena, a: usize, b: usize, weight: Kind)
    requires
        a < arena_nodes(*old(g)).len(),
        b < arena_nodes(*old(g)).len(),
    ensures
        arena_nodes(*final(g)) == arena_nodes(*old(g)),
        arena_edges(*final(g)) == arena_edges(*old(g)).push(
            Edge { from: a as int, to: b as int, kind: weight },
        ),
{
    g.inner.add_edge(
        petgraph::graph::NodeIndex::new(a),
        petgraph::graph::NodeIndex::new(b),
        weight,
    );
}

/// `Graph::node_weight`: the weight stored at index `a`, if there is one.
#[verifier::external_body]
pub(crate) fn arena_node_weight(g: &Arena, a: usize) -> (res: Option<&Node>)
    ensures
        a < arena_nodes(*g).len() ==> res == Some(&arena_nodes(*g)[a as int]),
        a >= arena_nodes(*g).len() ==> res is None,
{
    g.inner.node_weight(petgraph::graph::NodeIndex::new(a))
}

/// `Graph::neighbors_directed`: for each edge that leaves `a` (or enters it,
/// by `dir`), the index of the node at its other end. A directed graph lists
/// them in reverse order of addition, once per edge.
#[verifier::external_body]
pub(crate) fn arena_neighbors(g: &Arena, a: usize, dir: Direction) -> (res: Vec<usize>)
    requires
        a < arena_nodes(*g).len(),
    ensures
        res@.len() == incident(arena_edges(*g), a as int, dir).len(),
        forall|k: int|
            0 <= k < res@.len() ==> res@[k] as int == far_end(
                #[trigger] incident(arena_edges(*g), a as int, dir)[k],
                dir,
            ),
{
    let dir = match dir {
        Direction::Outgoing => petgraph::Direction::Outgoing,
        Direction::Incoming => petgraph::Direction::Incoming,
    };
    g.inner.neighbors_directed(petgraph::graph::NodeIndex::new(a), dir).map(|n| n.index()).collect()
}

/// `Graph::edges`: for each edge that leaves `a`, the index of the node it
/// leads to and the weight it carries. A directed graph lists them in
/// reverse order of addition.
#[verifier::external_body]
pub(crate) fn arena_out_edges(g: &Arena, a: usize) -> (res: Vec<(usize, Kind)>)
    requires
        a < arena_nodes(*g).len(),
    ensures
        res@.len() == incident(arena_edges(*g), a as int, Direction::Outgoing).len(),
        forall|k: int|
            0 <= k < res@.len() ==> res@[k].0 as int == (#[trigger] incident(
                arena_edges(*g),
                a as int,
                Direction::Outgoing,
            )[k]).to && res@[k].1 == incident(arena_edges(*g), a as int, Direction::Outgoing)[k].kind,
{
    g.inner.edges(petgraph::graph::NodeIndex::new(a)).map(|e| (e.target().index(), *e.weight())).collect()
}

} // verus!
