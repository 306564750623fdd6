//! The dependency graph and its direct queries.

use crate::arena::{
    arena_add_edge, arena_add_node, arena_edges, arena_neighbors, arena_new, arena_node_weight,
    arena_nodes, arena_out_edges, far_end, incident, near_end, Arena, Direction, Edge,
};
use crate::package::{
    find_in, id_views, lemma_position_absent, lemma_position_found, lemma_position_meaning,
    position, Kind, ManifestMetadataView, Node, PackageId, PackageIdView,
};
use vstd::prelude::*;

verus! {

/// A node as the contracts see it.
pub struct NodeView {
    pub id: PackageIdView,
    pub metadata: ManifestMetadataView,
}

/// A graph as the contracts see it: its nodes in the order of their
/// indices, and its edges in the order in which they were added.
pub struct GraphView {
    pub nodes: Seq<NodeView>,
    pub edges: Seq<Edge>,
}

impl GraphView {
    /// The identities of the nodes, in the order of their indices.
    pub open spec fn ids(self) -> Seq<PackageIdView> {
        self.nodes.map_values(|n: NodeView| n.id)
    }

    /// No identity has two nodes, and every edge joins two nodes.
    pub open spec fn wf(self) -> bool {
        &&& self.ids().no_duplicates()
        &&& forall|k: int|
            0 <= k < self.edges.len() ==> 0 <= (#[trigger] self.edges[k]).from < self.nodes.len()
                && 0 <= self.edges[k].to < self.nodes.len()
    }

    /// The graph has a node for `id`.
    pub open spec fn contains(self, id: PackageIdView) -> bool {
        self.ids().contains(id)
    }

    /// The index of the node for `id`.
    pub open spec fn index_of(self, id: PackageIdView) -> Option<int> {
        position(self.ids(), id)
    }

    /// The nodes at the far end of the edges that leave node `a`, or enter
    /// it, by `dir`: one for each edge, the edge added last first.
    pub open spec fn neighbors(self, a: int, dir: Direction) -> Seq<int> {
        incident(self.edges, a, dir).map_values(|e: Edge| far_end(e, dir))
    }

    /// The identities of the neighbours of the node for `id`; none where
    /// the graph has no such node.
    pub open spec fn neighbor_ids(self, id: PackageIdView, dir: Direction) -> Seq<PackageIdView> {
        match self.index_of(id) {
            Some(a) => self.neighbors(a, dir).map_values(|b: int| self.nodes[b].id),
            None => Seq::empty(),
        }
    }

    /// The edges that leave the node for `id`, each as the package it leads
    /// to and the kind it carries, the edge added last first; none where
    /// the graph has no such node.
    pub open spec fn edge_ids(self, id: PackageIdView) -> Seq<(PackageIdView, Kind)> {
        match self.index_of(id) {
            Some(a) => incident(self.edges, a, Direction::Outgoing).map_values(
                |e: Edge| (self.nodes[e.to].id, e.kind),
            ),
            None => Seq::empty(),
        }
    }

    /// An edge leads from node `a` to node `b`.
    pub open spec fn has_edge(self, a: int, b: int) -> bool {
        exists|k: int|
            0 <= k < self.edges.len() && (#[trigger] self.edges[k]).from == a && self.edges[k].to
                == b
    }
}

/// The nodes `nodes` as the contracts see them.
pub open spec fn node_views(nodes: Seq<Node>) -> Seq<NodeView> {
    nodes.map_values(|n: Node| NodeView { id: n.id@, metadata: n.metadata@ })
}

/// The edges that the triples `edges` describe: from where, to where, and
/// why.
pub open spec fn edge_views(edges: Seq<(usize, usize, Kind)>) -> Seq<Edge> {
    edges.map_values(|e: (usize, usize, Kind)| Edge { from: e.0 as int, to: e.1 as int, kind: e.2 })
}

/// The model of what an arena holds.
pub open spec fn arena_view(g: Arena) -> GraphView {
    GraphView { nodes: node_views(arena_nodes(g)), edges: arena_edges(g) }
}

/// Each edge incident to `a` is one of `edges`, and touches `a`.
pub proof fn lemma_incident_members(edges: Seq<Edge>, a: int, dir: Direction)
    ensures
        forall|k: int|
            0 <= k < incident(edges, a, dir).len() ==> near_end(
                #[trigger] incident(edges, a, dir)[k],
                dir,
            ) == a && edges.contains(incident(edges, a, dir)[k]),
    decreases edges.len(),
{
    if edges.len() > 0 {
        let rest = edges.drop_last();
        lemma_incident_members(rest, a, dir);
        assert forall|k: int| 0 <= k < incident(edges, a, dir).len() implies near_end(
            #[trigger] incident(edges, a, dir)[k],
            dir,
        ) == a && edges.contains(incident(edges, a, dir)[k]) by {
            let e = incident(edges, a, dir)[k];
            if near_end(edges.last(), dir) == a && k == 0 {
                assert(edges[edges.len() - 1] == e);
            } else {
                let k2 = if near_end(edges.last(), dir) == a {
                    k - 1
                } else {
                    k
                };
                assert(incident(rest, a, dir)[k2] == e);
                assert(rest.contains(e));
                let j = choose|j: int| 0 <= j < rest.len() && rest[j] == e;
                assert(edges[j] == e);
            }
        }
    }
}

/// Each of `edges` that touches `a` is incident to `a`.
pub proof fn lemma_incident_complete(edges: Seq<Edge>, a: int, dir: Direction, k: int)
    requires
        0 <= k < edges.len(),
        near_end(edges[k], dir) == a,
    ensures
        incident(edges, a, dir).contains(edges[k]),
    decreases edges.len(),
{
    let rest = edges.drop_last();
    if k == edges.len() - 1 {
        assert(incident(edges, a, dir)[0] == edges[k]);
    } else {
        lemma_incident_complete(rest, a, dir, k);
        let j = choose|j: int|
            0 <= j < incident(rest, a, dir).len() && incident(rest, a, dir)[j] == rest[k];
        if near_end(edges.last(), dir) == a {
            assert(incident(edges, a, dir)[j + 1] == edges[k]);
        } else {
            assert(incident(edges, a, dir)[j] == edges[k]);
        }
    }
}

/// Edge symmetry: where `d` is among the direct dependencies of `p`, `p` is
/// among the direct dependents of `d`.
pub proof fn lemma_edge_symmetry(g: GraphView, p: PackageIdView, d: PackageIdView)
    requires
        g.wf(),
        g.neighbor_ids(p, Direction::Outgoing).contains(d),
    ensures
        g.neighbor_ids(d, Direction::Incoming).contains(p),
{
    lemma_position_meaning(g.ids(), p);
    let a = g.index_of(p)->0;
    let out = g.neighbors(a, Direction::Outgoing);
    let near = incident(g.edges, a, Direction::Outgoing);
    let k = choose|k: int|
        0 <= k < g.neighbor_ids(p, Direction::Outgoing).len() && g.neighbor_ids(
            p,
            Direction::Outgoing,
        )[k] == d;
    let e = near[k];
    lemma_incident_members(g.edges, a, Direction::Outgoing);
    assert(g.edges.contains(e));
    let at = choose|at: int| 0 <= at < g.edges.len() && g.edges[at] == e;
    assert(0 <= g.edges[at].to < g.nodes.len());
    let b = e.to;
    assert(out[k] == b);
    assert(g.ids()[b] == d);
    assert(g.ids()[a] == p);
    lemma_position_meaning(g.ids(), d);
    let b2 = g.index_of(d)->0;
    assert(g.ids()[b2] == g.ids()[b]);
    lemma_incident_complete(g.edges, b, Direction::Incoming, at);
    let back = incident(g.edges, b, Direction::Incoming);
    let j = choose|j: int| 0 <= j < back.len() && back[j] == e;
    assert(g.neighbors(b, Direction::Incoming)[j] == a);
    assert(g.neighbor_ids(d, Direction::Incoming)[j] == p);
}

/// A dependency graph: a node for each package, an edge for each declared
/// requirement that one package meets for another.
#[derive(Debug)]
pub struct Graph {
    graph: Arena,
    /// The identity of each node, at the node's index.
    nodes: Vec<PackageId>,
}

impl View for Graph {
    type V = GraphView;

    closed spec fn view(&self) -> GraphView {
        arena_view(self.graph)
    }
}

impl Graph {
    #[verifier::type_invariant]
    spec fn inv(&self) -> bool {
        &&& arena_view(self.graph).wf()
        &&& id_views(self.nodes@) == arena_view(self.graph).ids()
    }

    /// Puts a graph together from its storage and the table of its
    /// identities.
    pub(crate) fn from_parts(graph: Arena, nodes: Vec<PackageId>) -> (res: Graph)
        requires
            arena_view(graph).wf(),
            id_views(nodes@) == arena_view(graph).ids(),
        ensures
            res@ == arena_view(graph),
    {
        Graph { graph, nodes }
    }

    /// Puts a graph together from the nodes and edges given, each edge by
    /// the places of its two nodes among `nodes` and its kind.
    ///
    /// There is no such graph where two nodes are of one package, or where
    /// an edge names a node that is not there.
    pub fn assemble(nodes: &[Node], edges: &[(usize, usize, Kind)]) -> (res: Option<Graph>)
        ensures
            match res {
                Some(g) => g@ == (GraphView {
                    nodes: node_views(nodes@),
                    edges: edge_views(edges@),
                }) && g@.wf(),
                None => !(GraphView { nodes: node_views(nodes@), edges: edge_views(edges@) }).wf(),
            },
    {
        let ghost want = GraphView { nodes: node_views(nodes@), edges: edge_views(edges@) };
        let mut arena = arena_new();
        let mut ids: Vec<PackageId> = Vec::new();
        let mut i: usize = 0;
        proof {
            assert(arena_view(arena).nodes =~= want.nodes.take(0));
            assert(id_views(ids@) =~= arena_view(arena).ids());
        }
        while i < nodes.len()
            invariant
                i <= nodes.len(),
                want == (GraphView { nodes: node_views(nodes@), edges: edge_views(edges@) }),
                arena_view(arena).nodes == want.nodes.take(i as int),
                arena_edges(arena) == Seq::<Edge>::empty(),
                id_views(ids@) == arena_view(arena).ids(),
                arena_view(arena).ids().no_duplicates(),
            decreases nodes.len() - i,
        {
            let ghost before = arena_view(arena);
            proof {
                lemma_position_meaning(id_views(ids@), nodes@[i as int].id@);
            }
            if find_in(&ids, &nodes[i].id).is_some() {
                proof {
                    let at = choose|at: int|
                        0 <= at < before.ids().len() && before.ids()[at] == nodes@[i as int].id@;
                    assert(want.ids()[at] == want.nodes[at].id);
                    assert(want.ids()[i as int] == want.nodes[i as int].id);
                    assert(want.nodes.take(i as int)[at] == want.nodes[at]);
                    assert(before.ids()[at] == before.nodes[at].id);
                }
                return None;
            }
            let node = nodes[i].clone();
            arena_add_node(&mut arena, node);
            ids.push(nodes[i].id.clone());
            proof {
                let now = arena_view(arena);
                assert(now.nodes =~= before.nodes.push(want.nodes[i as int]));
                assert(now.nodes =~= want.nodes.take(i + 1));
                assert(now.ids() =~= before.ids().push(nodes@[i as int].id@));
                assert(id_views(ids@) =~= now.ids());
            }
            i = i + 1;
        }
        let n = nodes.len();
        let mut k: usize = 0;
        proof {
            assert(want.nodes.take(n as int) =~= want.nodes);
            assert(arena_edges(arena) =~= want.edges.take(0));
        }
        while k < edges.len()
            invariant
                k <= edges.len(),
                n == nodes.len(),
                want == (GraphView { nodes: node_views(nodes@), edges: edge_views(edges@) }),
                arena_view(arena).nodes == want.nodes,
                arena_edges(arena) == want.edges.take(k as int),
                id_views(ids@) == arena_view(arena).ids(),
                arena_view(arena).ids().no_duplicates(),
                forall|j: int|
                    0 <= j < k ==> 0 <= (#[trigger] want.edges[j]).from < n && 0 <= want.edges[j].to
                        < n,
            decreases edges.len() - k,
        {
            let from = edges[k].0;
            let to = edges[k].1;
            let kind = edges[k].2;
            assert(want.edges[k as int] == Edge { from: from as int, to: to as int, kind });
            if from >= n || to >= n {
                return None;
            }
            let ghost before = arena_edges(arena);
            arena_add_edge(&mut arena, from, to, kind);
            proof {
                assert(arena_edges(arena) =~= want.edges.take(k + 1));
            }
            k = k + 1;
        }
        proof {
            assert(want.edges.take(edges@.len() as int) =~= want.edges);
            assert(arena_view(arena) == want);
        }
        Some(Graph::from_parts(arena, ids))
    }

    /// The index of the node for `id`.
    pub(crate) fn find(&self, id: &PackageId) -> (res: Option<usize>)
        ensures
            match res {
                Some(a) => self@.index_of(id@) == Some(a as int) && a < self@.nodes.len(),
                None => self@.index_of(id@) is None,
            },
    {
        proof {
            use_type_invariant(self);
        }
        let mut i: usize = 0;
        while i < self.nodes.len()
            invariant
                i <= self.nodes.len(),
                id_views(self.nodes@) == self@.ids(),
                forall|j: int| 0 <= j < i ==> self@.ids()[j] != id@,
            decreases self.nodes.len() - i,
        {
            if self.nodes[i].same(id) {
                proof {
                    assert(id_views(self.nodes@)[i as int] == id@);
                    lemma_position_found(self@.ids(), id@, i as int);
                }
                return Some(i);
            }
            i = i + 1;
        }
        proof {
            assert(id_views(self.nodes@).len() == self.nodes@.len());
            lemma_position_absent(self@.ids(), id@);
        }
        None
    }

    /// Whether the graph has a node for `id`.
    pub fn contains(&self, id: &PackageId) -> (res: bool)
        ensures
            res == self@.contains(id@),
    {
        proof {
            lemma_position_meaning(self@.ids(), id@);
        }
        self.find(id).is_some()
    }

    /// The identities of all nodes, in the order of their indices.
    pub fn get_all_pkg_ids(&self) -> (res: Vec<PackageId>)
        ensures
            res.deep_view() == self@.ids(),
            self@.wf(),
    {
        proof {
            use_type_invariant(self);
        }
        let mut res: Vec<PackageId> = Vec::new();
        let mut i: usize = 0;
        while i < self.nodes.len()
            invariant
                i <= self.nodes.len(),
                res.len() == i,
                forall|j: int| 0 <= j < i ==> res[j]@ == self.nodes[j]@,
            decreases self.nodes.len() - i,
        {
            res.push(self.nodes[i].clone());
            i = i + 1;
        }
        assert(res.deep_view() =~= id_views(self.nodes@));
        res
    }

    /// How many nodes the graph has.
    pub(crate) fn node_count(&self) -> (res: usize)
        ensures
            res == self@.nodes.len(),
            self@.wf(),
    {
        proof {
            use_type_invariant(self);
            assert(id_views(self.nodes@).len() == self.nodes@.len());
        }
        self.nodes.len()
    }

    /// The identity of node `a`.
    pub(crate) fn id_at(&self, a: usize) -> (res: &PackageId)
        requires
            a < self@.nodes.len(),
        ensures
            res@ == self@.nodes[a as int].id,
    {
        proof {
            use_type_invariant(self);
            assert(id_views(self.nodes@).len() == self.nodes@.len());
            assert(self@.ids().len() == self@.nodes.len());
            assert(id_views(self.nodes@)[a as int] == self.nodes@[a as int]@);
            assert(self@.ids()[a as int] == self@.nodes[a as int].id);
        }
        &self.nodes[a]
    }

    /// The indices of the neighbours of node `a`.
    pub(crate) fn adjacent(&self, a: usize, dir: Direction) -> (res: Vec<usize>)
        requires
            a < self@.nodes.len(),
        ensures
            res@.map_values(|b: usize| b as int) == self@.neighbors(a as int, dir),
            forall|k: int| 0 <= k < res@.len() ==> res@[k] < self@.nodes.len(),
    {
        proof {
            use_type_invariant(self);
        }
        let res = arena_neighbors(&self.graph, a, dir);
        proof {
            let edges = arena_edges(self.graph);
            let near = incident(edges, a as int, dir);
            lemma_incident_members(edges, a as int, dir);
            assert forall|k: int| 0 <= k < res@.len() implies res@[k] < self@.nodes.len() by {
                let e = near[k];
                assert(edges.contains(e));
                let at = choose|at: int| 0 <= at < edges.len() && edges[at] == e;
                assert(self@.edges[at] == e);
            }
            assert(res@.map_values(|b: usize| b as int) =~= self@.neighbors(a as int, dir));
        }
        res
    }

    /// The identities at the far end of the edges that leave the node for
    /// `pkg_id`, or enter it.
    fn neighbors_of(&self, pkg_id: &PackageId, dir: Direction) -> (res: Vec<PackageId>)
        ensures
            res.deep_view() == self@.neighbor_ids(pkg_id@, dir),
            self@.wf(),
    {
        proof {
            use_type_invariant(self);
        }
        let mut res: Vec<PackageId> = Vec::new();
        match self.find(pkg_id) {
            None => {
                assert(res.deep_view() =~= Seq::<PackageIdView>::empty());
            },
            Some(a) => {
                let found = self.adjacent(a, dir);
                let ghost near = self@.neighbors(a as int, dir);
                let mut k: usize = 0;
                while k < found.len()
                    invariant
                        k <= found.len(),
                        res.len() == k,
                        self@ == arena_view(self.graph),
                        found@.map_values(|b: usize| b as int) == near,
                        forall|j: int| 0 <= j < found@.len() ==> found@[j] < self@.nodes.len(),
                        forall|j: int| 0 <= j < k ==> res[j]@ == self@.nodes[near[j]].id,
                    decreases found.len() - k,
                {
                    let b = found[k];
                    assert(near[k as int] == found@.map_values(|b: usize| b as int)[k as int]);
                    let node = arena_node_weight(&self.graph, b).unwrap();
                    res.push(node.id.clone());
                    k = k + 1;
                }
                assert(near.len() == found@.map_values(|b: usize| b as int).len());
                assert(res.deep_view() =~= self@.neighbor_ids(pkg_id@, dir));
            },
        }
        res
    }

    /// The edges that leave the node for `pkg_id`: for each, the package it
    /// leads to and why `pkg_id` needs it, the edge added last first. None
    /// where the graph has no node for `pkg_id`.
    pub fn get_edges_of(&self, pkg_id: &PackageId) -> (res: Vec<(PackageId, Kind)>)
        ensures
            res@.len() == self@.edge_ids(pkg_id@).len(),
            forall|k: int|
                0 <= k < res@.len() ==> (res@[k].0@, res@[k].1) == #[trigger] self@.edge_ids(
                    pkg_id@,
                )[k],
            self@.wf(),
    {
        proof {
            use_type_invariant(self);
        }
        let mut res: Vec<(PackageId, Kind)> = Vec::new();
        match self.find(pkg_id) {
            None => {},
            Some(a) => {
                let found = arena_out_edges(&self.graph, a);
                let ghost edges = arena_edges(self.graph);
                let ghost near = incident(edges, a as int, Direction::Outgoing);
                proof {
                    lemma_incident_members(edges, a as int, Direction::Outgoing);
                }
                let mut k: usize = 0;
                while k < found.len()
                    invariant
                        k <= found.len(),
                        res.len() == k,
                        self@ == arena_view(self.graph),
                        self@.wf(),
                        edges == arena_edges(self.graph),
                        near == incident(edges, a as int, Direction::Outgoing),
                        found@.len() == near.len(),
                        forall|j: int|
                            0 <= j < found@.len() ==> found@[j].0 as int == (#[trigger] near[j]).to
                                && found@[j].1 == near[j].kind,
                        forall|j: int| 0 <= j < near.len() ==> edges.contains(#[trigger] near[j]),
                        forall|j: int|
                            0 <= j < k ==> res@[j].0@ == self@.nodes[near[j].to].id && res@[j].1
                                == near[j].kind,
                    decreases found.len() - k,
                {
                    let b = found[k].0;
                    let kind = found[k].1;
                    proof {
                        let e = near[k as int];
                        assert(edges.contains(e));
                        let at = choose|at: int| 0 <= at < edges.len() && edges[at] == e;
                        assert(self@.edges[at] == e);
                    }
                    let node = arena_node_weight(&self.graph, b).unwrap();
                    res.push((node.id.clone(), kind));
                    k = k + 1;
                }
            },
        }
        res
    }

    /// The packages that `pkg_id` depends on directly: one for each edge
    /// that leaves its node, the edge added last first. None where the graph
    /// has no node for `pkg_id`.
    pub fn get_dependencies_of(&self, pkg_id: &PackageId) -> (res: Vec<PackageId>)
        ensures
            res.deep_view() == self@.neighbor_ids(pkg_id@, Direction::Outgoing),
            self@.wf(),
    {
        self.neighbors_of(pkg_id, Direction::Outgoing)
    }

    /// The packages that depend on `pkg_id` directly: one for each edge
    /// that enters its node, the edge added last first. None where the graph
    /// has no node for `pkg_id`.
    pub fn get_reverse_dependencies_of(&self, pkg_id: &PackageId) -> (res: Vec<PackageId>)
        ensures
            res.deep_view() == self@.neighbor_ids(pkg_id@, Direction::Incoming),
            self@.wf(),
    {
        self.neighbors_of(pkg_id, Direction::Incoming)
    }
}

} // verus!
