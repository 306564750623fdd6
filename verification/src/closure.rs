//! Everything that a package depends on, directly or through others.

use crate::arena::{incident, Direction};
use crate::graph::{lemma_incident_complete, lemma_incident_members, Graph, GraphView};
use crate::package::{lemma_position_meaning, PackageId, PackageIdView};
use vstd::prelude::*;

verus! {

impl GraphView {
    /// The step of `path` from its place `k` to the next follows an edge.
    pub open spec fn follows_edge(self, path: Seq<int>, k: int) -> bool {
        self.has_edge(path[k], path[k + 1])
    }

    /// `path` is a walk: a run of nodes, each joined to the next by an edge
    /// that leaves it. A single node is a walk.
    pub open spec fn is_walk(self, path: Seq<int>) -> bool {
        &&& path.len() > 0
        &&& forall|k: int| 0 <= k < path.len() - 1 ==> #[trigger] self.follows_edge(path, k)
    }

    /// A walk leads from node `a` to node `b`.
    pub open spec fn reaches(self, a: int, b: int) -> bool {
        exists|path: Seq<int>| #[trigger] self.is_walk(path) && path[0] == a && path.last() == b
    }

    /// `id` is another package than `root`, and a walk leads from the node
    /// for `root` to the node for `id`.
    pub open spec fn depends_transitively(self, root: PackageIdView, id: PackageIdView) -> bool {
        match (self.index_of(root), self.index_of(id)) {
            (Some(r), Some(b)) => b != r && self.reaches(r, b),
            _ => false,
        }
    }

    /// The identities of the nodes below index `n`, other than `r`, that a
    /// walk from `r` leads to, in the order of their indices.
    pub open spec fn reached_below(self, r: int, n: int) -> Seq<PackageIdView>
        decreases n,
    {
        if n <= 0 {
            Seq::empty()
        } else if n - 1 != r && self.reaches(r, n - 1) {
            self.reached_below(r, n - 1).push(self.nodes[n - 1].id)
        } else {
            self.reached_below(r, n - 1)
        }
    }

    /// The transitive dependencies of `root`, in the order of their node
    /// indices: none where the graph has no node for `root`.
    pub open spec fn recursive_dependencies_of(self, root: PackageIdView) -> Seq<PackageIdView> {
        match self.index_of(root) {
            Some(r) => self.reached_below(r, self.nodes.len() as int),
            None => Seq::empty(),
        }
    }
}

/// Every edge that leaves `a` leads to a node that is marked in `seen`.
pub open spec fn closed_at(g: GraphView, seen: Seq<bool>, a: int) -> bool {
    forall|b: int| #[trigger] g.has_edge(a, b) ==> 0 <= b < seen.len() && seen[b]
}

/// Every marked node that is neither waiting in `pending` nor `skip` has
/// all its edges followed.
pub open spec fn settled(g: GraphView, seen: Seq<bool>, pending: Seq<usize>, skip: int) -> bool {
    forall|x: int|
        0 <= x < seen.len() && x != skip && #[trigger] seen[x] && !pending.contains(x as usize)
            ==> closed_at(g, seen, x)
}

/// How many places of `s` are not marked.
pub open spec fn count_false(s: Seq<bool>) -> nat
    decreases s.len(),
{
    if s.len() == 0 {
        0
    } else {
        count_false(s.drop_last()) + if s.last() {
            0nat
        } else {
            1nat
        }
    }
}

/// Marking a place that was not marked leaves one fewer.
proof fn lemma_mark(s: Seq<bool>, i: int)
    requires
        0 <= i < s.len(),
        !s[i],
    ensures
        count_false(s.update(i, true)) == count_false(s) - 1,
    decreases s.len(),
{
    let t = s.update(i, true);
    if i == s.len() - 1 {
        assert(t.drop_last() =~= s.drop_last());
    } else {
        lemma_mark(s.drop_last(), i);
        assert(t.drop_last() =~= s.drop_last().update(i, true));
    }
}

/// The far ends of the edges that leave `a` are the nodes that an edge
/// leads to from `a`.
pub proof fn lemma_neighbors_are_edges(g: GraphView, a: int, b: int)
    ensures
        g.neighbors(a, Direction::Outgoing).contains(b) <==> g.has_edge(a, b),
{
    let dir = Direction::Outgoing;
    let near = incident(g.edges, a, dir);
    lemma_incident_members(g.edges, a, dir);
    if g.neighbors(a, dir).contains(b) {
        let k = choose|k: int| 0 <= k < g.neighbors(a, dir).len() && g.neighbors(a, dir)[k] == b;
        let e = near[k];
        assert(g.edges.contains(e));
        let at = choose|at: int| 0 <= at < g.edges.len() && g.edges[at] == e;
        assert(g.edges[at].from == a && g.edges[at].to == b);
    }
    if g.has_edge(a, b) {
        let at = choose|at: int|
            0 <= at < g.edges.len() && (#[trigger] g.edges[at]).from == a && g.edges[at].to == b;
        lemma_incident_complete(g.edges, a, dir, at);
        let k = choose|k: int| 0 <= k < near.len() && near[k] == g.edges[at];
        assert(g.neighbors(a, dir)[k] == b);
    }
}

/// A walk from a marked node stays among the marked nodes, where every
/// marked node has all its edges followed.
proof fn lemma_walk_stays_marked(g: GraphView, seen: Seq<bool>, path: Seq<int>)
    requires
        g.is_walk(path),
        0 <= path[0] < seen.len(),
        seen[path[0]],
        settled(g, seen, Seq::empty(), -1),
    ensures
        0 <= path.last() < seen.len(),
        seen[path.last()],
    decreases path.len(),
{
    if path.len() > 1 {
        let front = path.drop_last();
        assert forall|k: int| 0 <= k < front.len() - 1 implies #[trigger] g.follows_edge(
            front,
            k,
        ) by {
            assert(g.follows_edge(path, k));
        }
        lemma_walk_stays_marked(g, seen, front);
        let x = front.last();
        assert(seen[x]);
        assert(closed_at(g, seen, x));
        assert(g.follows_edge(path, path.len() - 2));
        assert(g.has_edge(x, path.last()));
    }
}

/// A walk can be taken one edge further.
proof fn lemma_walk_on(g: GraphView, r: int, a: int, b: int)
    requires
        g.reaches(r, a),
        g.has_edge(a, b),
    ensures
        g.reaches(r, b),
{
    let path = choose|path: Seq<int>| #[trigger] g.is_walk(path) && path[0] == r && path.last() == a;
    let longer = path.push(b);
    assert forall|k: int| 0 <= k < longer.len() - 1 implies #[trigger] g.follows_edge(
        longer,
        k,
    ) by {
        if k < path.len() - 1 {
            assert(g.follows_edge(path, k));
        }
    }
    assert(g.is_walk(longer) && longer[0] == r && longer.last() == b);
}

/// What [`GraphView::reached_below`] holds: the identity of each node below
/// `n`, other than `r`, that a walk from `r` leads to, and nothing else.
proof fn lemma_reached_below(g: GraphView, r: int, n: int)
    requires
        g.wf(),
        0 <= n <= g.nodes.len(),
    ensures
        forall|id: PackageIdView|
            g.reached_below(r, n).contains(id) <==> exists|b: int|
                0 <= b < n && b != r && g.reaches(r, b) && #[trigger] g.ids()[b] == id,
        g.reached_below(r, n).no_duplicates(),
    decreases n,
{
    if n > 0 {
        lemma_reached_below(g, r, n - 1);
        let before = g.reached_below(r, n - 1);
        let now = g.reached_below(r, n);
        let last = g.nodes[n - 1].id;
        assert(g.ids()[n - 1] == last);
        let taken = n - 1 != r && g.reaches(r, n - 1);
        assert forall|id: PackageIdView| now.contains(id) <==> exists|b: int|
            0 <= b < n && b != r && g.reaches(r, b) && #[trigger] g.ids()[b] == id by {
            if now.contains(id) {
                let k = choose|k: int| 0 <= k < now.len() && now[k] == id;
                if taken && k == now.len() - 1 {
                    assert(g.ids()[n - 1] == id);
                } else {
                    assert(before[k] == id);
                    assert(before.contains(id));
                    let b = choose|b: int|
                        0 <= b < n - 1 && b != r && g.reaches(r, b) && #[trigger] g.ids()[b] == id;
                    assert(0 <= b < n && b != r && g.reaches(r, b) && g.ids()[b] == id);
                }
            }
            if exists|b: int|
                0 <= b < n && b != r && g.reaches(r, b) && #[trigger] g.ids()[b] == id {
                let b = choose|b: int|
                    0 <= b < n && b != r && g.reaches(r, b) && #[trigger] g.ids()[b] == id;
                if b == n - 1 {
                    assert(now[now.len() - 1] == id);
                } else {
                    assert(before.contains(id));
                    let k = choose|k: int| 0 <= k < before.len() && before[k] == id;
                    assert(now[k] == id);
                }
            }
        }
        if taken {
            assert forall|i: int, j: int| 0 <= i < j < now.len() implies now[i] != now[j] by {
                if j == now.len() - 1 {
                    if now[i] == last {
                        assert(before[i] == last);
                        assert(before.contains(last));
                        let b = choose|b: int|
                            0 <= b < n - 1 && b != r && g.reaches(r, b) && #[trigger] g.ids()[b]
                                == last;
                        assert(g.ids()[b] == g.ids()[n - 1]);
                    }
                } else {
                    assert(before[i] != before[j]);
                }
            }
        }
    }
}

/// The transitive dependencies of `root` are the packages, other than
/// `root`, that a walk from `root` leads to. None is listed twice.
pub proof fn lemma_recursive_dependencies(g: GraphView, root: PackageIdView)
    requires
        g.wf(),
    ensures
        forall|id: PackageIdView|
            g.recursive_dependencies_of(root).contains(id) <==> g.depends_transitively(root, id),
        !g.recursive_dependencies_of(root).contains(root),
        g.recursive_dependencies_of(root).no_duplicates(),
{
    let deps = g.recursive_dependencies_of(root);
    lemma_position_meaning(g.ids(), root);
    match g.index_of(root) {
        None => {
            assert forall|id: PackageIdView| !g.depends_transitively(root, id) by {}
        },
        Some(r) => {
            let n = g.nodes.len() as int;
            lemma_reached_below(g, r, n);
            assert forall|id: PackageIdView| deps.contains(id) <==> g.depends_transitively(
                root,
                id,
            ) by {
                lemma_position_meaning(g.ids(), id);
                if deps.contains(id) {
                    let b = choose|b: int|
                        0 <= b < n && b != r && g.reaches(r, b) && #[trigger] g.ids()[b] == id;
                    assert(g.ids().contains(id));
                    let at = g.index_of(id)->0;
                    assert(g.ids()[at] == g.ids()[b]);
                }
                if g.depends_transitively(root, id) {
                    let at = g.index_of(id)->0;
                    assert(0 <= at < n && at != r && g.reaches(r, at) && g.ids()[at] == id);
                }
            }
            if deps.contains(root) {
                let b = choose|b: int|
                    0 <= b < n && b != r && g.reaches(r, b) && #[trigger] g.ids()[b] == root;
                assert(g.ids()[b] == g.ids()[r]);
            }
        },
    }
}

/// What a closure query gives back.
#[derive(Debug)]
pub struct RecursiveDependencies {
    /// The transitive dependencies, in the order of their nodes.
    pub ids: Vec<PackageId>,
    /// The identity that was asked for, where the graph has no node for it.
    /// This is worth a diagnostic and is no failure: such a package has no
    /// dependencies here.
    pub dangling: Option<PackageId>,
}

impl Graph {
    /// Everything that `root_pkg_id` depends on, directly or through other
    /// packages, without `root_pkg_id` itself.
    ///
    /// The walk keeps the nodes that are still to be expanded on a stack and
    /// expands each node once, so cycles do no harm.
    pub fn get_recursive_dependencies_of(&self, root_pkg_id: &PackageId) -> (res:
        RecursiveDependencies)
        ensures
            self@.wf(),
            res.ids.deep_view() == self@.recursive_dependencies_of(root_pkg_id@),
            forall|id: PackageIdView|
                res.ids.deep_view().contains(id) <==> self@.depends_transitively(
                    root_pkg_id@,
                    id,
                ),
            !res.ids.deep_view().contains(root_pkg_id@),
            res.ids.deep_view().no_duplicates(),
            res.ids.len() <= self@.nodes.len(),
            match res.dangling {
                Some(d) => d@ == root_pkg_id@ && !self@.contains(root_pkg_id@),
                None => self@.contains(root_pkg_id@),
            },
    {
        let n = self.node_count();
        let ghost g = self@;
        proof {
            lemma_recursive_dependencies(g, root_pkg_id@);
            lemma_position_meaning(g.ids(), root_pkg_id@);
        }
        let r = match self.find(root_pkg_id) {
            Some(r) => r,
            None => {
                let ids: Vec<PackageId> = Vec::new();
                assert(ids.deep_view() =~= Seq::<PackageIdView>::empty());
                return RecursiveDependencies { ids, dangling: Some(root_pkg_id.clone()) };
            },
        };
        let mut seen: Vec<bool> = Vec::new();
        while seen.len() < n
            invariant
                seen.len() <= n,
                forall|k: int| 0 <= k < seen.len() ==> !seen[k],
            decreases n - seen.len(),
        {
            seen.push(false);
        }
        seen.set(r, true);
        let mut pending: Vec<usize> = Vec::new();
        pending.push(r);
        proof {
            assert(g.is_walk(seq![r as int]));
            assert(g.reaches(r as int, r as int));
            assert(pending@[0] == r);
        }
        while pending.len() > 0
            invariant
                g == self@,
                g.wf(),
                n == g.nodes.len(),
                seen.len() == n,
                r < n,
                seen[r as int],
                forall|b: int| 0 <= b < n && seen[b] ==> g.reaches(r as int, b),
                forall|k: int| 0 <= k < pending.len() ==> pending[k] < n && seen[pending[k] as int],
                settled(g, seen@, pending@, -1),
            decreases count_false(seen@), pending.len(),
        {
            let ghost before = pending@;
            let a = pending.pop().unwrap();
            let next = self.adjacent(a, Direction::Outgoing);
            let ghost unseen = count_false(seen@);
            let ghost waiting = pending@.len();
            proof {
                assert forall|x: int|
                    0 <= x < seen.len() && x != a && #[trigger] seen[x] && !pending@.contains(
                        x as usize,
                    ) implies closed_at(g, seen@, x) by {
                    if before.contains(x as usize) {
                        let k = choose|k: int| 0 <= k < before.len() && before[k] == x as usize;
                        assert(pending@[k] == x as usize);
                    }
                }
            }
            let mut j: usize = 0;
            while j < next.len()
                invariant
                    g == self@,
                    g.wf(),
                    n == g.nodes.len(),
                    seen.len() == n,
                    r < n,
                    a < n,
                    seen[r as int],
                    seen[a as int],
                    j <= next.len(),
                    next@.map_values(|b: usize| b as int) == g.neighbors(
                        a as int,
                        Direction::Outgoing,
                    ),
                    forall|k: int| 0 <= k < next@.len() ==> next@[k] < n,
                    forall|b: int| 0 <= b < n && seen[b] ==> g.reaches(r as int, b),
                    forall|k: int|
                        0 <= k < pending.len() ==> pending[k] < n && seen[pending[k] as int],
                    settled(g, seen@, pending@, a as int),
                    forall|k: int| 0 <= k < j ==> seen[next@[k] as int],
                    count_false(seen@) <= unseen,
                    pending.len() - waiting == unseen - count_false(seen@),
                decreases next.len() - j,
            {
                let b = next[j];
                if !seen[b] {
                    let ghost marks = seen@;
                    let ghost stack = pending@;
                    proof {
                        lemma_mark(seen@, b as int);
                        assert(g.neighbors(a as int, Direction::Outgoing)[j as int] == next@.map_values(
                            |b: usize| b as int,
                        )[j as int]);
                        assert(g.neighbors(a as int, Direction::Outgoing).contains(b as int));
                        lemma_neighbors_are_edges(g, a as int, b as int);
                        lemma_walk_on(g, r as int, a as int, b as int);
                    }
                    seen.set(b, true);
                    pending.push(b);
                    proof {
                        assert(pending@[pending.len() - 1] == b);
                        assert forall|x: int|
                            0 <= x < seen.len() && x != a && #[trigger] seen[x]
                                && !pending@.contains(x as usize) implies closed_at(
                            g,
                            seen@,
                            x,
                        ) by {
                            assert(x != b);
                            assert(marks[x]);
                            if stack.contains(x as usize) {
                                let k = choose|k: int|
                                    0 <= k < stack.len() && stack[k] == x as usize;
                                assert(pending@[k] == x as usize);
                            }
                            assert(closed_at(g, marks, x));
                        }
                    }
                }
                j = j + 1;
            }
            proof {
                assert(closed_at(g, seen@, a as int)) by {
                    assert forall|b: int| #[trigger] g.has_edge(a as int, b) implies 0 <= b
                        < seen.len() && seen[b] by {
                        lemma_neighbors_are_edges(g, a as int, b);
                        let near = g.neighbors(a as int, Direction::Outgoing);
                        let k = choose|k: int| 0 <= k < near.len() && near[k] == b;
                        assert(next@.map_values(|b: usize| b as int)[k] == b);
                        assert(seen[next@[k] as int]);
                    }
                }
            }
        }
        proof {
            assert(pending@ =~= Seq::<usize>::empty());
            assert forall|b: int| 0 <= b < n implies seen[b] == g.reaches(r as int, b) by {
                if g.reaches(r as int, b) {
                    let path = choose|path: Seq<int>|
                        #[trigger] g.is_walk(path) && path[0] == r as int && path.last() == b;
                    lemma_walk_stays_marked(g, seen@, path);
                }
            }
        }
        let mut ids: Vec<PackageId> = Vec::new();
        let mut i: usize = 0;
        while i < n
            invariant
                g == self@,
                n == g.nodes.len(),
                seen.len() == n,
                i <= n,
                forall|b: int| 0 <= b < n ==> seen[b] == g.reaches(r as int, b),
                ids.deep_view() == g.reached_below(r as int, i as int),
                ids.len() <= i,
            decreases n - i,
        {
            if seen[i] && i != r {
                let ghost had = ids.deep_view();
                ids.push(self.id_at(i).clone());
                assert(ids.deep_view() =~= had.push(g.nodes[i as int].id));
            }
            i = i + 1;
        }
        RecursiveDependencies { ids, dangling: None }
    }
}

} // verus!
