//! Building a graph from a resolution snapshot.
//!
//! The walk starts from the roots and keeps the nodes that are still to be
//! expanded on a stack. A package gets its node the first time it is met,
//! and is put on the stack then and never again.

use crate::arena::{
    arena_add_edge, arena_add_node, arena_new, incident, Arena, Direction, Edge,
};
use crate::error::Error;
use crate::graph::{arena_view, lemma_incident_members, Graph, GraphView, NodeView};
use crate::package::{
    dep_matches, find_in, id_views, lemma_position_meaning, package_ids, position, Dependency,
    Kind, Lookup, Node, PackageId, PackageIdView, PackageSet,
};
use crate::platform::{admits, cfgs_view, platform_admits, target_view, Cfg};
use crate::resolve::Resolve;
use vstd::prelude::*;
use vstd::set_lib::{lemma_int_range, lemma_len_subset, set_int_range};

verus! {

/// An edge that a package is owed: the package it leads to, and why.
pub struct Link {
    pub to: PackageIdView,
    pub kind: Kind,
}

/// What a graph is built from, as the contracts see it.
pub struct Scene {
    pub resolve: Resolve,
    pub packages: PackageSet,
    pub target: Option<Seq<char>>,
    pub cfgs: Option<Seq<Cfg>>,
}

/// The kinds of the requirements among `declared` that the package `raw`
/// meets and that count on the platform, in the order of declaration.
pub open spec fn admitted_kinds(
    declared: Seq<Dependency>,
    raw: PackageIdView,
    target: Option<Seq<char>>,
    cfgs: Option<Seq<Cfg>>,
) -> Seq<Kind>
    decreases declared.len(),
{
    if declared.len() == 0 {
        Seq::empty()
    } else {
        let d = declared.last();
        let rest = admitted_kinds(declared.drop_last(), raw, target, cfgs);
        if dep_matches(d, raw) && admits(d.platform, target, cfgs) {
            rest.push(d.kind)
        } else {
            rest
        }
    }
}

/// The links that the chosen package `raw` gives rise to: one to the
/// package used in its place for each requirement it meets.
pub open spec fn links_to(scene: Scene, declared: Seq<Dependency>, raw: PackageIdView) -> Seq<
    Link,
> {
    admitted_kinds(declared, raw, scene.target, scene.cfgs).map_values(
        |kind: Kind| Link { to: scene.resolve.effective(raw), kind },
    )
}

/// The links that the chosen packages `chosen` give rise to, one package
/// after the other.
pub open spec fn links_through(scene: Scene, declared: Seq<Dependency>, chosen: Seq<PackageId>) -> Seq<
    Link,
>
    decreases chosen.len(),
{
    if chosen.len() == 0 {
        Seq::empty()
    } else {
        links_through(scene, declared, chosen.drop_last()) + links_to(
            scene,
            declared,
            chosen.last()@,
        )
    }
}

impl Scene {
    /// The manifest of `id` is at hand.
    pub open spec fn available(self, id: PackageIdView) -> bool {
        self.packages.lookup(id) is Found
    }

    /// The edges that leave `p`, in the order in which they are made: for
    /// each package chosen for `p`, in turn, one edge for each requirement
    /// of `p` that it meets and that counts on the platform. A package whose
    /// manifest is not at hand has none.
    pub open spec fn links_of(self, p: PackageIdView) -> Seq<Link> {
        match self.packages.lookup(p) {
            Lookup::Found(pkg) => links_through(
                self,
                pkg.dependencies@,
                self.resolve.chosen_for(p),
            ),
            _ => Seq::empty(),
        }
    }

    /// The packages that `p` was given: for each package chosen for `p`, in
    /// turn, the package used in its place. Whether a requirement of `p`
    /// names it, and on which platform, plays no part.
    pub open spec fn resolved_for(self, p: PackageIdView) -> Seq<PackageIdView> {
        self.resolve.chosen_for(p).map_values(|c: PackageId| self.resolve.effective(c@))
    }

    /// `d` is one of the packages that `p` was given.
    pub open spec fn depends_on(self, p: PackageIdView, d: PackageIdView) -> bool {
        self.resolved_for(p).contains(d)
    }

    /// The step of `chain` from its place `k` to the next goes from a
    /// package to one that it was given.
    pub open spec fn chain_step(self, chain: Seq<PackageIdView>, k: int) -> bool {
        self.depends_on(chain[k], chain[k + 1])
    }

    /// Each package of `chain` was given the next.
    pub open spec fn is_chain(self, chain: Seq<PackageIdView>) -> bool {
        &&& chain.len() > 0
        &&& forall|k: int| 0 <= k < chain.len() - 1 ==> #[trigger] self.chain_step(chain, k)
    }

    /// The graph needs a node for `id`: `id` is a root, or a chain leads to
    /// it from a root in which each package was given the next. A package
    /// that was given to a needed package is needed, with or without an
    /// edge.
    pub open spec fn required(self, roots: Seq<PackageIdView>, id: PackageIdView) -> bool {
        exists|chain: Seq<PackageIdView>|
            #[trigger] self.is_chain(chain) && roots.contains(chain[0]) && chain.last() == id
    }
}

/// The links that the edges among `edges` which leave node `a` stand for,
/// in the order in which the edges were added. `ids` names the nodes.
pub open spec fn links_among(ids: Seq<PackageIdView>, edges: Seq<Edge>, a: int) -> Seq<Link>
    decreases edges.len(),
{
    if edges.len() == 0 {
        Seq::empty()
    } else if edges.last().from == a {
        links_among(ids, edges.drop_last(), a).push(
            Link { to: ids[edges.last().to], kind: edges.last().kind },
        )
    } else {
        links_among(ids, edges.drop_last(), a)
    }
}

impl GraphView {
    /// The links that the edges which leave node `a` stand for, in the
    /// order in which the edges were added.
    pub open spec fn out_links(self, a: int) -> Seq<Link> {
        links_among(self.ids(), self.edges, a)
    }
}

/// Node `a` of `g` is as the scene wants it: the package is needed, its
/// manifest is at hand, and the node holds the manifest's descriptive block.
pub open spec fn node_known(scene: Scene, roots: Seq<PackageIdView>, g: GraphView, a: int) -> bool {
    &&& scene.required(roots, g.nodes[a].id)
    &&& scene.packages.lookup(g.nodes[a].id) matches Lookup::Found(pkg)
    &&& g.nodes[a].metadata == pkg.metadata@
}

/// `ids` holds every package that `p` was given.
pub open spec fn holds_resolved(scene: Scene, ids: Seq<PackageIdView>, p: PackageIdView) -> bool {
    forall|k: int|
        0 <= k < scene.resolved_for(p).len() ==> ids.contains(#[trigger] scene.resolved_for(p)[k])
}

/// The graph has a node for every package that the package of node `a` was
/// given.
pub open spec fn node_settled(scene: Scene, g: GraphView, a: int) -> bool {
    holds_resolved(scene, g.ids(), g.nodes[a].id)
}

/// `g` is the graph of the scene, grown from `roots`.
///
/// It has a node for each package that is needed and for no other: for the
/// roots, and for every package that a package with a node was given. Each
/// node has the descriptive block of its manifest. The edges that leave a
/// node are those that the scene gives its package, in their order: a
/// package that was given without a requirement that counts has its node
/// and no edge.
pub open spec fn built(scene: Scene, roots: Seq<PackageIdView>, g: GraphView) -> bool {
    &&& g.wf()
    &&& forall|id: PackageIdView| g.contains(id) <==> scene.required(roots, id)
    &&& forall|a: int| 0 <= a < g.nodes.len() ==> #[trigger] node_known(scene, roots, g, a)
    &&& forall|a: int|
        0 <= a < g.nodes.len() ==> #[trigger] g.out_links(a) == scene.links_of(g.nodes[a].id)
}

/// `e` names a package that the graph needs and that the package set
/// fails to give, in the way that `e` says.
pub open spec fn stopped_by(scene: Scene, roots: Seq<PackageIdView>, e: Error) -> bool {
    match e {
        Error::MetadataNotFound(id) => scene.required(roots, id@) && scene.packages.lookup(id@)
            is Missing,
        Error::FetchFailed(id) => scene.required(roots, id@) && scene.packages.lookup(id@)
            is Failed,
        _ => false,
    }
}

/// Every package that the graph needs has its manifest at hand.
pub open spec fn all_available(scene: Scene, roots: Seq<PackageIdView>) -> bool {
    forall|id: PackageIdView| #[trigger] scene.required(roots, id) ==> scene.available(id)
}

/// A root is needed.
pub proof fn lemma_root_required(scene: Scene, roots: Seq<PackageIdView>, i: int)
    requires
        0 <= i < roots.len(),
    ensures
        scene.required(roots, roots[i]),
{
    let chain = seq![roots[i]];
    assert(scene.is_chain(chain) && roots.contains(chain[0]) && chain.last() == roots[i]);
}

/// What a needed package was given is needed.
pub proof fn lemma_required_on(
    scene: Scene,
    roots: Seq<PackageIdView>,
    p: PackageIdView,
    d: PackageIdView,
)
    requires
        scene.required(roots, p),
        scene.depends_on(p, d),
    ensures
        scene.required(roots, d),
{
    let chain = choose|chain: Seq<PackageIdView>|
        #[trigger] scene.is_chain(chain) && roots.contains(chain[0]) && chain.last() == p;
    let longer = chain.push(d);
    assert forall|k: int| 0 <= k < longer.len() - 1 implies #[trigger] scene.chain_step(
        longer,
        k,
    ) by {
        if k < chain.len() - 1 {
            assert(scene.chain_step(chain, k));
        }
    }
    assert(scene.is_chain(longer) && roots.contains(longer[0]) && longer.last() == d);
}

/// One more edge: its link comes last where it leaves `a`, and nowhere
/// where it does not.
pub proof fn lemma_links_among_push(ids: Seq<PackageIdView>, edges: Seq<Edge>, e: Edge, a: int)
    ensures
        links_among(ids, edges.push(e), a) == if e.from == a {
            links_among(ids, edges, a).push(Link { to: ids[e.to], kind: e.kind })
        } else {
            links_among(ids, edges, a)
        },
{
    assert(edges.push(e).drop_last() =~= edges);
}

/// More nodes leave the links of the edges as they are.
pub proof fn lemma_links_among_grow(
    ids: Seq<PackageIdView>,
    more: Seq<PackageIdView>,
    edges: Seq<Edge>,
    a: int,
)
    requires
        ids.len() <= more.len(),
        forall|k: int| 0 <= k < ids.len() ==> ids[k] == more[k],
        forall|k: int| 0 <= k < edges.len() ==> 0 <= (#[trigger] edges[k]).to < ids.len(),
    ensures
        links_among(more, edges, a) == links_among(ids, edges, a),
    decreases edges.len(),
{
    if edges.len() > 0 {
        lemma_links_among_grow(ids, more, edges.drop_last(), a);
        assert(0 <= edges[edges.len() - 1].to < ids.len());
    }
}

/// Taking one more chosen package adds its links behind the others.
pub proof fn lemma_links_through_next(
    scene: Scene,
    declared: Seq<Dependency>,
    chosen: Seq<PackageId>,
    n: int,
)
    requires
        0 <= n < chosen.len(),
    ensures
        links_through(scene, declared, chosen.take(n + 1)) == links_through(
            scene,
            declared,
            chosen.take(n),
        ) + links_to(scene, declared, chosen[n]@),
{
    assert(chosen.take(n + 1).drop_last() =~= chosen.take(n));
    assert(chosen.take(n + 1).last() == chosen[n]);
}

/// A row of distinct numbers below `m` is at most `m` long.
proof fn lemma_pigeonhole(s: Seq<int>, m: int)
    requires
        s.no_duplicates(),
        0 <= m,
        forall|i: int| 0 <= i < s.len() ==> 0 <= #[trigger] s[i] < m,
    ensures
        s.len() <= m,
{
    s.unique_seq_to_set();
    lemma_int_range(0, m);
    assert(s.to_set().subset_of(set_int_range(0, m))) by {
        assert forall|x: int| s.to_set().contains(x) implies set_int_range(0, m).contains(x) by {
            let i = choose|i: int| 0 <= i < s.len() && s[i] == x;
            assert(0 <= s[i] < m);
        }
    }
    lemma_len_subset(s.to_set(), set_int_range(0, m));
}

/// A graph whose nodes are distinct packages of the set has no more nodes
/// than the set has packages.
proof fn lemma_nodes_fit(packages: PackageSet, ids: Seq<PackageIdView>)
    requires
        ids.no_duplicates(),
        forall|a: int| 0 <= a < ids.len() ==> packages.lookup(#[trigger] ids[a]) is Found,
    ensures
        ids.len() <= packages.packages@.len(),
{
    let table = package_ids(packages.packages@);
    let slots = Seq::new(ids.len(), |a: int| position(table, ids[a])->0);
    assert forall|a: int| 0 <= a < slots.len() implies 0 <= #[trigger] slots[a] < table.len()
        && table[slots[a]] == ids[a] by {
        lemma_position_meaning(table, ids[a]);
        assert(packages.lookup(ids[a]) is Found);
    }
    assert forall|a: int, b: int| 0 <= a < slots.len() && 0 <= b < slots.len() && a
        != b implies slots[a] != slots[b] by {
        assert(table[slots[a]] == ids[a]);
        assert(table[slots[b]] == ids[b]);
    }
    lemma_pigeonhole(slots, table.len() as int);
}

/// More nodes still hold every package that `p` was given.
proof fn lemma_holds_resolved_grow(
    scene: Scene,
    ids: Seq<PackageIdView>,
    more: Seq<PackageIdView>,
    p: PackageIdView,
)
    requires
        ids.len() <= more.len(),
        forall|k: int| 0 <= k < ids.len() ==> ids[k] == more[k],
        holds_resolved(scene, ids, p),
    ensures
        holds_resolved(scene, more, p),
{
    assert forall|k: int| 0 <= k < scene.resolved_for(p).len() implies more.contains(
        #[trigger] scene.resolved_for(p)[k],
    ) by {
        let d = scene.resolved_for(p)[k];
        assert(ids.contains(d));
        let at = choose|at: int| 0 <= at < ids.len() && ids[at] == d;
        assert(more[at] == d);
    }
}

/// Edges that all leave other nodes than `a` stand for no link of `a`.
proof fn lemma_links_among_none(ids: Seq<PackageIdView>, edges: Seq<Edge>, a: int)
    requires
        forall|k: int| 0 <= k < edges.len() ==> (#[trigger] edges[k]).from != a,
    ensures
        links_among(ids, edges, a) == Seq::<Link>::empty(),
    decreases edges.len(),
{
    if edges.len() > 0 {
        assert(edges[edges.len() - 1].from != a);
        lemma_links_among_none(ids, edges.drop_last(), a);
    }
}

/// A graph that holds the roots and, for each of its nodes, every package
/// that the node's package was given, holds the end of every chain from a
/// root.
proof fn lemma_chain_contained(
    scene: Scene,
    roots: Seq<PackageIdView>,
    g: GraphView,
    chain: Seq<PackageIdView>,
)
    requires
        g.wf(),
        scene.is_chain(chain),
        roots.contains(chain[0]),
        forall|i: int| 0 <= i < roots.len() ==> g.contains(#[trigger] roots[i]),
        forall|a: int| 0 <= a < g.nodes.len() ==> #[trigger] node_settled(scene, g, a),
    ensures
        g.contains(chain.last()),
    decreases chain.len(),
{
    if chain.len() == 1 {
        let i = choose|i: int| 0 <= i < roots.len() && roots[i] == chain[0];
        assert(g.contains(roots[i]));
    } else {
        let front = chain.drop_last();
        assert forall|k: int| 0 <= k < front.len() - 1 implies #[trigger] scene.chain_step(
            front,
            k,
        ) by {
            assert(scene.chain_step(chain, k));
        }
        lemma_chain_contained(scene, roots, g, front);
        let p = front.last();
        let d = chain.last();
        assert(scene.chain_step(chain, chain.len() - 2));
        assert(scene.depends_on(p, d));
        let a = choose|a: int| 0 <= a < g.ids().len() && g.ids()[a] == p;
        assert(g.nodes[a].id == p);
        assert(node_settled(scene, g, a));
        let k = choose|k: int|
            0 <= k < scene.resolved_for(p).len() && scene.resolved_for(p)[k] == d;
        assert(g.ids().contains(scene.resolved_for(p)[k]));
    }
}

/// The scene that the arguments of [`build_graph`] describe.
pub open spec fn scene_of(
    resolve: &Resolve,
    packages: &PackageSet,
    target: Option<&str>,
    cfgs: Option<&[Cfg]>,
) -> Scene {
    Scene {
        resolve: *resolve,
        packages: *packages,
        target: match target {
            Some(t) => Some(t@),
            None => None,
        },
        cfgs: cfgs_view(cfgs),
    }
}

/// The target as contracts read it.
spec fn text_view(target: Option<String>) -> Option<Seq<char>> {
    match target {
        Some(t) => Some(t@),
        None => None,
    }
}

/// The kinds of the requirements among `declared` that the package `raw`
/// meets and that count on the platform, in the order of declaration.
pub fn kinds_admitted(
    declared: &Vec<Dependency>,
    raw: &PackageId,
    target: Option<&String>,
    cfgs: Option<&[Cfg]>,
) -> (res: Vec<Kind>)
    ensures
        res@ == admitted_kinds(declared@, raw@, target_view(target), cfgs_view(cfgs)),
{
    let mut res: Vec<Kind> = Vec::new();
    let mut i: usize = 0;
    assert(declared@.take(0) =~= Seq::<Dependency>::empty());
    while i < declared.len()
        invariant
            i <= declared.len(),
            res@ == admitted_kinds(
                declared@.take(i as int),
                raw@,
                target_view(target),
                cfgs_view(cfgs),
            ),
        decreases declared.len() - i,
    {
        let dep = &declared[i];
        let platform = match &dep.platform {
            Some(p) => Some(p),
            None => None,
        };
        proof {
            assert(declared@.take(i + 1).drop_last() =~= declared@.take(i as int));
            assert(declared@.take(i + 1).last() == declared@[i as int]);
        }
        if dep.matches_ignoring_source(raw) && platform_admits(platform, target, cfgs) {
            res.push(dep.kind);
        }
        i = i + 1;
    }
    assert(declared@.take(declared@.len() as int) =~= declared@);
    res
}

/// A graph in the making: its storage, the table of its identities, and
/// the nodes whose edges are still to be made.
struct Builder {
    arena: Arena,
    ids: Vec<PackageId>,
    pending: Vec<usize>,
}

impl Builder {
    spec fn graph(&self) -> GraphView {
        arena_view(self.arena)
    }

    /// The links that node `a` has to have by now: those made so far for
    /// the node that is being expanded, none for a node that waits, all of
    /// them for a node that was expanded.
    spec fn owed(&self, scene: Scene, a: int, busy: int, done: Seq<Link>) -> Seq<Link> {
        if a == busy {
            done
        } else if self.pending@.contains(a as usize) {
            Seq::empty()
        } else {
            scene.links_of(self.graph().nodes[a].id)
        }
    }

    /// The graph is sound so far, while node `busy` is being expanded and
    /// has the links `done`.
    spec fn sound(&self, scene: Scene, roots: Seq<PackageIdView>, busy: int, done: Seq<Link>) -> bool {
        let g = self.graph();
        &&& g.wf()
        &&& id_views(self.ids@) == g.ids()
        &&& self.pending@.no_duplicates()
        &&& forall|k: int|
            0 <= k < self.pending@.len() ==> (#[trigger] self.pending@[k]) < g.nodes.len()
                && self.pending@[k] != busy
        &&& forall|a: int| 0 <= a < g.nodes.len() ==> #[trigger] node_known(scene, roots, g, a)
        &&& forall|a: int|
            0 <= a < g.nodes.len() ==> #[trigger] g.out_links(a) == self.owed(
                scene,
                a,
                busy,
                done,
            )
        &&& forall|a: int|
            0 <= a < g.nodes.len() && a != busy && !self.pending@.contains(a as usize)
                ==> #[trigger] node_settled(scene, g, a)
    }

    /// The node for `id`: the one that the graph has, or else a new one,
    /// which then waits to be expanded.
    fn node_for(
        &mut self,
        packages: &PackageSet,
        id: &PackageId,
        Ghost(scene): Ghost<Scene>,
        Ghost(roots): Ghost<Seq<PackageIdView>>,
        Ghost(busy): Ghost<int>,
        Ghost(done): Ghost<Seq<Link>>,
    ) -> (res: Result<usize, Error>)
        requires
            old(self).sound(scene, roots, busy, done),
            scene.packages == *packages,
            scene.required(roots, id@),
            -1 <= busy < old(self).graph().nodes.len(),
        ensures
            match res {
                Ok(idx) => {
                    &&& final(self).sound(scene, roots, busy, done)
                    &&& idx < final(self).graph().nodes.len()
                    &&& final(self).graph().nodes[idx as int].id == id@
                    &&& final(self).graph().edges == old(self).graph().edges
                    &&& final(self).graph().nodes.len() >= old(self).graph().nodes.len()
                    &&& final(self).pending@.len() - old(self).pending@.len()
                        == final(self).graph().nodes.len() - old(self).graph().nodes.len()
                    &&& forall|a: int|
                        0 <= a < old(self).graph().nodes.len() ==> final(self).graph().nodes[a]
                            == old(self).graph().nodes[a]
                },
                Err(e) => stopped_by(scene, roots, e),
            },
    {
        let ghost g0 = self.graph();
        let ghost pending0 = self.pending@;
        proof {
            lemma_position_meaning(g0.ids(), id@);
        }
        match find_in(&self.ids, id) {
            Some(idx) => {
                proof {
                    assert(g0.ids()[idx as int] == g0.nodes[idx as int].id);
                }
                Ok(idx)
            },
            None => {
                let pkg = match packages.get_one(id) {
                    Ok(pkg) => pkg,
                    Err(e) => {
                        return Err(e);
                    },
                };
                let node = Node { id: id.clone(), metadata: pkg.metadata.clone() };
                let idx = arena_add_node(&mut self.arena, node);
                self.ids.push(id.clone());
                self.pending.push(idx);
                proof {
                    let g = self.graph();
                    let n = g0.nodes.len() as int;
                    assert(g.nodes =~= g0.nodes.push(
                        NodeView { id: id@, metadata: pkg.metadata@ },
                    ));
                    assert(g.ids() =~= g0.ids().push(id@));
                    assert(id_views(self.ids@) =~= g.ids());
                    assert(g.ids().no_duplicates());
                    assert(self.pending@ =~= pending0.push(idx));
                    assert(self.pending@.no_duplicates());
                    assert forall|a: int| 0 <= a < g.nodes.len() implies #[trigger] node_known(
                        scene,
                        roots,
                        g,
                        a,
                    ) by {
                        if a < n {
                            assert(node_known(scene, roots, g0, a));
                        }
                    }
                    assert forall|a: int| 0 <= a < g.nodes.len() implies #[trigger] g.out_links(a)
                        == self.owed(scene, a, busy, done) by {
                        if a < n {
                            lemma_links_among_grow(g0.ids(), g.ids(), g0.edges, a);
                            assert(g0.out_links(a) == old(self).owed(scene, a, busy, done));
                            if pending0.contains(a as usize) {
                                let k = choose|k: int|
                                    0 <= k < pending0.len() && pending0[k] == a as usize;
                                assert(self.pending@[k] == a as usize);
                            }
                            if self.pending@.contains(a as usize) {
                                let k = choose|k: int|
                                    0 <= k < self.pending@.len() && self.pending@[k] == a as usize;
                                assert(pending0[k] == a as usize);
                            }
                        } else {
                            lemma_links_among_none(g.ids(), g.edges, a);
                            assert(self.pending@[pending0.len() as int] == a as usize);
                        }
                    }
                    assert forall|a: int|
                        0 <= a < g.nodes.len() && a != busy && !self.pending@.contains(
                            a as usize,
                        ) implies #[trigger] node_settled(scene, g, a) by {
                        if a < n {
                            if pending0.contains(a as usize) {
                                let k = choose|k: int|
                                    0 <= k < pending0.len() && pending0[k] == a as usize;
                                assert(self.pending@[k] == a as usize);
                            }
                            assert(node_settled(scene, g0, a));
                            lemma_holds_resolved_grow(scene, g0.ids(), g.ids(), g0.nodes[a].id);
                        } else {
                            assert(self.pending@[pending0.len() as int] == a as usize);
                        }
                    }
                }
                Ok(idx)
            },
        }
    }

    /// Makes an edge from the node that is being expanded to node `to`.
    fn connect(
        &mut self,
        from: usize,
        to: usize,
        kind: Kind,
        Ghost(scene): Ghost<Scene>,
        Ghost(roots): Ghost<Seq<PackageIdView>>,
        Ghost(done): Ghost<Seq<Link>>,
    )
        requires
            old(self).sound(scene, roots, from as int, done),
            from < old(self).graph().nodes.len(),
            to < old(self).graph().nodes.len(),
        ensures
            final(self).sound(
                scene,
                roots,
                from as int,
                done.push(Link { to: old(self).graph().nodes[to as int].id, kind }),
            ),
            final(self).graph().nodes == old(self).graph().nodes,
            final(self).pending@ == old(self).pending@,
    {
        let ghost g0 = self.graph();
        arena_add_edge(&mut self.arena, from, to, kind);
        proof {
            let g = self.graph();
            let e = Edge { from: from as int, to: to as int, kind };
            assert(g.nodes == g0.nodes);
            assert(g.edges == g0.edges.push(e));
            assert(g0.ids()[to as int] == g0.nodes[to as int].id);
            assert forall|a: int| 0 <= a < g.nodes.len() implies #[trigger] node_known(
                scene,
                roots,
                g,
                a,
            ) by {
                assert(node_known(scene, roots, g0, a));
            }
            assert forall|a: int| 0 <= a < g.nodes.len() implies #[trigger] g.out_links(a)
                == self.owed(
                scene,
                a,
                from as int,
                done.push(Link { to: g0.nodes[to as int].id, kind }),
            ) by {
                lemma_links_among_push(g0.ids(), g0.edges, e, a);
                assert(g0.out_links(a) == old(self).owed(scene, a, from as int, done));
            }
            assert forall|a: int|
                0 <= a < g.nodes.len() && a != from && !self.pending@.contains(
                    a as usize,
                ) implies #[trigger] node_settled(scene, g, a) by {
                assert(node_settled(scene, g0, a));
            }
        }
    }
}

/// Builds the dependency graph of a resolution snapshot.
///
/// Each root gets a node. Then, for each node in turn and for each package
/// chosen for it, the package used in place of the chosen one gets its node
/// if it has none yet, with the descriptive block of its manifest. One
/// edge is made to it for each requirement of the node's package that the
/// chosen package meets and that counts on the platform, with the kind of
/// the requirement. Where no requirement counts, the node stands without
/// an edge.
///
/// The build fails as soon as it needs a package whose manifest is not at
/// hand: it never gives a graph with a node missing. A root that is listed
/// twice is taken once.
pub fn build_graph(
    resolve: &Resolve,
    packages: &PackageSet,
    roots: &[PackageId],
    target: Option<&str>,
    cfgs: Option<&[Cfg]>,
) -> (res: Result<Graph, Error>)
    ensures
        match res {
            Ok(g) => built(scene_of(resolve, packages, target, cfgs), id_views(roots@), g@),
            Err(e) => stopped_by(scene_of(resolve, packages, target, cfgs), id_views(roots@), e),
        },
        res is Ok <==> all_available(
            scene_of(resolve, packages, target, cfgs),
            id_views(roots@),
        ),
        res matches Ok(g) ==> forall|i: int| 0 <= i < roots@.len() ==> g@.contains(roots@[i]@),
{
    let ghost scene = scene_of(resolve, packages, target, cfgs);
    let ghost rv = id_views(roots@);
    let target_text: Option<String> = match target {
        Some(t) => Some(t.to_owned()),
        None => None,
    };
    let mut b = Builder { arena: arena_new(), ids: Vec::new(), pending: Vec::new() };
    proof {
        assert(b.graph().ids() =~= Seq::<PackageIdView>::empty());
        assert(id_views(b.ids@) =~= Seq::<PackageIdView>::empty());
    }
    let mut i: usize = 0;
    while i < roots.len()
        invariant
            i <= roots.len(),
            scene == scene_of(resolve, packages, target, cfgs),
            rv == id_views(roots@),
            b.sound(scene, rv, -1, Seq::empty()),
            forall|k: int| 0 <= k < i ==> b.graph().contains(#[trigger] rv[k]),
        decreases roots.len() - i,
    {
        let ghost g0 = b.graph();
        proof {
            lemma_root_required(scene, rv, i as int);
        }
        match b.node_for(
            packages,
            &roots[i],
            Ghost(scene),
            Ghost(rv),
            Ghost(-1),
            Ghost(Seq::empty()),
        ) {
            Ok(idx) => {
                proof {
                    let g = b.graph();
                    assert(g.ids()[idx as int] == rv[i as int]);
                    assert forall|k: int| 0 <= k < i implies g.contains(#[trigger] rv[k]) by {
                        let at = choose|at: int| 0 <= at < g0.ids().len() && g0.ids()[at] == rv[k];
                        assert(g.ids()[at] == rv[k]);
                    }
                }
            },
            Err(e) => {
                return Err(e);
            },
        }
        i = i + 1;
    }
    proof {
        let g = b.graph();
        assert forall|x: int| 0 <= x < g.ids().len() implies packages.lookup(
            #[trigger] g.ids()[x],
        ) is Found by {
            assert(node_known(scene, rv, g, x));
        }
        lemma_nodes_fit(*packages, g.ids());
        assert(id_views(b.ids@).len() == b.ids@.len());
        assert forall|k: int| 0 <= k < rv.len() implies g.contains(#[trigger] rv[k]) by {}
    }
    while b.pending.len() > 0
        invariant
            scene == scene_of(resolve, packages, target, cfgs),
            rv == id_views(roots@),
            text_view(target_text) == scene.target,
            b.sound(scene, rv, -1, Seq::empty()),
            forall|k: int| 0 <= k < rv.len() ==> b.graph().contains(#[trigger] rv[k]),
            b.ids@.len() <= packages.packages@.len(),
        decreases packages.packages@.len() - b.ids@.len(), b.pending@.len(),
    {
        let ghost waiting0 = b.pending@;
        let ghost nodes0 = b.graph().nodes.len();
        let a = b.pending.pop().unwrap();
        proof {
            assert(waiting0[waiting0.len() - 1] == a);
            assert(id_views(b.ids@).len() == b.ids@.len());
            assert(b.graph().ids().len() == b.graph().nodes.len());
        }
        let id_a = b.ids[a].clone();
        proof {
            let g = b.graph();
            assert(id_views(b.ids@)[a as int] == id_a@);
            assert(g.ids()[a as int] == g.nodes[a as int].id);
            assert(node_known(scene, rv, g, a as int));
            assert forall|x: int| 0 <= x < g.nodes.len() implies #[trigger] g.out_links(x)
                == b.owed(scene, x, a as int, Seq::empty()) by {
                assert(g.nodes.len() == b.ids.len());
                if x != a {
                    if waiting0.contains(x as usize) {
                        let k = choose|k: int| 0 <= k < waiting0.len() && waiting0[k] == x as usize;
                        assert(k != waiting0.len() - 1);
                        assert(b.pending@[k] == x as usize);
                    }
                    if b.pending@.contains(x as usize) {
                        let k = choose|k: int|
                            0 <= k < b.pending@.len() && b.pending@[k] == x as usize;
                        assert(waiting0[k] == x as usize);
                    }
                } else {
                    assert(waiting0.contains(a));
                }
            }
            assert forall|x: int|
                0 <= x < g.nodes.len() && x != a && !b.pending@.contains(
                    x as usize,
                ) implies #[trigger] node_settled(scene, g, x) by {
                assert(g.nodes.len() == b.ids.len());
                if waiting0.contains(x as usize) {
                    let k = choose|k: int| 0 <= k < waiting0.len() && waiting0[k] == x as usize;
                    assert(k != waiting0.len() - 1);
                    assert(b.pending@[k] == x as usize);
                }
            }
            assert forall|k: int| 0 <= k < b.pending@.len() implies (#[trigger] b.pending@[k])
                < g.nodes.len() && b.pending@[k] != a by {
                assert(waiting0[k] == b.pending@[k]);
            }
        }
        let pkg = match packages.get_one(&id_a) {
            Ok(pkg) => pkg,
            Err(e) => {
                return Err(e);
            },
        };
        let chosen = resolve.deps_not_replaced(&id_a);
        let ghost declared = pkg.dependencies@;
        let ghost given = scene.resolved_for(id_a@);
        proof {
            assert(chosen@.take(0) =~= Seq::<PackageId>::empty());
            assert(scene.links_of(id_a@) == links_through(scene, declared, chosen@));
            assert(given.len() == chosen@.len());
        }
        let mut ci: usize = 0;
        while ci < chosen.len()
            invariant
                ci <= chosen.len(),
                scene == scene_of(resolve, packages, target, cfgs),
                rv == id_views(roots@),
                text_view(target_text) == scene.target,
                declared == pkg.dependencies@,
                chosen@ == scene.resolve.chosen_for(id_a@),
                given == scene.resolved_for(id_a@),
                a < b.graph().nodes.len(),
                b.graph().nodes[a as int].id == id_a@,
                scene.required(rv, id_a@),
                b.sound(scene, rv, a as int, links_through(scene, declared, chosen@.take(ci as int))),
                forall|k: int| 0 <= k < rv.len() ==> b.graph().contains(#[trigger] rv[k]),
                forall|k: int| 0 <= k < ci ==> b.graph().contains(#[trigger] given[k]),
                b.graph().nodes.len() >= nodes0,
                b.pending@.len() - (waiting0.len() - 1) == b.graph().nodes.len() - nodes0,
            decreases chosen.len() - ci,
        {
            let raw = &chosen[ci];
            let target_ref = match &target_text {
                Some(t) => Some(t),
                None => None,
            };
            let dep_id = match resolve.replacement(raw) {
                Some(to) => to,
                None => raw,
            };
            let ghost before = links_through(scene, declared, chosen@.take(ci as int));
            let ghost fresh = links_to(scene, declared, raw@);
            let ghost g0 = b.graph();
            proof {
                assert(dep_id@ == scene.resolve.effective(raw@));
                assert(given[ci as int] == dep_id@);
                assert(scene.depends_on(id_a@, dep_id@));
                lemma_required_on(scene, rv, id_a@, dep_id@);
            }
            let idx = match b.node_for(
                packages,
                dep_id,
                Ghost(scene),
                Ghost(rv),
                Ghost(a as int),
                Ghost(before),
            ) {
                Ok(idx) => idx,
                Err(e) => {
                    return Err(e);
                },
            };
            let kinds = kinds_admitted(&pkg.dependencies, raw, target_ref, cfgs);
            proof {
                let g = b.graph();
                assert(g.ids()[idx as int] == dep_id@);
                assert forall|k: int| 0 <= k < rv.len() implies g.contains(#[trigger] rv[k]) by {
                    let at = choose|at: int| 0 <= at < g0.ids().len() && g0.ids()[at] == rv[k];
                    assert(g.ids()[at] == rv[k]);
                }
                assert forall|k: int| 0 <= k <= ci implies g.contains(#[trigger] given[k]) by {
                    if k < ci {
                        let at = choose|at: int|
                            0 <= at < g0.ids().len() && g0.ids()[at] == given[k];
                        assert(g.ids()[at] == given[k]);
                    }
                }
                assert(fresh.len() == kinds@.len());
                assert(fresh.take(0) =~= Seq::<Link>::empty());
                assert(before + fresh.take(0) =~= before);
                lemma_links_through_next(scene, declared, chosen@, ci as int);
            }
            let mut ki: usize = 0;
            while ki < kinds.len()
                invariant
                    ki <= kinds.len(),
                    a < b.graph().nodes.len(),
                    idx < b.graph().nodes.len(),
                    b.graph().nodes[a as int].id == id_a@,
                    b.graph().nodes[idx as int].id == dep_id@,
                    fresh.len() == kinds@.len(),
                    forall|k: int|
                        0 <= k < fresh.len() ==> (#[trigger] fresh[k]) == (Link {
                            to: dep_id@,
                            kind: kinds@[k],
                        }),
                    b.sound(scene, rv, a as int, before + fresh.take(ki as int)),
                    forall|k: int| 0 <= k < rv.len() ==> b.graph().contains(#[trigger] rv[k]),
                    forall|k: int| 0 <= k <= ci ==> b.graph().contains(#[trigger] given[k]),
                    ci < given.len(),
                    b.graph().nodes.len() >= nodes0,
                    b.pending@.len() - (waiting0.len() - 1) == b.graph().nodes.len() - nodes0,
                decreases kinds.len() - ki,
            {
                let ghost done = before + fresh.take(ki as int);
                let ghost g1 = b.graph();
                b.connect(a, idx, kinds[ki], Ghost(scene), Ghost(rv), Ghost(done));
                proof {
                    let g = b.graph();
                    assert(g.ids() == g1.ids());
                    assert(fresh.take(ki + 1) =~= fresh.take(ki as int).push(fresh[ki as int]));
                    assert(before + fresh.take(ki + 1) =~= done.push(fresh[ki as int]));
                }
                ki = ki + 1;
            }
            proof {
                assert(fresh.take(kinds@.len() as int) =~= fresh);
            }
            ci = ci + 1;
        }
        proof {
            let g = b.graph();
            assert(chosen@.take(chosen@.len() as int) =~= chosen@);
            assert forall|x: int| 0 <= x < g.nodes.len() implies #[trigger] g.out_links(x)
                == b.owed(scene, x, -1, Seq::empty()) by {
                assert(g.out_links(x) == b.owed(
                    scene,
                    x,
                    a as int,
                    links_through(scene, declared, chosen@),
                ));
                if b.pending@.contains(a as usize) {
                    let k = choose|k: int| 0 <= k < b.pending@.len() && b.pending@[k] == a;
                    assert(b.pending@[k] != a);
                }
            }
            assert(node_settled(scene, g, a as int));
            assert forall|x: int| 0 <= x < g.ids().len() implies packages.lookup(
                #[trigger] g.ids()[x],
            ) is Found by {
                assert(node_known(scene, rv, g, x));
            }
            lemma_nodes_fit(*packages, g.ids());
            assert(id_views(b.ids@).len() == b.ids@.len());
        }
    }
    proof {
        let g = b.graph();
        assert(b.pending@ =~= Seq::<usize>::empty());
        assert forall|a: int| 0 <= a < g.nodes.len() implies #[trigger] g.out_links(a)
            == scene.links_of(g.nodes[a].id) by {
            assert(g.out_links(a) == b.owed(scene, a, -1, Seq::empty()));
        }
        assert forall|a: int| 0 <= a < g.nodes.len() implies #[trigger] node_settled(
            scene,
            g,
            a,
        ) by {}
        assert forall|id: PackageIdView| g.contains(id) <==> scene.required(rv, id) by {
            if g.contains(id) {
                let a = choose|a: int| 0 <= a < g.ids().len() && g.ids()[a] == id;
                assert(node_known(scene, rv, g, a));
            }
            if scene.required(rv, id) {
                let chain = choose|chain: Seq<PackageIdView>|
                    #[trigger] scene.is_chain(chain) && rv.contains(chain[0]) && chain.last() == id;
                lemma_chain_contained(scene, rv, g, chain);
            }
        }
        assert forall|id: PackageIdView| #[trigger] scene.required(rv, id) implies scene.available(
            id,
        ) by {
            assert(g.contains(id));
            let a = choose|a: int| 0 <= a < g.ids().len() && g.ids()[a] == id;
            assert(node_known(scene, rv, g, a));
        }
        assert forall|i: int| 0 <= i < roots@.len() implies g.contains(roots@[i]@) by {
            assert(rv[i] == roots@[i]@);
        }
    }
    Ok(Graph::from_parts(b.arena, b.ids))
}

/// Requirement `j` among `declared`, met by the chosen package `i`, gives
/// the link `link`: the chosen package meets the requirement, the
/// requirement counts on the platform, and the link leads to the package
/// used in place of the chosen one and carries the requirement's kind.
pub open spec fn gives_link(
    scene: Scene,
    declared: Seq<Dependency>,
    chosen: Seq<PackageId>,
    i: int,
    j: int,
    link: Link,
) -> bool {
    &&& 0 <= i < chosen.len()
    &&& 0 <= j < declared.len()
    &&& dep_matches(declared[j], chosen[i]@)
    &&& admits(declared[j].platform, scene.target, scene.cfgs)
    &&& link == Link { to: scene.resolve.effective(chosen[i]@), kind: declared[j].kind }
}

impl Scene {
    /// The manifest of `p` declares a requirement of kind `kind` that a
    /// package chosen for `p` meets on the platform, and `d` is the package
    /// used in place of the chosen one.
    pub open spec fn declares(self, p: PackageIdView, d: PackageIdView, kind: Kind) -> bool {
        self.packages.lookup(p) matches Lookup::Found(pkg) && exists|i: int, j: int|
            gives_link(
                self,
                pkg.dependencies@,
                self.resolve.chosen_for(p),
                i,
                j,
                Link { to: d, kind },
            )
    }
}

/// The kinds that a chosen package is admitted with are the kinds of the
/// requirements that it meets and that count on the platform.
proof fn lemma_admitted_kinds(
    declared: Seq<Dependency>,
    raw: PackageIdView,
    target: Option<Seq<char>>,
    cfgs: Option<Seq<Cfg>>,
    kind: Kind,
)
    ensures
        admitted_kinds(declared, raw, target, cfgs).contains(kind) <==> exists|j: int|
            0 <= j < declared.len() && dep_matches(#[trigger] declared[j], raw) && admits(
                declared[j].platform,
                target,
                cfgs,
            ) && declared[j].kind == kind,
    decreases declared.len(),
{
    if declared.len() > 0 {
        let rest = declared.drop_last();
        let d = declared.last();
        let before = admitted_kinds(rest, raw, target, cfgs);
        let now = admitted_kinds(declared, raw, target, cfgs);
        let taken = dep_matches(d, raw) && admits(d.platform, target, cfgs);
        lemma_admitted_kinds(rest, raw, target, cfgs, kind);
        if now.contains(kind) {
            let k = choose|k: int| 0 <= k < now.len() && now[k] == kind;
            if taken && k == now.len() - 1 {
                assert(declared[declared.len() - 1] == d);
            } else {
                assert(before[k] == kind);
                assert(before.contains(kind));
                let j = choose|j: int|
                    0 <= j < rest.len() && dep_matches(#[trigger] rest[j], raw) && admits(
                        rest[j].platform,
                        target,
                        cfgs,
                    ) && rest[j].kind == kind;
                assert(declared[j] == rest[j]);
            }
        }
        if exists|j: int|
            0 <= j < declared.len() && dep_matches(#[trigger] declared[j], raw) && admits(
                declared[j].platform,
                target,
                cfgs,
            ) && declared[j].kind == kind {
            let j = choose|j: int|
                0 <= j < declared.len() && dep_matches(#[trigger] declared[j], raw) && admits(
                    declared[j].platform,
                    target,
                    cfgs,
                ) && declared[j].kind == kind;
            if j == declared.len() - 1 {
                assert(now[now.len() - 1] == kind);
            } else {
                assert(rest[j] == declared[j]);
                assert(before.contains(kind));
                let k = choose|k: int| 0 <= k < before.len() && before[k] == kind;
                assert(now[k] == kind);
            }
        }
    }
}

/// The links of a package are those that its requirements give, each met
/// by one of the packages chosen for it.
pub proof fn lemma_links_are_given(
    scene: Scene,
    declared: Seq<Dependency>,
    chosen: Seq<PackageId>,
    link: Link,
)
    ensures
        links_through(scene, declared, chosen).contains(link) <==> exists|i: int, j: int|
            gives_link(scene, declared, chosen, i, j, link),
    decreases chosen.len(),
{
    if chosen.len() > 0 {
        let rest = chosen.drop_last();
        let raw = chosen.last()@;
        let before = links_through(scene, declared, rest);
        let fresh = links_to(scene, declared, raw);
        let now = links_through(scene, declared, chosen);
        let kinds = admitted_kinds(declared, raw, scene.target, scene.cfgs);
        let last = chosen.len() - 1;
        lemma_links_are_given(scene, declared, rest, link);
        lemma_admitted_kinds(declared, raw, scene.target, scene.cfgs, link.kind);
        if now.contains(link) {
            let k = choose|k: int| 0 <= k < now.len() && now[k] == link;
            if k < before.len() {
                assert(before[k] == link);
                assert(before.contains(link));
                let (i, j) = choose|i: int, j: int|
                    gives_link(scene, declared, rest, i, j, link);
                assert(rest[i] == chosen[i]);
                assert(gives_link(scene, declared, chosen, i, j, link));
            } else {
                assert(fresh[k - before.len()] == link);
                assert(kinds[k - before.len()] == link.kind);
                assert(kinds.contains(link.kind));
                let j = choose|j: int|
                    0 <= j < declared.len() && dep_matches(#[trigger] declared[j], raw) && admits(
                        declared[j].platform,
                        scene.target,
                        scene.cfgs,
                    ) && declared[j].kind == link.kind;
                assert(gives_link(scene, declared, chosen, last, j, link));
            }
        }
        if exists|i: int, j: int| gives_link(scene, declared, chosen, i, j, link) {
            let (i, j) = choose|i: int, j: int| gives_link(scene, declared, chosen, i, j, link);
            if i == last {
                assert(kinds.contains(link.kind));
                let k = choose|k: int| 0 <= k < kinds.len() && kinds[k] == link.kind;
                assert(fresh[k] == link);
                assert(now[before.len() + k] == link);
            } else {
                assert(rest[i] == chosen[i]);
                assert(gives_link(scene, declared, rest, i, j, link));
                assert(before.contains(link));
                let k = choose|k: int| 0 <= k < before.len() && before[k] == link;
                assert(now[k] == link);
            }
        }
    } else {
        assert forall|i: int, j: int| !gives_link(scene, declared, chosen, i, j, link) by {}
    }
}

/// The edges that leave a node, last added first, stand for the links of
/// the node read backwards.
pub proof fn lemma_incident_links(ids: Seq<PackageIdView>, edges: Seq<Edge>, a: int)
    ensures
        incident(edges, a, Direction::Outgoing).map_values(
            |e: Edge| Link { to: ids[e.to], kind: e.kind },
        ) == links_among(ids, edges, a).reverse(),
    decreases edges.len(),
{
    let f = |e: Edge| Link { to: ids[e.to], kind: e.kind };
    let lhs = incident(edges, a, Direction::Outgoing).map_values(f);
    let rhs = links_among(ids, edges, a).reverse();
    if edges.len() > 0 {
        lemma_incident_links(ids, edges.drop_last(), a);
        let before = incident(edges.drop_last(), a, Direction::Outgoing).map_values(f);
        assert(before == links_among(ids, edges.drop_last(), a).reverse());
        if edges.last().from == a {
            assert(lhs.len() == rhs.len());
            assert forall|k: int| 0 <= k < lhs.len() implies lhs[k] == rhs[k] by {
                if k > 0 {
                    assert(lhs[k] == before[k - 1]);
                }
            }
        }
    }
    assert(lhs =~= rhs);
}

/// The roots are in the graph that was grown from them.
pub proof fn lemma_built_holds_roots(scene: Scene, roots: Seq<PackageIdView>, g: GraphView)
    requires
        built(scene, roots, g),
    ensures
        forall|i: int| 0 <= i < roots.len() ==> g.contains(#[trigger] roots[i]),
{
    assert forall|i: int| 0 <= i < roots.len() implies g.contains(#[trigger] roots[i]) by {
        lemma_root_required(scene, roots, i);
    }
}

/// Every package that a package of a built graph was given has its node,
/// whether or not a requirement names it and whatever the platform: where
/// none counts, the node stands without an edge.
pub proof fn lemma_built_holds_given(
    scene: Scene,
    roots: Seq<PackageIdView>,
    g: GraphView,
    p: PackageIdView,
    k: int,
)
    requires
        built(scene, roots, g),
        g.contains(p),
        0 <= k < scene.resolved_for(p).len(),
    ensures
        g.contains(scene.resolved_for(p)[k]),
{
    assert(scene.depends_on(p, scene.resolved_for(p)[k]));
    lemma_required_on(scene, roots, p, scene.resolved_for(p)[k]);
}

/// The direct dependencies of a package in a built graph are the packages
/// that its links lead to, the last link first.
pub proof fn lemma_built_dependencies(
    scene: Scene,
    roots: Seq<PackageIdView>,
    g: GraphView,
    p: PackageIdView,
)
    requires
        built(scene, roots, g),
        g.contains(p),
    ensures
        g.neighbor_ids(p, Direction::Outgoing) == scene.links_of(p).reverse().map_values(
            |l: Link| l.to,
        ),
        g.edge_ids(p) == scene.links_of(p).reverse().map_values(|l: Link| (l.to, l.kind)),
{
    lemma_position_meaning(g.ids(), p);
    let a = g.index_of(p)->0;
    assert(g.ids()[a] == g.nodes[a].id);
    assert(g.out_links(a) == scene.links_of(p));
    lemma_incident_links(g.ids(), g.edges, a);
    lemma_incident_members(g.edges, a, Direction::Outgoing);
    let near = incident(g.edges, a, Direction::Outgoing);
    let mapped = near.map_values(|e: Edge| Link { to: g.ids()[e.to], kind: e.kind });
    assert(mapped == scene.links_of(p).reverse());
    assert forall|k: int| 0 <= k < near.len() implies 0 <= (#[trigger] near[k]).to
        < g.nodes.len() by {
        assert(g.edges.contains(near[k]));
        let at = choose|at: int| 0 <= at < g.edges.len() && g.edges[at] == near[k];
        assert(0 <= g.edges[at].to < g.nodes.len());
    }
    assert(g.neighbor_ids(p, Direction::Outgoing) =~= scene.links_of(p).reverse().map_values(
        |l: Link| l.to,
    )) by {
        let lhs = g.neighbor_ids(p, Direction::Outgoing);
        let rhs = scene.links_of(p).reverse().map_values(|l: Link| l.to);
        assert(lhs.len() == rhs.len());
        assert forall|k: int| 0 <= k < lhs.len() implies lhs[k] == rhs[k] by {
            assert(mapped[k].to == g.ids()[near[k].to]);
        }
    }
    assert(g.edge_ids(p) =~= scene.links_of(p).reverse().map_values(|l: Link| (l.to, l.kind))) by {
        let lhs = g.edge_ids(p);
        let rhs = scene.links_of(p).reverse().map_values(|l: Link| (l.to, l.kind));
        assert(lhs.len() == rhs.len());
        assert forall|k: int| 0 <= k < lhs.len() implies lhs[k] == rhs[k] by {
            assert(mapped[k].to == g.ids()[near[k].to]);
            assert(mapped[k].kind == near[k].kind);
        }
    }
}

/// Edge kinds are those of the declarations: a built graph has an edge of
/// kind `kind` from `p` to `d` exactly where the manifest of `p` declares a
/// requirement of that kind which a package chosen for `p` meets on the
/// platform, with `d` used in its place.
pub proof fn lemma_edges_are_declared(
    scene: Scene,
    roots: Seq<PackageIdView>,
    g: GraphView,
    p: PackageIdView,
    d: PackageIdView,
    kind: Kind,
)
    requires
        built(scene, roots, g),
    ensures
        g.edge_ids(p).contains((d, kind)) <==> g.contains(p) && scene.declares(p, d, kind),
{
    lemma_position_meaning(g.ids(), p);
    if g.contains(p) {
        lemma_built_dependencies(scene, roots, g, p);
        let a = g.index_of(p)->0;
        assert(g.ids()[a] == g.nodes[a].id);
        assert(node_known(scene, roots, g, a));
        let pkg = scene.packages.lookup(p)->Found_0;
        let links = scene.links_of(p);
        let link = Link { to: d, kind };
        lemma_links_are_given(scene, pkg.dependencies@, scene.resolve.chosen_for(p), link);
        let turned = links.reverse().map_values(|l: Link| (l.to, l.kind));
        if g.edge_ids(p).contains((d, kind)) {
            let k = choose|k: int| 0 <= k < turned.len() && turned[k] == (d, kind);
            assert(links[links.len() - 1 - k] == link);
            assert(links.contains(link));
        }
        if links.contains(link) {
            let k = choose|k: int| 0 <= k < links.len() && links[k] == link;
            assert(turned[links.len() - 1 - k] == (d, kind));
        }
    }
}

} // verus!
