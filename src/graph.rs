//! The dependency graph: one node per record, an edge from each record to
//! every record that one of its dependencies admits.

use crate::crates::{Crate, CrateView, DependencyView};
use crate::index::{index_wf, resolve, Index, PackageView};
use crate::version::{range_matches, semver_range_admits};
use petgraph::graph::NodeIndex;
use petgraph::{Directed, Direction, Graph};
use vstd::prelude::*;

verus! {

/// petgraph's adjacency-list graph, held opaque: what it contains is given
/// by `node_total` and `edge_list` through the wrappers below.
#[verifier::external_type_specification]
#[verifier::external_body]
#[verifier::reject_recursive_types(N)]
#[verifier::reject_recursive_types(E)]
#[verifier::reject_recursive_types(Ty)]
#[verifier::reject_recursive_types(Ix)]
pub struct ExGraph<N, E, Ty, Ix>(Graph<N, E, Ty, Ix>);

/// petgraph's marker for directed edges, held opaque.
#[verifier::external_type_specification]
#[verifier::external_body]
pub struct ExDirected(Directed);

/// How many nodes a petgraph graph holds.
pub uninterp spec fn node_total(g: Graph<(), (), Directed, usize>) -> nat;

/// The edges of a petgraph graph, as (source, target) node indices, in the
/// order they were added.
pub uninterp spec fn edge_list(g: Graph<(), (), Directed, usize>) -> Seq<(usize, usize)>;

/// Relies on petgraph's Graph::with_capacity: a graph with no nodes and no edges.
#[verifier::external_body]
fn graph_with_capacity(nodes: usize, edges: usize) -> (g: Graph<(), (), Directed, usize>)
    ensures
        node_total(g) == 0,
        edge_list(g) == Seq::<(usize, usize)>::empty(),
{
    Graph::with_capacity(nodes, edges)
}

/// Relies on petgraph's Graph::add_node: the new node's index is the old node
/// count; with `usize` indices it never runs out.
#[verifier::external_body]
fn graph_add_node(g: &mut Graph<(), (), Directed, usize>) -> (r: usize)
    ensures
        r == node_total(*old(g)),
        node_total(*final(g)) == node_total(*old(g)) + 1,
        edge_list(*final(g)) == edge_list(*old(g)),
{
    g.add_node(()).index()
}

/// Relies on petgraph's Graph::update_edge: an edge a -> b already there is
/// kept, else one is appended; it panics on a node index out of bounds.
#[verifier::external_body]
fn graph_update_edge(g: &mut Graph<(), (), Directed, usize>, a: usize, b: usize)
    requires
        a < node_total(*old(g)),
        b < node_total(*old(g)),
    ensures
        node_total(*final(g)) == node_total(*old(g)),
        edge_list(*old(g)).contains((a, b)) ==> edge_list(*final(g)) == edge_list(*old(g)),
        !edge_list(*old(g)).contains((a, b)) ==> edge_list(*final(g)) == edge_list(*old(g)).push((a, b)),
{
    g.update_edge(NodeIndex::new(a), NodeIndex::new(b), ());
}

/// Relies on petgraph's Graph::neighbors_directed with Direction::Incoming:
/// the sources of the edges that end at `n`.
#[verifier::external_body]
fn graph_incoming(g: &Graph<(), (), Directed, usize>, n: usize) -> (r: Vec<usize>)
    requires
        n < node_total(*g),
    ensures
        forall|x: usize| r@.contains(x) <==> edge_list(*g).contains((x, n)),
{
    g.neighbors_directed(NodeIndex::new(n), Direction::Incoming).map(|i| i.index()).collect()
}

/// Relies on petgraph's Graph::edge_count: the length of the edge list.
#[verifier::external_body]
fn graph_edge_count(g: &Graph<(), (), Directed, usize>) -> (r: usize)
    ensures
        r == edge_list(*g).len(),
{
    g.edge_count()
}

/// The node of the first record of package `p`: the records of the packages
/// before it, counted.
pub open spec fn offset(ix: Seq<PackageView>, p: int) -> int
    decreases p,
{
    if p <= 0 {
        0
    } else {
        offset(ix, p - 1) + ix[p - 1].crates.len()
    }
}

proof fn lemma_offset_monotonic(ix: Seq<PackageView>, p: int, q: int)
    requires
        0 <= p <= q,
    ensures
        offset(ix, p) <= offset(ix, q),
    decreases q - p,
{
    if p < q {
        lemma_offset_monotonic(ix, p, q - 1);
    }
}

/// The node of record `k` of package `p`.
pub open spec fn slot(ix: Seq<PackageView>, p: int, k: int) -> int {
    offset(ix, p) + k
}

/// Node `a` stands for record `nodes[a].1` of package `nodes[a].0`, and the
/// nodes follow the index order.
pub open spec fn nodes_wf(ix: Seq<PackageView>, nodes: Seq<(usize, usize)>, first: Seq<usize>) -> bool {
    &&& first.len() == ix.len()
    &&& ix.len() <= usize::MAX
    &&& forall|p: int| 0 <= p < ix.len() ==> #[trigger] ix[p].crates.len() <= usize::MAX
    &&& nodes.len() == offset(ix, ix.len() as int)
    &&& forall|p: int| 0 <= p < ix.len() ==> first[p] == offset(ix, p)
    &&& forall|p: int, k: int|
        #![trigger slot(ix, p, k)]
        0 <= p < ix.len() && 0 <= k < ix[p].crates.len() ==> nodes[slot(ix, p, k)] == (
            p as usize,
            k as usize,
        )
    &&& forall|a: int|
        0 <= a < nodes.len() ==> {
            &&& nodes[a].0 < ix.len()
            &&& nodes[a].1 < ix[nodes[a].0 as int].crates.len()
            &&& first[nodes[a].0 as int] + nodes[a].1 == a
        }
}

/// The record that node `a` stands for.
pub open spec fn node_crate(ix: Seq<PackageView>, nodes: Seq<(usize, usize)>, a: int) -> CrateView {
    ix[nodes[a].0 as int].crates[nodes[a].1 as int]
}

/// Dependency `d` resolves to the package of node `b`, and its range admits
/// that node's version.
pub open spec fn dep_targets(ix: Seq<PackageView>, nodes: Seq<(usize, usize)>, d: DependencyView, b: int) -> bool {
    &&& resolve(ix, d.name) == Some(nodes[b].0 as int)
    &&& semver_range_admits(d.req, node_crate(ix, nodes, b).version) == Some(true)
}

/// The record of node `a` declares a dependency that admits node `b`.
pub open spec fn depends(ix: Seq<PackageView>, nodes: Seq<(usize, usize)>, a: int, b: int) -> bool {
    exists|i: int|
        0 <= i < node_crate(ix, nodes, a).deps.len() && #[trigger] dep_targets(
            ix,
            nodes,
            node_crate(ix, nodes, a).deps[i],
            b,
        )
}

/// Dependency `d` names a package of the index, and its range can be read
/// against each version of that package.
pub open spec fn dep_resolvable(ix: Seq<PackageView>, d: DependencyView) -> bool {
    &&& resolve(ix, d.name) is Some
    &&& forall|j: int|
        0 <= j < ix[resolve(ix, d.name)->0].crates.len() ==> #[trigger] semver_range_admits(
            d.req,
            ix[resolve(ix, d.name)->0].crates[j].version,
        ) is Some
}

/// Every dependency of every record is resolvable.
pub open spec fn index_resolvable(ix: Seq<PackageView>) -> bool {
    forall|p: int, k: int, i: int|
        0 <= p < ix.len() && 0 <= k < ix[p].crates.len() && 0 <= i < ix[p].crates[k].deps.len()
            ==> #[trigger] dep_resolvable(ix, ix[p].crates[k].deps[i])
}

/// Why the graph of an index cannot be built.
#[derive(Debug, Clone)]
pub enum BuildError {
    /// No package has the dependency's name, nor that name with hyphens for
    /// underscores.
    UnresolvedDependency { name: String },
    /// The dependency's range text cannot be read.
    MalformedRange { name: String, req: String },
}

/// The graph built from an index.
pub struct DependencyGraph {
    index: Index,
    nodes: Vec<(usize, usize)>,
    first: Vec<usize>,
    graph: Graph<(), (), Directed, usize>,
}

impl DependencyGraph {
    /// The index the graph was built from.
    pub closed spec fn source(&self) -> Seq<PackageView> {
        self.index@
    }

    /// Which record each node stands for.
    pub closed spec fn node_map(&self) -> Seq<(usize, usize)> {
        self.nodes@
    }

    /// The edges, each (dependent, dependency).
    pub closed spec fn edges(&self) -> Seq<(usize, usize)> {
        edge_list(self.graph)
    }

    /// The graph of `ix`: a node for each record, in index order, and an edge
    /// exactly where a record's dependency admits another record, each once.
    pub open spec fn represents(&self, ix: Seq<PackageView>) -> bool {
        &&& self.source() == ix
        &&& self.node_map().len() == offset(ix, ix.len() as int)
        &&& forall|p: int, k: int|
            #![trigger slot(ix, p, k)]
            0 <= p < ix.len() && 0 <= k < ix[p].crates.len() ==> self.node_map()[slot(ix, p, k)] == (
                p as usize,
                k as usize,
            )
        &&& self.edges().no_duplicates()
        &&& forall|x: usize, y: usize|
            x < self.node_map().len() && y < self.node_map().len() ==> (#[trigger] self.edges().contains(
                (x, y),
            ) <==> depends(ix, self.node_map(), x as int, y as int))
    }

    pub closed spec fn wf(&self) -> bool {
        &&& self.index.wf()
        &&& nodes_wf(self.index@, self.nodes@, self.first@)
        &&& node_total(self.graph) == self.nodes@.len()
        &&& edge_list(self.graph).no_duplicates()
        &&& forall|x: usize, y: usize|
            #[trigger] edge_list(self.graph).contains((x, y)) ==> x < self.nodes@.len() && y
                < self.nodes@.len()
        &&& forall|x: usize, y: usize|
            x < self.nodes@.len() && y < self.nodes@.len() ==> (#[trigger] edge_list(
                self.graph,
            ).contains((x, y)) <==> depends(self.index@, self.nodes@, x as int, y as int))
    }

    /// Every edge joins two nodes of the graph.
    pub proof fn lemma_edges_in_range(&self)
        requires
            self.wf(),
        ensures
            forall|x: usize, y: usize|
                #[trigger] self.edges().contains((x, y)) ==> x < self.node_map().len() && y
                    < self.node_map().len(),
    {
    }

    /// Every node stands for a record of a package of the index.
    pub proof fn lemma_nodes_in_range(&self)
        requires
            self.wf(),
        ensures
            forall|a: int|
                0 <= a < self.node_map().len() ==> #[trigger] self.node_map()[a].0 < self.source().len()
                    && self.node_map()[a].1 < self.source()[self.node_map()[a].0 as int].crates.len(),
    {
    }

    /// Two nodes that stand for the same record are one node.
    pub proof fn lemma_node_unique(&self, x: usize, y: usize)
        requires
            self.wf(),
            x < self.node_map().len(),
            y < self.node_map().len(),
            self.node_map()[x as int] == self.node_map()[y as int],
        ensures
            x == y,
    {
    }

    /// The node of record `k` of package `p`.
    pub fn node_of(&self, p: usize, k: usize) -> (r: usize)
        requires
            self.wf(),
            p < self.source().len(),
            k < self.source()[p as int].crates.len(),
        ensures
            r == slot(self.source(), p as int, k as int),
            r < self.node_map().len(),
            self.node_map()[r as int] == (p, k),
    {
        proof {
            lemma_offset_monotonic(self.index@, p + 1, self.index@.len() as int);
            assert(offset(self.index@, p + 1) == offset(self.index@, p as int) + self.index@[p as int].crates.len());
            assert(self.nodes@[slot(self.index@, p as int, k as int)] == (p, k));
        }
        let _n = self.nodes.len();
        self.first[p] + k
    }

    /// The index the graph was built from.
    pub fn index(&self) -> (r: &Index)
        ensures
            r@ == self.source(),
            self.wf() ==> r.wf(),
    {
        &self.index
    }

    /// The number of nodes: one per record of the index.
    pub fn node_count(&self) -> (r: usize)
        requires
            self.wf(),
        ensures
            r == self.node_map().len(),
            r == offset(self.source(), self.source().len() as int),
    {
        self.nodes.len()
    }

    /// The number of distinct (dependent, dependency) edges.
    pub fn edge_count(&self) -> (r: usize)
        ensures
            r == self.edges().len(),
    {
        graph_edge_count(&self.graph)
    }

    /// The package and the position within it of the record of node `a`.
    pub fn record_of(&self, a: usize) -> (r: (usize, usize))
        requires
            a < self.node_map().len(),
        ensures
            r == self.node_map()[a as int],
    {
        self.nodes[a]
    }

    /// The nodes with an edge to `n`: the records that depend on it directly.
    pub fn dependents(&self, n: usize) -> (r: Vec<usize>)
        requires
            self.wf(),
            n < self.node_map().len(),
        ensures
            forall|x: usize| r@.contains(x) <==> self.edges().contains((x, n)),
            forall|i: int| 0 <= i < r@.len() ==> r@[i] < self.node_map().len(),
    {
        let r = graph_incoming(&self.graph, n);
        proof {
            assert forall|i: int| 0 <= i < r@.len() implies r@[i] < self.node_map().len() by {
                assert(r@.contains(r@[i]));
                assert(edge_list(self.graph).contains((r@[i], n)));
            }
        }
        r
    }
}

fn lay_out_nodes(index: &Index) -> (r: (Vec<(usize, usize)>, Vec<usize>, Graph<(), (), Directed, usize>))
    requires
        index.wf(),
    ensures
        nodes_wf(index@, r.0@, r.1@),
        node_total(r.2) == r.0@.len(),
        edge_list(r.2) == Seq::<(usize, usize)>::empty(),
{
    let ghost ix = index@;
    let pkgs = index.packages();
    let mut nodes: Vec<(usize, usize)> = Vec::new();
    let mut first: Vec<usize> = Vec::new();
    let mut graph = graph_with_capacity(0, 0);
    let mut p: usize = 0;
    while p < pkgs.len()
        invariant
            pkgs@.map_values(|x: crate::index::Package| x@) == ix,
            p <= ix.len(),
            ix.len() == pkgs.len(),
            forall|q: int| 0 <= q < p ==> #[trigger] ix[q].crates.len() <= usize::MAX,
            first@.len() == p,
            nodes@.len() == offset(ix, p as int),
            forall|q: int| 0 <= q < p ==> first@[q] == offset(ix, q),
            forall|q: int, k: int|
                #![trigger slot(ix, q, k)]
                0 <= q < p && 0 <= k < ix[q].crates.len() ==> nodes@[slot(ix, q, k)] == (q as usize, k as usize),
            forall|a: int|
                0 <= a < nodes@.len() ==> {
                    &&& nodes@[a].0 < p
                    &&& nodes@[a].1 < ix[nodes@[a].0 as int].crates.len()
                    &&& first@[nodes@[a].0 as int] + nodes@[a].1 == a
                },
            node_total(graph) == nodes@.len(),
            edge_list(graph) == Seq::<(usize, usize)>::empty(),
        decreases pkgs.len() - p,
    {
        assert(ix[p as int] == pkgs@[p as int]@);
        first.push(nodes.len());
        assert(forall|q: int| 0 <= q < p ==> first@[q] == offset(ix, q));
        assert(forall|q: int, j: int|
                    #![trigger slot(ix, q, j)]
                    0 <= q < p && 0 <= j < ix[q].crates.len() ==> nodes@[slot(ix, q, j)] == (q as usize, j as usize));
        let mut k: usize = 0;
        while k < pkgs[p].crates.len()
            invariant
                pkgs@.map_values(|x: crate::index::Package| x@) == ix,
                p < ix.len(),
                ix.len() == pkgs.len(),
                forall|q: int| 0 <= q < p ==> #[trigger] ix[q].crates.len() <= usize::MAX,
                ix[p as int].crates.len() == pkgs[p as int].crates.len(),
                ix[p as int] == pkgs@[p as int]@,
                k <= ix[p as int].crates.len(),
                first@.len() == p + 1,
                first@[p as int] == offset(ix, p as int),
                nodes@.len() == offset(ix, p as int) + k,
                forall|q: int| 0 <= q < p ==> first@[q] == offset(ix, q),
                forall|q: int, j: int|
                    #![trigger slot(ix, q, j)]
                    0 <= q < p && 0 <= j < ix[q].crates.len() ==> nodes@[slot(ix, q, j)] == (q as usize, j as usize),
                forall|j: int|
                    #![trigger slot(ix, p as int, j)]
                    0 <= j < k ==> nodes@[slot(ix, p as int, j)] == (p, j as usize),
                forall|a: int|
                    0 <= a < nodes@.len() ==> {
                        &&& nodes@[a].0 <= p
                        &&& nodes@[a].1 < ix[nodes@[a].0 as int].crates.len()
                        &&& first@[nodes@[a].0 as int] + nodes@[a].1 == a
                    },
                node_total(graph) == nodes@.len(),
                edge_list(graph) == Seq::<(usize, usize)>::empty(),
            decreases ix[p as int].crates.len() - k,
        {
            graph_add_node(&mut graph);
            let ghost before = nodes@;
            nodes.push((p, k));
            proof {
                assert forall|q: int, j: int|
                    #![trigger slot(ix, q, j)]
                    0 <= q < p && 0 <= j < ix[q].crates.len() implies nodes@[slot(ix, q, j)] == (q as usize, j as usize) by {
                    lemma_offset_monotonic(ix, q + 1, p as int);
                    assert(before[slot(ix, q, j)] == (q as usize, j as usize));
                }
            }
            k = k + 1;
        }
        proof {
            assert(offset(ix, p + 1) == offset(ix, p as int) + ix[p as int].crates.len());
            assert forall|q: int, j: int|
                #![trigger slot(ix, q, j)]
                0 <= q <= p && 0 <= j < ix[q].crates.len() implies nodes@[slot(ix, q, j)] == (q as usize, j as usize) by {
                if q == p {
                    assert(ix[p as int].crates[j] == ix[p as int].crates[j]);
                }
            }
        }
        p = p + 1;
    }
    proof {
        assert forall|q: int, k: int|
            #![trigger slot(ix, q, k)]
            0 <= q < ix.len() && 0 <= k < ix[q].crates.len() implies nodes@[slot(ix, q, k)] == (q as usize, k as usize) by {
            assert(first@[q] == offset(ix, q));
        }
    }
    (nodes, first, graph)
}

/// Dependency `d` is declared by some record of the index.
pub open spec fn declares(ix: Seq<PackageView>, d: DependencyView) -> bool {
    exists|p: int, k: int, i: int|
        #![trigger ix[p].crates[k].deps[i]]
        0 <= p < ix.len() && 0 <= k < ix[p].crates.len() && 0 <= i < ix[p].crates[k].deps.len()
            && ix[p].crates[k].deps[i] == d
}

/// Dependency `i` of the record of node `a`.
pub open spec fn dep_of(ix: Seq<PackageView>, nodes: Seq<(usize, usize)>, a: int, i: int) -> DependencyView {
    node_crate(ix, nodes, a).deps[i]
}

impl DependencyGraph {
    /// Builds the graph of an index: a node for every record, and an edge
    /// from a record to every version of the package each dependency
    /// resolves to that the dependency's range admits. Fails on the first
    /// dependency that resolves to no package, or whose range cannot be read.
    pub fn build(index: Index) -> (r: Result<DependencyGraph, BuildError>)
        requires
            index.wf(),
        ensures
            r is Ok <==> index_resolvable(index@),
            r matches Ok(g) ==> g.wf() && g.represents(index@),
            r matches Err(BuildError::UnresolvedDependency { name }) ==> resolve(index@, name@) is None
                && exists|d: DependencyView| #[trigger] declares(index@, d) && d.name == name@,
            r matches Err(BuildError::MalformedRange { name, req }) ==> declares(
                index@,
                DependencyView { name: name@, req: req@ },
            ) && !dep_resolvable(index@, DependencyView { name: name@, req: req@ }),
    {
        let ghost ix = index@;
        let (nodes, first, mut graph) = lay_out_nodes(&index);
        let n = nodes.len();
        let pkgs = index.packages();
        let mut a: usize = 0;
        while a < n
            invariant
                index.wf(),
                ix == index@,
                pkgs@.map_values(|x: crate::index::Package| x@) == ix,
                nodes_wf(ix, nodes@, first@),
                n == nodes@.len(),
                a <= n,
                node_total(graph) == n,
                edge_list(graph).no_duplicates(),
                forall|x: usize, y: usize|
                    #[trigger] edge_list(graph).contains((x, y)) ==> x < n && y < n,
                forall|x: usize, y: usize|
                    x < n && y < n ==> (#[trigger] edge_list(graph).contains((x, y)) <==> (x < a
                        && depends(ix, nodes@, x as int, y as int))),
                forall|x: int, i: int|
                    0 <= x < a && 0 <= i < node_crate(ix, nodes@, x).deps.len() ==> dep_resolvable(
                        ix,
                        #[trigger] dep_of(ix, nodes@, x, i),
                    ),
            decreases n - a,
        {
            let (p, k) = nodes[a];
            let ghost c = node_crate(ix, nodes@, a as int);
            assert(pkgs@[p as int]@ == ix[p as int]);
            assert(pkgs@[p as int].crates@[k as int]@ == c);
            let krate = &pkgs[p].crates[k];
            let mut i: usize = 0;
            while i < krate.dependencies.len()
                invariant
                    index.wf(),
                    ix == index@,
                    pkgs@.map_values(|x: crate::index::Package| x@) == ix,
                    nodes_wf(ix, nodes@, first@),
                    n == nodes@.len(),
                    a < n,
                    nodes@[a as int] == (p, k),
                    krate@ == c,
                    c == node_crate(ix, nodes@, a as int),
                    i <= c.deps.len(),
                    node_total(graph) == n,
                    edge_list(graph).no_duplicates(),
                    forall|x: usize, y: usize|
                        #[trigger] edge_list(graph).contains((x, y)) ==> x < n && y < n,
                    forall|x: usize, y: usize|
                        x < n && y < n ==> (#[trigger] edge_list(graph).contains((x, y)) <==> ((x < a
                            && depends(ix, nodes@, x as int, y as int)) || (x == a && exists|i0: int|
                            0 <= i0 < i && #[trigger] dep_targets(ix, nodes@, c.deps[i0], y as int)))),
                    forall|x: int, i0: int|
                        0 <= x < a && 0 <= i0 < node_crate(ix, nodes@, x).deps.len() ==> dep_resolvable(
                            ix,
                            #[trigger] dep_of(ix, nodes@, x, i0),
                        ),
                    forall|i0: int| 0 <= i0 < i ==> dep_resolvable(ix, #[trigger] c.deps[i0]),
                decreases c.deps.len() - i,
            {
                let dep = &krate.dependencies[i];
                let ghost d = c.deps[i as int];
                assert(dep@ == d);
                let q = match index.resolve(dep.name.as_str()) {
                    Some(q) => q,
                    None => {
                        proof {
                            assert(ix[p as int].crates[k as int].deps[i as int] == d);
                            assert(declares(ix, d));
                            assert(!dep_resolvable(ix, ix[p as int].crates[k as int].deps[i as int]));
                        }
                        return Err(BuildError::UnresolvedDependency { name: dep.name.clone() });
                    },
                };
                assert(pkgs@[q as int]@ == ix[q as int]);
                let cands = &pkgs[q].crates;
                let base = first[q];
                let mut j: usize = 0;
                while j < cands.len()
                    invariant
                        index.wf(),
                        ix == index@,
                        pkgs@.map_values(|x: crate::index::Package| x@) == ix,
                        nodes_wf(ix, nodes@, first@),
                        n == nodes@.len(),
                        a < n,
                        nodes@[a as int] == (p, k),
                        c == node_crate(ix, nodes@, a as int),
                        i < c.deps.len(),
                        d == c.deps[i as int],
                        dep@ == d,
                        resolve(ix, d.name) == Some(q as int),
                        q < ix.len(),
                        crate::index::crates_view(cands@) == ix[q as int].crates,
                        base == offset(ix, q as int),
                        j <= cands.len(),
                        node_total(graph) == n,
                        edge_list(graph).no_duplicates(),
                        forall|x: usize, y: usize|
                            #[trigger] edge_list(graph).contains((x, y)) ==> x < n && y < n,
                        forall|x: usize, y: usize|
                            x < n && y < n ==> (#[trigger] edge_list(graph).contains((x, y)) <==> ((x
                                < a && depends(ix, nodes@, x as int, y as int)) || (x == a && exists|i0: int|
                                0 <= i0 < i && #[trigger] dep_targets(ix, nodes@, c.deps[i0], y as int))
                                || (x == a && nodes@[y as int].0 == q && nodes@[y as int].1 < j
                                && dep_targets(ix, nodes@, d, y as int)))),
                        forall|x: int, i0: int|
                            0 <= x < a && 0 <= i0 < node_crate(ix, nodes@, x).deps.len() ==> dep_resolvable(
                                ix,
                                #[trigger] dep_of(ix, nodes@, x, i0),
                            ),
                        forall|i0: int| 0 <= i0 < i ==> dep_resolvable(ix, #[trigger] c.deps[i0]),
                        forall|j0: int|
                            0 <= j0 < j ==> #[trigger] semver_range_admits(d.req, ix[q as int].crates[j0].version) is Some,
                    decreases cands.len() - j,
                {
                    assert(cands@[j as int]@ == ix[q as int].crates[j as int]);
                    let ghost b_ghost = slot(ix, q as int, j as int);
                    proof {
                        crate::graph::lemma_offset_monotonic(ix, q + 1, ix.len() as int);
                        assert(nodes@[b_ghost] == (q, j));
                    }
                    match range_matches(dep.req.as_str(), &cands[j].version) {
                        None => {
                            proof {
                                assert(ix[p as int].crates[k as int].deps[i as int] == d);
                                assert(declares(ix, d));
                                assert(semver_range_admits(d.req, ix[q as int].crates[j as int].version) is None);
                                assert(!dep_resolvable(ix, d));
                                assert(!dep_resolvable(ix, ix[p as int].crates[k as int].deps[i as int]));
                            }
                            let name = dep.name.clone();
                            let req = dep.req.clone();
                            assert(DependencyView { name: name@, req: req@ } == d);
                            return Err(BuildError::MalformedRange { name, req });
                        },
                        Some(admitted) => {
                            let b = base + j;
                            if admitted {
                                let ghost before = edge_list(graph);
                                graph_update_edge(&mut graph, a, b);
                                proof {
                                    assert(dep_targets(ix, nodes@, d, b as int));
                                    if !before.contains((a, b)) {
                                        assert(edge_list(graph).no_duplicates()) by {
                                            let e = edge_list(graph);
                                            assert forall|u: int, v: int| 0 <= u < v < e.len() implies e[u] != e[v] by {
                                                if v == e.len() - 1 {
                                                    assert(before.contains(e[u]));
                                                }
                                            }
                                        }
                                        assert forall|x: usize, y: usize| #[trigger] edge_list(graph).contains((x, y))
                                            implies before.contains((x, y)) || (x == a && y == b) by {
                                            let w = choose|t: int| 0 <= t < edge_list(graph).len() && edge_list(graph)[t] == (x, y);
                                            if w < before.len() {
                                                assert(before[w] == (x, y));
                                            }
                                        }
                                        assert(edge_list(graph).contains((a, b))) by {
                                            assert(edge_list(graph)[before.len() as int] == (a, b));
                                        }
                                        assert forall|x: usize, y: usize| before.contains((x, y))
                                            implies #[trigger] edge_list(graph).contains((x, y)) by {
                                            let w = choose|t: int| 0 <= t < before.len() && before[t] == (x, y);
                                            assert(edge_list(graph)[w] == (x, y));
                                        }
                                    }
                                }
                            }
                            j = j + 1;
                        },
                    }
                }
                proof {
                    assert forall|y: usize| y < n && dep_targets(ix, nodes@, d, y as int) implies nodes@[y as int].0 == q
                        && nodes@[y as int].1 < j by {}
                    assert forall|i0: int| 0 <= i0 < i + 1 implies dep_resolvable(ix, #[trigger] c.deps[i0]) by {
                        if i0 == i {
                            assert(dep_resolvable(ix, d));
                        }
                    }
                    assert forall|x: usize, y: usize|
                        x < n && y < n implies (#[trigger] edge_list(graph).contains((x, y)) <==> ((x < a
                            && depends(ix, nodes@, x as int, y as int)) || (x == a && exists|i0: int|
                            0 <= i0 < i + 1 && #[trigger] dep_targets(ix, nodes@, c.deps[i0], y as int)))) by {
                        if x == a && dep_targets(ix, nodes@, d, y as int) {
                            assert(dep_targets(ix, nodes@, c.deps[i as int], y as int));
                        }
                        if x == a && (exists|i0: int| 0 <= i0 < i + 1 && #[trigger] dep_targets(ix, nodes@, c.deps[i0], y as int)) {
                            let i0 = choose|i0: int| 0 <= i0 < i + 1 && #[trigger] dep_targets(ix, nodes@, c.deps[i0], y as int);
                            if i0 == i {
                                assert(dep_targets(ix, nodes@, d, y as int));
                            }
                        }
                    }
                }
                i = i + 1;
            }
            proof {
                assert forall|x: int, i0: int|
                    0 <= x < a + 1 && 0 <= i0 < node_crate(ix, nodes@, x).deps.len() implies dep_resolvable(
                        ix,
                        #[trigger] dep_of(ix, nodes@, x, i0),
                    ) by {
                    if x == a {
                        assert(dep_of(ix, nodes@, x, i0) == c.deps[i0]);
                    }
                }
                assert forall|x: usize, y: usize|
                    x < n && y < n implies (#[trigger] edge_list(graph).contains((x, y)) <==> (x < a + 1
                        && depends(ix, nodes@, x as int, y as int))) by {
                    if x == a && depends(ix, nodes@, x as int, y as int) {
                        let i0 = choose|i0: int| 0 <= i0 < node_crate(ix, nodes@, x as int).deps.len() && #[trigger] dep_targets(ix, nodes@, node_crate(ix, nodes@, x as int).deps[i0], y as int);
                        assert(dep_targets(ix, nodes@, c.deps[i0], y as int));
                    }
                }
            }
            a = a + 1;
        }
        proof {
            assert forall|p: int, k: int, i: int|
                0 <= p < ix.len() && 0 <= k < ix[p].crates.len() && 0 <= i < ix[p].crates[k].deps.len()
                    implies #[trigger] dep_resolvable(ix, ix[p].crates[k].deps[i]) by {
                let x = slot(ix, p, k);
                assert(nodes_wf(ix, nodes@, first@));
                lemma_offset_monotonic(ix, p + 1, ix.len() as int);
                assert(nodes@[x] == (p as usize, k as usize));
                assert(node_crate(ix, nodes@, x) == ix[p].crates[k]);
                assert(dep_of(ix, nodes@, x, i) == ix[p].crates[k].deps[i]);
            }
        }
        let g = DependencyGraph { index, nodes, first, graph };
        proof {
            assert(g.wf());
        }
        Ok(g)
    }
}

/// Building the graph of one index twice gives the same nodes, standing for
/// the same records, and the same number of edges.
pub proof fn lemma_build_idempotent(ix: Seq<PackageView>, g1: DependencyGraph, g2: DependencyGraph)
    requires
        g1.wf(),
        g2.wf(),
        g1.source() == ix,
        g2.source() == ix,
    ensures
        g1.node_map() == g2.node_map(),
        g1.edges().len() == g2.edges().len(),
        g1.edges().to_set() == g2.edges().to_set(),
{
    let n1 = g1.nodes@;
    let n2 = g2.nodes@;
    assert forall|a: int| 0 <= a < n1.len() implies n1[a] == n2[a] by {
        let p = n1[a].0 as int;
        let k = n1[a].1 as int;
        assert(slot(ix, p, k) == a);
        assert(n2[slot(ix, p, k)] == (p as usize, k as usize));
    }
    assert(n1 =~= n2);
    let e1 = g1.edges();
    let e2 = g2.edges();
    assert forall|e: (usize, usize)| e1.contains(e) <==> e2.contains(e) by {
        if e1.contains(e) {
            assert(edge_list(g1.graph).contains((e.0, e.1)));
        }
        if e2.contains(e) {
            assert(edge_list(g2.graph).contains((e.0, e.1)));
        }
    }
    assert(e1.to_set() =~= e2.to_set());
    e1.unique_seq_to_set();
    e2.unique_seq_to_set();
}

} // verus!
