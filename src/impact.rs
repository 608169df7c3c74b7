//! Reverse reachability: what breaks when a version breaks.

use crate::graph::DependencyGraph;
use vstd::prelude::*;
use vstd::set_lib::{lemma_int_range, lemma_len_subset, set_int_range};

verus! {

/// `u` depends directly on `v`: an edge leads from `u` to `v`.
pub open spec fn has_edge(e: Seq<(usize, usize)>, u: usize, v: usize) -> bool {
    e.contains((u, v))
}

/// `path` walks along edges, from each node to the next.
pub open spec fn is_path(e: Seq<(usize, usize)>, path: Seq<usize>) -> bool
    decreases path.len(),
{
    path.len() <= 1 || (has_edge(e, path[0], path[1]) && is_path(e, path.drop_first()))
}

/// `x` depends on `root`, directly or through other nodes: a walk of at
/// least one edge leads from `x` to `root`.
pub open spec fn reaches(e: Seq<(usize, usize)>, x: usize, root: usize) -> bool {
    exists|path: Seq<usize>|
        path.len() >= 2 && path[0] == x && path[path.len() - 1] == root && #[trigger] is_path(e, path)
}

/// What breaks when `root` breaks: every node that depends on it, the root
/// itself excepted.
pub open spec fn broken_by(e: Seq<(usize, usize)>, root: usize) -> Set<usize> {
    Set::new(|x: usize| x != root && reaches(e, x, root))
}

/// A set of visited nodes that holds each source of an edge into it.
pub open spec fn closed_under_dependents(e: Seq<(usize, usize)>, visited: Seq<bool>) -> bool {
    forall|u: usize, v: usize|
        #[trigger] has_edge(e, u, v) && v < visited.len() && visited[v as int] ==> u < visited.len()
            && visited[u as int]
}

proof fn lemma_closed_holds_walkers(e: Seq<(usize, usize)>, visited: Seq<bool>, path: Seq<usize>)
    requires
        closed_under_dependents(e, visited),
        is_path(e, path),
        path.len() >= 1,
        path[path.len() - 1] < visited.len(),
        visited[path[path.len() - 1] as int],
    ensures
        path[0] < visited.len() && visited[path[0] as int],
    decreases path.len(),
{
    if path.len() > 1 {
        let rest = path.drop_first();
        assert(rest[rest.len() - 1] == path[path.len() - 1]);
        lemma_closed_holds_walkers(e, visited, rest);
        assert(has_edge(e, path[0], rest[0]));
    }
}

proof fn lemma_extend_walk(e: Seq<(usize, usize)>, s: usize, node: usize, root: usize)
    requires
        has_edge(e, s, node),
        node == root || reaches(e, node, root),
    ensures
        reaches(e, s, root),
{
    if node == root {
        let path = seq![s, root];
        assert(path.drop_first() =~= seq![root]);
        assert(is_path(e, path.drop_first()));
        assert(is_path(e, path));
    } else {
        let p = choose|path: Seq<usize>|
            path.len() >= 2 && path[0] == node && path[path.len() - 1] == root && #[trigger] is_path(e, path);
        let q = seq![s] + p;
        assert(q.drop_first() =~= p);
        assert(is_path(e, q));
        assert(q[q.len() - 1] == root);
    }
}

/// Every node that depends on `root`, directly or not, in increasing order;
/// never `root` itself, and finite on a graph with cycles.
pub fn broken_versions(g: &DependencyGraph, root: usize) -> (r: Vec<usize>)
    requires
        g.wf(),
        root < g.node_map().len(),
    ensures
        forall|i: int, j: int| 0 <= i < j < r@.len() ==> r@[i] < r@[j],
        forall|x: usize| r@.contains(x) <==> broken_by(g.edges(), root).contains(x),
        !r@.contains(root),
{
    let n = g.node_count();
    let ghost e = g.edges();
    proof {
        g.lemma_edges_in_range();
    }
    let mut visited: Vec<bool> = Vec::new();
    let mut t: usize = 0;
    while t < n
        invariant
            t <= n,
            visited@.len() == t,
            forall|x: int| 0 <= x < t ==> !visited@[x],
        decreases n - t,
    {
        visited.push(false);
        t = t + 1;
    }
    visited.set(root, true);
    let mut stack: Vec<usize> = Vec::new();
    stack.push(root);
    let ghost mut seen: Set<int> = set![root as int];
    assert(stack@[0] == root);
    proof {
        lemma_int_range(0, n as int);
    }
    while stack.len() > 0
        invariant
            g.wf(),
            e == g.edges(),
            n == g.node_map().len(),
            root < n,
            visited@.len() == n,
            visited@[root as int],
            forall|x: usize, y: usize| #[trigger] has_edge(e, x, y) ==> x < n && y < n,
            forall|x: int| 0 <= x < stack@.len() ==> stack@[x] < n && visited@[stack@[x] as int],
            forall|x: usize| x < n && visited@[x as int] ==> x == root || reaches(e, x, root),
            forall|u: usize, v: usize|
                #[trigger] has_edge(e, u, v) && v < n && visited@[v as int] && !stack@.contains(v) ==> visited@[u as int],
            seen.finite(),
            seen.subset_of(set_int_range(0, n as int)),
            forall|x: int| seen.contains(x) <==> 0 <= x < n && visited@[x],
        decreases n - seen.len(), stack@.len(),
    {
        let ghost before_stack = stack@;
        let cur = stack.pop().unwrap();
        let ghost popped = stack@;
        proof {
            assert(before_stack =~= popped.push(cur));
            assert forall|v: usize| before_stack.contains(v) && v != cur implies popped.contains(v) by {
                let w = choose|w: int| 0 <= w < before_stack.len() && before_stack[w] == v;
                assert(popped[w] == v);
            }
            assert forall|u: usize, v: usize|
                #[trigger] has_edge(e, u, v) && v < n && visited@[v as int] && v != cur && !stack@.contains(v) implies visited@[u as int] by {
                assert(!before_stack.contains(v));
            }
        }
        let preds = g.dependents(cur);
        let ghost seen0 = seen;
        let mut i: usize = 0;
        while i < preds.len()
            invariant
                g.wf(),
                e == g.edges(),
                n == g.node_map().len(),
                root < n,
                cur < n,
                visited@[cur as int],
                visited@.len() == n,
                visited@[root as int],
                i <= preds.len(),
                forall|x: usize| preds@.contains(x) <==> has_edge(e, x, cur),
                forall|x: int| 0 <= x < preds@.len() ==> preds@[x] < n,
                forall|x: int| 0 <= x < i ==> visited@[preds@[x] as int],
                forall|x: usize, y: usize| #[trigger] has_edge(e, x, y) ==> x < n && y < n,
                forall|x: int| 0 <= x < stack@.len() ==> stack@[x] < n && visited@[stack@[x] as int],
                forall|x: usize| x < n && visited@[x as int] ==> x == root || reaches(e, x, root),
                forall|u: usize, v: usize|
                    #[trigger] has_edge(e, u, v) && v < n && visited@[v as int] && v != cur && !stack@.contains(v) ==> visited@[u as int],
                forall|v: usize| popped.contains(v) ==> stack@.contains(v),
                seen.finite(),
                seen.subset_of(set_int_range(0, n as int)),
                forall|x: int| seen.contains(x) <==> 0 <= x < n && visited@[x],
                seen0.finite(),
                seen0.len() <= seen.len(),
                seen.len() == seen0.len() ==> stack@ == popped,
            decreases preds.len() - i,
        {
            let s = preds[i];
            if !visited[s] {
                proof {
                    assert(preds@.contains(s));
                    lemma_extend_walk(e, s, cur, root);
                    assert(!seen.contains(s as int));
                }
                visited.set(s, true);
                let ghost old_stack = stack@;
                stack.push(s);
                proof {
                    seen = seen.insert(s as int);
                    assert(stack@[stack@.len() - 1] == s);
                    assert forall|v: usize| old_stack.contains(v) implies stack@.contains(v) by {
                        let w = choose|w: int| 0 <= w < old_stack.len() && old_stack[w] == v;
                        assert(stack@[w] == v);
                    }
                }
            }
            i = i + 1;
        }
        proof {
            assert forall|u: usize| #[trigger] has_edge(e, u, cur) implies visited@[u as int] by {
                assert(preds@.contains(u));
                let w = choose|x: int| 0 <= x < preds@.len() && preds@[x] == u;
            }
            lemma_int_range(0, n as int);
            lemma_len_subset(seen, set_int_range(0, n as int));
        }
    }
    proof {
        assert(closed_under_dependents(e, visited@));
    }
    let mut out: Vec<usize> = Vec::new();
    let mut x: usize = 0;
    while x < n
        invariant
            g.wf(),
            e == g.edges(),
            n == g.node_map().len(),
            x <= n,
            root < n,
            visited@.len() == n,
            visited@[root as int],
            closed_under_dependents(e, visited@),
            forall|y: usize| y < n && visited@[y as int] ==> y == root || reaches(e, y, root),
            forall|i: int| 0 <= i < out@.len() ==> out@[i] < x,
            forall|i: int, j: int| 0 <= i < j < out@.len() ==> out@[i] < out@[j],
            forall|y: usize| out@.contains(y) <==> y < x && broken_by(e, root).contains(y),
        decreases n - x,
    {
        proof {
            if x != root && reaches(e, x, root) {
                let p = choose|path: Seq<usize>|
                    path.len() >= 2 && path[0] == x && path[path.len() - 1] == root && #[trigger] is_path(e, path);
                lemma_closed_holds_walkers(e, visited@, p);
            }
        }
        proof {
            assert(broken_by(e, root).contains(x) <==> (x != root && reaches(e, x, root)));
        }
        let ghost old_out = out@;
        if visited[x] && x != root {
            out.push(x);
        }
        proof {
            assert forall|y: usize| out@.contains(y) <==> y < x + 1 && broken_by(e, root).contains(y) by {
                if out@.contains(y) {
                    let w = choose|w: int| 0 <= w < out@.len() && out@[w] == y;
                    if w < old_out.len() {
                        assert(old_out[w] == y);
                        assert(old_out.contains(y));
                    }
                }
                if y < x && old_out.contains(y) {
                    let w = choose|w: int| 0 <= w < old_out.len() && old_out[w] == y;
                    assert(out@[w] == y);
                }
                if y == x && out@.len() > old_out.len() {
                    assert(out@[out@.len() - 1] == x);
                }
                if y == x {
                    if visited@[x as int] && x != root {
                        assert(reaches(e, x, root));
                        assert(broken_by(e, root).contains(y));
                        assert(out@.contains(y));
                    } else {
                        assert(!broken_by(e, root).contains(y));
                        assert(!out@.contains(y));
                    }
                }
            }
        }
        x = x + 1;
    }
    proof {
        assert forall|y: usize| broken_by(e, root).contains(y) implies y < n by {
            let p = choose|path: Seq<usize>|
                path.len() >= 2 && path[0] == y && path[path.len() - 1] == root && #[trigger] is_path(e, path);
            assert(has_edge(e, p[0], p[1]));
        }
    }
    out
}

/// The packages that the nodes of `s` belong to.
pub open spec fn packages_of(nodes: Seq<(usize, usize)>, s: Set<usize>) -> Set<usize> {
    Set::new(|p: usize| exists|x: usize| #[trigger] s.contains(x) && x < nodes.len() && nodes[x as int].0 == p)
}

/// What breaks when any of `roots` breaks: the union of what each breaks.
pub open spec fn broken_by_any(e: Seq<(usize, usize)>, roots: Seq<usize>) -> Set<usize> {
    Set::new(|x: usize| exists|i: int| 0 <= i < roots.len() && #[trigger] broken_by(e, roots[i]).contains(x))
}

/// The positions of `flags` that hold `true`, in increasing order.
fn marked(flags: &Vec<bool>) -> (r: Vec<usize>)
    ensures
        forall|i: int, j: int| 0 <= i < j < r@.len() ==> r@[i] < r@[j],
        forall|x: usize| r@.contains(x) <==> x < flags@.len() && flags@[x as int],
{
    let mut out: Vec<usize> = Vec::new();
    let mut x: usize = 0;
    while x < flags.len()
        invariant
            x <= flags@.len(),
            forall|i: int| 0 <= i < out@.len() ==> out@[i] < x,
            forall|i: int, j: int| 0 <= i < j < out@.len() ==> out@[i] < out@[j],
            forall|y: usize| out@.contains(y) <==> y < x && flags@[y as int],
        decreases flags@.len() - x,
    {
        let ghost old_out = out@;
        if flags[x] {
            out.push(x);
        }
        proof {
            assert forall|y: usize| out@.contains(y) <==> y < x + 1 && flags@[y as int] by {
                if out@.contains(y) {
                    let w = choose|w: int| 0 <= w < out@.len() && out@[w] == y;
                    if w < old_out.len() {
                        assert(old_out[w] == y);
                    }
                }
                if y < x && old_out.contains(y) {
                    let w = choose|w: int| 0 <= w < old_out.len() && old_out[w] == y;
                    assert(out@[w] == y);
                }
                if y == x && out@.len() > old_out.len() {
                    assert(out@[out@.len() - 1] == x);
                }
            }
        }
        x = x + 1;
    }
    out
}

/// `len` flags, all `false`.
fn cleared(len: usize) -> (r: Vec<bool>)
    ensures
        r@.len() == len,
        forall|i: int| 0 <= i < len ==> !r@[i],
{
    let mut v: Vec<bool> = Vec::new();
    let mut t: usize = 0;
    while t < len
        invariant
            t <= len,
            v@.len() == t,
            forall|i: int| 0 <= i < t ==> !v@[i],
        decreases len - t,
    {
        v.push(false);
        t = t + 1;
    }
    v
}

/// What one root breaks.
pub struct RootImpact {
    /// The root's node.
    pub root: usize,
    /// The nodes that depend on the root, in increasing order.
    pub versions: Vec<usize>,
    /// The packages those nodes belong to, in increasing order.
    pub packages: Vec<usize>,
}

/// What a set of roots breaks, root by root and in all.
pub struct ImpactReport {
    pub roots: Vec<RootImpact>,
    /// Every node that some root breaks, in increasing order.
    pub total_versions: Vec<usize>,
    /// Every package that some root breaks, in increasing order.
    pub total_packages: Vec<usize>,
}

/// The packages that the nodes in `versions` belong to, in increasing order.
fn packages_among(g: &DependencyGraph, versions: &Vec<usize>) -> (r: Vec<usize>)
    requires
        g.wf(),
        forall|i: int| 0 <= i < versions@.len() ==> versions@[i] < g.node_map().len(),
    ensures
        forall|i: int, j: int| 0 <= i < j < r@.len() ==> r@[i] < r@[j],
        forall|p: usize| r@.contains(p) <==> exists|x: usize| #[trigger] versions@.contains(x) && g.node_map()[x as int].0 == p,
{
    proof {
        g.lemma_nodes_in_range();
    }
    let np = g.index().package_count();
    let mut flags = cleared(np);
    let mut i: usize = 0;
    while i < versions.len()
        invariant
            g.wf(),
            np == g.source().len(),
            forall|a: int| 0 <= a < g.node_map().len() ==> #[trigger] g.node_map()[a].0 < g.source().len(),
            forall|t: int| 0 <= t < versions@.len() ==> versions@[t] < g.node_map().len(),
            i <= versions@.len(),
            flags@.len() == np,
            forall|p: usize| p < np ==> (flags@[p as int] <==> exists|t: int| 0 <= t < i && #[trigger] g.node_map()[versions@[t] as int].0 == p),
        decreases versions@.len() - i,
    {
        let (p, _) = g.record_of(versions[i]);
        assert(g.node_map()[versions@[i as int] as int].0 == p);
        flags.set(p, true);
        i = i + 1;
    }
    let r = marked(&flags);
    proof {
        assert forall|p: usize| r@.contains(p) <==> exists|x: usize| #[trigger] versions@.contains(x) && g.node_map()[x as int].0 == p by {
            if r@.contains(p) {
                let t = choose|t: int| 0 <= t < i && #[trigger] g.node_map()[versions@[t] as int].0 == p;
                assert(versions@.contains(versions@[t]));
            }
            if exists|x: usize| #[trigger] versions@.contains(x) && g.node_map()[x as int].0 == p {
                let x = choose|x: usize| #[trigger] versions@.contains(x) && g.node_map()[x as int].0 == p;
                let t = choose|t: int| 0 <= t < versions@.len() && versions@[t] == x;
                assert(g.node_map()[versions@[t] as int].0 == p);
            }
        }
    }
    r
}

/// What each of `roots` breaks, and what they break in all: the union, so
/// that a node or package that two roots break counts once.
pub fn impact(g: &DependencyGraph, roots: &Vec<usize>) -> (r: ImpactReport)
    requires
        g.wf(),
        forall|i: int| 0 <= i < roots@.len() ==> roots@[i] < g.node_map().len(),
    ensures
        r.roots@.len() == roots@.len(),
        forall|i: int|
            #![trigger r.roots@[i]]
            0 <= i < roots@.len() ==> {
                &&& r.roots@[i].root == roots@[i]
                &&& forall|x: usize| r.roots@[i].versions@.contains(x) <==> broken_by(g.edges(), roots@[i]).contains(x)
                &&& forall|p: usize| r.roots@[i].packages@.contains(p) <==> packages_of(g.node_map(), broken_by(g.edges(), roots@[i])).contains(p)
            },
        forall|x: usize| r.total_versions@.contains(x) <==> broken_by_any(g.edges(), roots@).contains(x),
        forall|p: usize| r.total_packages@.contains(p) <==> packages_of(g.node_map(), broken_by_any(g.edges(), roots@)).contains(p),
        forall|i: int, j: int| 0 <= i < j < r.total_versions@.len() ==> r.total_versions@[i] < r.total_versions@[j],
        forall|i: int, j: int| 0 <= i < j < r.total_packages@.len() ==> r.total_packages@[i] < r.total_packages@[j],
{
    let n = g.node_count();
    let ghost e = g.edges();
    let mut total = cleared(n);
    let mut per_root: Vec<RootImpact> = Vec::new();
    let mut i: usize = 0;
    while i < roots.len()
        invariant
            g.wf(),
            e == g.edges(),
            n == g.node_map().len(),
            forall|t: int| 0 <= t < roots@.len() ==> roots@[t] < n,
            i <= roots@.len(),
            total@.len() == n,
            per_root@.len() == i,
            forall|x: usize| x < n ==> (total@[x as int] <==> exists|t: int| 0 <= t < i && #[trigger] broken_by(e, roots@[t]).contains(x)),
            forall|t: int|
                #![trigger per_root@[t]]
                0 <= t < i ==> {
                    &&& per_root@[t].root == roots@[t]
                    &&& forall|x: usize| per_root@[t].versions@.contains(x) <==> broken_by(e, roots@[t]).contains(x)
                    &&& forall|p: usize| per_root@[t].packages@.contains(p) <==> packages_of(g.node_map(), broken_by(e, roots@[t])).contains(p)
                },
        decreases roots@.len() - i,
    {
        let root = roots[i];
        let versions = broken_versions(g, root);
        proof {
            assert forall|t: int| 0 <= t < versions@.len() implies versions@[t] < n by {
                assert(versions@.contains(versions@[t]));
                assert(broken_by(e, root).contains(versions@[t]));
                let path = choose|path: Seq<usize>|
                    path.len() >= 2 && path[0] == versions@[t] && path[path.len() - 1] == root && #[trigger] is_path(e, path);
                g.lemma_edges_in_range();
                assert(has_edge(e, path[0], path[1]));
            }
        }
        let mut k: usize = 0;
        while k < versions.len()
            invariant
                g.wf(),
                e == g.edges(),
                n == g.node_map().len(),
                i < roots@.len(),
                root == roots@[i as int],
                total@.len() == n,
                forall|t: int| 0 <= t < versions@.len() ==> versions@[t] < n,
                forall|x: usize| versions@.contains(x) <==> broken_by(e, root).contains(x),
                k <= versions@.len(),
                forall|x: usize| x < n ==> (total@[x as int] <==> (exists|t: int| 0 <= t < i && #[trigger] broken_by(e, roots@[t]).contains(x))
                    || (exists|t: int| 0 <= t < k && versions@[t] == x)),
            decreases versions@.len() - k,
        {
            total.set(versions[k], true);
            k = k + 1;
        }
        let packages = packages_among(g, &versions);
        proof {
            assert forall|x: usize| x < n implies (total@[x as int] <==> exists|t: int| 0 <= t < i + 1 && #[trigger] broken_by(e, roots@[t]).contains(x)) by {
                if exists|t: int| 0 <= t < versions@.len() && versions@[t] == x {
                    let t = choose|t: int| 0 <= t < versions@.len() && versions@[t] == x;
                    assert(versions@.contains(x));
                    assert(broken_by(e, roots@[i as int]).contains(x));
                }
                if broken_by(e, roots@[i as int]).contains(x) {
                    assert(versions@.contains(x));
                    let t = choose|t: int| 0 <= t < versions@.len() && versions@[t] == x;
                }
            }
            assert forall|p: usize| packages@.contains(p) <==> packages_of(g.node_map(), broken_by(e, root)).contains(p) by {
                if packages@.contains(p) {
                    let x = choose|x: usize| #[trigger] versions@.contains(x) && g.node_map()[x as int].0 == p;
                    assert(broken_by(e, root).contains(x));
                }
                if packages_of(g.node_map(), broken_by(e, root)).contains(p) {
                    let x = choose|x: usize| #[trigger] broken_by(e, root).contains(x) && x < g.node_map().len() && g.node_map()[x as int].0 == p;
                    assert(versions@.contains(x));
                }
            }
        }
        per_root.push(RootImpact { root, versions, packages });
        i = i + 1;
    }
    let total_versions = marked(&total);
    let ghost all = broken_by_any(e, roots@);
    proof {
        assert forall|x: usize| all.contains(x) implies x < n by {
            let t = choose|t: int| 0 <= t < roots@.len() && #[trigger] broken_by(e, roots@[t]).contains(x);
            let path = choose|path: Seq<usize>|
                path.len() >= 2 && path[0] == x && path[path.len() - 1] == roots@[t] && #[trigger] is_path(e, path);
            g.lemma_edges_in_range();
            assert(has_edge(e, path[0], path[1]));
        }
        assert forall|x: usize| total_versions@.contains(x) <==> all.contains(x) by {}
        assert forall|t: int| 0 <= t < total_versions@.len() implies total_versions@[t] < n by {
            assert(total_versions@.contains(total_versions@[t]));
        }
    }
    let total_packages = packages_among(g, &total_versions);
    proof {
        assert forall|p: usize| total_packages@.contains(p) <==> packages_of(g.node_map(), all).contains(p) by {
            if total_packages@.contains(p) {
                let x = choose|x: usize| #[trigger] total_versions@.contains(x) && g.node_map()[x as int].0 == p;
                assert(all.contains(x));
            }
            if packages_of(g.node_map(), all).contains(p) {
                let x = choose|x: usize| #[trigger] all.contains(x) && x < g.node_map().len() && g.node_map()[x as int].0 == p;
                assert(total_versions@.contains(x));
            }
        }
    }
    ImpactReport { roots: per_root, total_versions, total_packages }
}

/// What two roots break together is the union of what each breaks alone:
/// a node that both break counts once.
pub proof fn lemma_impact_union(e: Seq<(usize, usize)>, a: usize, b: usize)
    ensures
        broken_by_any(e, seq![a, b]) == broken_by_any(e, seq![a]).union(broken_by_any(e, seq![b])),
{
    let both = seq![a, b];
    assert forall|x: usize| broken_by_any(e, both).contains(x) <==> broken_by_any(e, seq![a]).union(broken_by_any(e, seq![b])).contains(x) by {
        if broken_by(e, a).contains(x) {
            assert(broken_by(e, both[0]).contains(x));
            assert(broken_by(e, seq![a][0]).contains(x));
        }
        if broken_by(e, b).contains(x) {
            assert(broken_by(e, both[1]).contains(x));
            assert(broken_by(e, seq![b][0]).contains(x));
        }
    }
    assert(broken_by_any(e, both) =~= broken_by_any(e, seq![a]).union(broken_by_any(e, seq![b])));
}

} // verus!
