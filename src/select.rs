//! Choosing the roots of an analysis, and how much of it to print.

use crate::crates::{compare_ids, id_cmp, lemma_id_cmp_antisymmetric, CrateIdView, CrateView};
use crate::graph::{node_crate, DependencyGraph};
use std::cmp::Ordering;
use crate::index::{package_named, PackageView};
use crate::version::{range_matches, semver_range_admits};
use vstd::prelude::*;

verus! {

/// Below this many affected versions a report lists them one by one.
pub const LISTING_LIMIT: usize = 20;

/// Whether a report lists the `count` affected versions of a root one by one,
/// rather than giving their number alone: only below the limit, and never
/// in quiet mode.
pub fn lists_dependents(count: usize, quiet: bool) -> (r: bool)
    ensures
        r == (count < LISTING_LIMIT && !quiet),
{
    count < LISTING_LIMIT && !quiet
}

/// Whether `s` starts with `prefix`.
pub fn starts_with(s: &str, prefix: &str) -> (r: bool)
    ensures
        r == prefix@.is_prefix_of(s@),
{
    let ls = s.unicode_len();
    let lp = prefix.unicode_len();
    if lp > ls {
        return false;
    }
    let mut i: usize = 0;
    while i < lp
        invariant
            ls == s@.len(),
            lp == prefix@.len(),
            lp <= ls,
            i <= lp,
            forall|j: int| 0 <= j < i ==> prefix@[j] == s@[j],
        decreases lp - i,
    {
        if s.get_char(i) != prefix.get_char(i) {
            return false;
        }
        i = i + 1;
    }
    true
}

/// The nodes whose package name starts with `prefix`, in increasing order.
pub fn select_by_prefix(g: &DependencyGraph, prefix: &str) -> (r: Vec<usize>)
    requires
        g.wf(),
    ensures
        forall|i: int, j: int| 0 <= i < j < r@.len() ==> r@[i] < r@[j],
        forall|x: usize|
            r@.contains(x) <==> x < g.node_map().len() && prefix@.is_prefix_of(
                g.source()[g.node_map()[x as int].0 as int].name,
            ),
{
    proof {
        g.lemma_nodes_in_range();
    }
    let pkgs = g.index().packages();
    let n = g.node_count();
    let mut out: Vec<usize> = Vec::new();
    let mut x: usize = 0;
    while x < n
        invariant
            g.wf(),
            n == g.node_map().len(),
            pkgs@.map_values(|x: crate::index::Package| x@) == g.source(),
            forall|a: int| 0 <= a < g.node_map().len() ==> #[trigger] g.node_map()[a].0 < g.source().len(),
            x <= n,
            forall|i: int| 0 <= i < out@.len() ==> out@[i] < x,
            forall|i: int, j: int| 0 <= i < j < out@.len() ==> out@[i] < out@[j],
            forall|y: usize|
                out@.contains(y) <==> y < x && prefix@.is_prefix_of(g.source()[g.node_map()[y as int].0 as int].name),
        decreases n - x,
    {
        let (p, _) = g.record_of(x);
        assert(g.node_map()[x as int].0 < g.source().len());
        assert(pkgs@[p as int]@ == g.source()[p as int]);
        let ghost old_out = out@;
        let hit = starts_with(pkgs[p].name.as_str(), prefix);
        if hit {
            out.push(x);
        }
        proof {
            assert forall|y: usize|
                out@.contains(y) <==> y < x + 1 && prefix@.is_prefix_of(g.source()[g.node_map()[y as int].0 as int].name) by {
                if out@.contains(y) {
                    let w = choose|w: int| 0 <= w < out@.len() && out@[w] == y;
                    if w < old_out.len() {
                        assert(old_out[w] == y);
                    }
                }
                if y < x && old_out.contains(y) {
                    let w = choose|w: int| 0 <= w < old_out.len() && old_out[w] == y;
                    assert(out@[w] == y);
                }
                if y == x && hit {
                    assert(out@[out@.len() - 1] == x);
                }
            }
        }
        x = x + 1;
    }
    out
}

/// The range text can be read against every version of the package.
pub open spec fn range_readable_against(pkg: PackageView, range: Seq<char>) -> bool {
    forall|k: int| 0 <= k < pkg.crates.len() ==> #[trigger] semver_range_admits(range, pkg.crates[k].version) is Some
}

/// Why a selection of roots failed.
#[derive(Debug, Clone)]
pub struct RangeParseError {
    pub range: String,
}

/// The versions of the package called exactly `name` that `range` admits,
/// in increasing order. None where no package has that name; an error where
/// the range text cannot be read.
pub fn select_by_range(g: &DependencyGraph, name: &str, range: &str) -> (r: Result<Vec<usize>, RangeParseError>)
    requires
        g.wf(),
    ensures
        r is Err <==> (package_named(g.source(), name@) matches Some(p) && !range_readable_against(g.source()[p], range@)),
        r matches Err(e) ==> e.range@ == range@,
        r matches Ok(v) ==> forall|x: usize|
            v@.contains(x) <==> x < g.node_map().len() && package_named(g.source(), name@) == Some(
                g.node_map()[x as int].0 as int,
            ) && semver_range_admits(range@, node_crate(g.source(), g.node_map(), x as int).version) == Some(true),
{
    proof {
        g.lemma_nodes_in_range();
    }
    let mut out: Vec<usize> = Vec::new();
    let p = match g.index().find(name) {
        None => {
            return Ok(out);
        },
        Some(p) => p,
    };
    let pkgs = g.index().packages();
    assert(pkgs@[p as int]@ == g.source()[p as int]);
    let cands = &pkgs[p].crates;
    let mut k: usize = 0;
    while k < cands.len()
        invariant
            g.wf(),
            pkgs@.map_values(|x: crate::index::Package| x@) == g.source(),
            p < pkgs@.len(),
            package_named(g.source(), name@) == Some(p as int),
            forall|a: int| 0 <= a < g.node_map().len() ==> #[trigger] g.node_map()[a].0 < g.source().len()
                && g.node_map()[a].1 < g.source()[g.node_map()[a].0 as int].crates.len(),
            crate::index::crates_view(cands@) == g.source()[p as int].crates,
            k <= cands@.len(),
            forall|j: int| 0 <= j < k ==> #[trigger] semver_range_admits(range@, g.source()[p as int].crates[j].version) is Some,
            forall|x: usize|
                out@.contains(x) <==> x < g.node_map().len() && g.node_map()[x as int].0 == p && g.node_map()[x as int].1 < k
                    && semver_range_admits(range@, node_crate(g.source(), g.node_map(), x as int).version) == Some(true),
        decreases cands@.len() - k,
    {
        assert(cands@[k as int]@ == g.source()[p as int].crates[k as int]);
        match range_matches(range, &cands[k].version) {
            None => {
                assert(semver_range_admits(range@, g.source()[p as int].crates[k as int].version) is None);
                assert(package_named(g.source(), name@) == Some(p as int));
                assert(!range_readable_against(g.source()[p as int], range@));
                return Err(RangeParseError { range: String::from_str(range) });
            },
            Some(admitted) => {
                let x = g.node_of(p, k);
                let ghost before = out@;
                if admitted {
                    out.push(x);
                }
                proof {
                    assert forall|y: usize| out@.contains(y) <==> y < g.node_map().len() && g.node_map()[y as int].0 == p
                        && g.node_map()[y as int].1 < k + 1 && semver_range_admits(range@, node_crate(g.source(), g.node_map(), y as int).version) == Some(true) by {
                        if out@.contains(y) && y != x {
                            let w = choose|w: int| 0 <= w < out@.len() && out@[w] == y;
                            assert(before[w] == y);
                        }
                        if before.contains(y) {
                            let w = choose|w: int| 0 <= w < before.len() && before[w] == y;
                            assert(out@[w] == y);
                        }
                        if y < g.node_map().len() && g.node_map()[y as int] == (p, k) {
                            g.lemma_node_unique(y, x);
                        }
                        if admitted {
                            assert(out@[out@.len() - 1] == x);
                        }
                    }
                }
            },
        }
        k = k + 1;
    }
    proof {
        assert forall|x: usize| out@.contains(x) <==> x < g.node_map().len() && package_named(g.source(), name@) == Some(
                g.node_map()[x as int].0 as int,
            ) && semver_range_admits(range@, node_crate(g.source(), g.node_map(), x as int).version) == Some(true) by {
            if x < g.node_map().len() {
                assert(g.node_map()[x as int].1 < g.source()[g.node_map()[x as int].0 as int].crates.len());
            }
        }
    }
    Ok(out)
}

/// The identity of a record.
pub open spec fn id_of(c: CrateView) -> CrateIdView {
    CrateIdView { name: c.name, version: c.version }
}

/// How the records of nodes `a` and `b` order: by name, then by version.
pub open spec fn node_cmp(g: &DependencyGraph, a: int, b: int) -> Ordering {
    id_cmp(id_of(node_crate(g.source(), g.node_map(), a)), id_of(node_crate(g.source(), g.node_map(), b)))
}

fn compare_nodes(g: &DependencyGraph, a: usize, b: usize) -> (r: Ordering)
    requires
        g.wf(),
        a < g.node_map().len(),
        b < g.node_map().len(),
    ensures
        r == node_cmp(g, a as int, b as int),
{
    proof {
        g.lemma_nodes_in_range();
    }
    let pkgs = g.index().packages();
    let (pa, ka) = g.record_of(a);
    let (pb, kb) = g.record_of(b);
    assert(pkgs@[pa as int]@ == g.source()[pa as int]);
    assert(pkgs@[pb as int]@ == g.source()[pb as int]);
    let ca = &pkgs[pa].crates[ka];
    let cb = &pkgs[pb].crates[kb];
    assert(ca@ == node_crate(g.source(), g.node_map(), a as int));
    assert(cb@ == node_crate(g.source(), g.node_map(), b as int));
    compare_ids(&ca.name, &ca.version, &cb.name, &cb.version)
}

/// The roots in the order a report gives them: by package name, then by
/// version.
pub fn sort_roots(g: &DependencyGraph, roots: &Vec<usize>) -> (r: Vec<usize>)
    requires
        g.wf(),
        forall|i: int| 0 <= i < roots@.len() ==> roots@[i] < g.node_map().len(),
    ensures
        r@.len() == roots@.len(),
        forall|x: usize| r@.contains(x) <==> roots@.contains(x),
        forall|i: int| 0 <= i < r@.len() ==> r@[i] < g.node_map().len(),
        forall|i: int|
            0 <= i < r@.len() - 1 ==> node_cmp(g, r@[i] as int, #[trigger] r@[i + 1] as int) != Ordering::Greater,
{
    let mut out: Vec<usize> = Vec::new();
    let mut i: usize = 0;
    while i < roots.len()
        invariant
            g.wf(),
            forall|t: int| 0 <= t < roots@.len() ==> roots@[t] < g.node_map().len(),
            i <= roots@.len(),
            out@.len() == i,
            forall|x: usize| out@.contains(x) <==> exists|t: int| 0 <= t < i && roots@[t] == x,
            forall|t: int| 0 <= t < out@.len() ==> out@[t] < g.node_map().len(),
            forall|t: int|
                0 <= t < out@.len() - 1 ==> node_cmp(g, out@[t] as int, #[trigger] out@[t + 1] as int) != Ordering::Greater,
        decreases roots@.len() - i,
    {
        let x = roots[i];
        let mut j: usize = 0;
        while j < out.len() && !matches!(compare_nodes(g, x, out[j]), Ordering::Less)
            invariant
                g.wf(),
                x < g.node_map().len(),
                j <= out@.len(),
                forall|t: int| 0 <= t < out@.len() ==> out@[t] < g.node_map().len(),
                forall|t: int| 0 <= t < j ==> node_cmp(g, x as int, #[trigger] out@[t] as int) != Ordering::Less,
            decreases out@.len() - j,
        {
            j = j + 1;
        }
        let ghost old_out = out@;
        proof {
            if j < old_out.len() {
                assert(node_cmp(g, x as int, old_out[j as int] as int) == Ordering::Less);
            }
            if j > 0 {
                let c = node_crate(g.source(), g.node_map(), x as int);
                let d = node_crate(g.source(), g.node_map(), old_out[j - 1] as int);
                lemma_id_cmp_antisymmetric(id_of(c), id_of(d));
                assert(node_cmp(g, x as int, old_out[j - 1] as int) != Ordering::Less);
            }
        }
        out.insert(j, x);
        proof {
            assert forall|t: int|
                0 <= t < out@.len() - 1 implies node_cmp(g, out@[t] as int, #[trigger] out@[t + 1] as int) != Ordering::Greater by {
                if t < j - 1 {
                    assert(out@[t] == old_out[t] && out@[t + 1] == old_out[t + 1]);
                } else if t == j - 1 {
                    assert(out@[t] == old_out[t] && out@[t + 1] == x);
                } else if t == j {
                    assert(out@[t] == x && out@[t + 1] == old_out[t]);
                } else {
                    let s = t - 1;
                    assert(out@[t] == old_out[s] && out@[t + 1] == old_out[s + 1]);
                    assert(node_cmp(g, old_out[s] as int, old_out[s + 1] as int) != Ordering::Greater);
                }
            }
            assert forall|y: usize| out@.contains(y) <==> exists|t: int| 0 <= t < i + 1 && roots@[t] == y by {
                if out@.contains(y) {
                    let w = choose|w: int| 0 <= w < out@.len() && out@[w] == y;
                    if w < j {
                        assert(old_out[w] == y);
                        assert(old_out.contains(y));
                        let t = choose|t: int| 0 <= t < i && roots@[t] == y;
                        assert(0 <= t < i + 1 && roots@[t] == y);
                    } else if w > j {
                        assert(old_out[w - 1] == y);
                        assert(old_out.contains(y));
                        let t = choose|t: int| 0 <= t < i && roots@[t] == y;
                        assert(0 <= t < i + 1 && roots@[t] == y);
                    } else {
                        assert(roots@[i as int] == y);
                    }
                }
                if exists|t: int| 0 <= t < i + 1 && roots@[t] == y {
                    let t = choose|t: int| 0 <= t < i + 1 && roots@[t] == y;
                    if t < i {
                        assert(old_out.contains(y));
                        let w = choose|w: int| 0 <= w < old_out.len() && old_out[w] == y;
                        if w < j {
                            assert(out@[w] == y);
                        } else {
                            assert(out@[w + 1] == y);
                        }
                    } else {
                        assert(out@[j as int] == y);
                    }
                }
            }
            assert forall|t: int| 0 <= t < out@.len() implies out@[t] < g.node_map().len() by {
                if t < j {
                    assert(out@[t] == old_out[t]);
                } else if t > j {
                    assert(out@[t] == old_out[t - 1]);
                }
            }
        }
        i = i + 1;
    }
    proof {
        assert forall|x: usize| out@.contains(x) <==> roots@.contains(x) by {
            if roots@.contains(x) {
                let t = choose|t: int| 0 <= t < roots@.len() && roots@[t] == x;
            }
        }
    }
    out
}

} // verus!
