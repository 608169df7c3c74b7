use std::cmp::Ordering;

use release_triage::crates::{Crate, Dependency};
use release_triage::graph::{BuildError, DependencyGraph};
use release_triage::impact::{broken_versions, impact};
use release_triage::index::{hash_name, normalize_name, Index};
use release_triage::select::{lists_dependents, select_by_prefix, select_by_range, sort_roots, starts_with};
use release_triage::version::{range_matches, Identifier, Version};

fn v(text: &str) -> Version {
    Version::parse(text).unwrap()
}

fn record(name: &str, version: &str, deps: &[(&str, &str)]) -> Crate {
    Crate {
        name: name.to_string(),
        version: v(version),
        dependencies: deps
            .iter()
            .map(|(n, r)| Dependency { name: n.to_string(), req: r.to_string() })
            .collect(),
    }
}

fn index_of(records: Vec<Crate>) -> Index {
    let mut index = Index::new();
    for r in records {
        index.insert(r);
    }
    index
}

fn node_named(g: &DependencyGraph, name: &str, version: &str) -> usize {
    let found = select_by_range(g, name, &format!("={}", version)).unwrap();
    assert_eq!(found.len(), 1);
    found[0]
}

#[test]
fn parse_reads_all_parts() {
    let x = v("1.2.3-alpha.7+build.5");
    assert_eq!((x.major, x.minor, x.patch), (1, 2, 3));
    assert!(matches!(&x.pre[0], Identifier::AlphaNumeric(s) if s == "alpha"));
    assert!(matches!(&x.pre[1], Identifier::Numeric(7)));
    assert!(matches!(&x.build[1], Identifier::Numeric(5)));
    assert!(x.is_prerelease());
}

#[test]
fn parse_rejects_malformed_text() {
    let e = Version::parse("1.x").unwrap_err();
    assert_eq!(e.text, "1.x");
    assert!(Version::parse("").is_err());
}

#[test]
fn build_metadata_breaks_ties() {
    let a = v("1.0.0+a");
    let b = v("1.0.0+b");
    assert!(!a.equals(&b));
    assert_eq!(a.compare(&b), Ordering::Less);
    assert_eq!(b.compare(&a), Ordering::Greater);
    let n1 = v("1.0.0+2");
    let n2 = v("1.0.0+10");
    assert_eq!(n1.compare(&n2), Ordering::Less);
    assert_eq!(v("1.0.0").compare(&v("1.0.0+x")), Ordering::Less);
    assert!(v("1.0.0+a").equals(&v("1.0.0+a")));
}

#[test]
fn prerelease_precedence() {
    assert_eq!(v("1.0.0-alpha").compare(&v("1.0.0")), Ordering::Less);
    assert_eq!(v("1.0.0-alpha").compare(&v("1.0.0-alpha.1")), Ordering::Less);
    assert_eq!(v("1.0.0-alpha.1").compare(&v("1.0.0-alpha.beta")), Ordering::Less);
    assert_eq!(v("1.0.0-beta.2").compare(&v("1.0.0-beta.11")), Ordering::Less);
    assert_eq!(v("1.0.0-rc.1").compare(&v("1.0.0-beta.11")), Ordering::Greater);
    assert_eq!(v("2.0.0").compare(&v("1.9.9")), Ordering::Greater);
    assert_eq!(v("1.10.0").compare(&v("1.9.0")), Ordering::Greater);
}

#[test]
fn ranges_skip_prereleases_unless_asked() {
    assert_eq!(range_matches("^1.0", &v("1.1.0")), Some(true));
    assert_eq!(range_matches("^1.0", &v("1.1.0-alpha")), Some(false));
    assert_eq!(range_matches(">=1.0.0", &v("1.2.0-rc.1")), Some(false));
    assert_eq!(range_matches("*", &v("0.3.0-pre")), Some(false));
    assert_eq!(range_matches(">=1.1.0-alpha", &v("1.1.0-beta")), Some(true));
    assert_eq!(range_matches("~1.2", &v("1.3.0")), Some(false));
    assert_eq!(range_matches("1.*", &v("1.7.2")), Some(true));
    assert_eq!(range_matches("not a range", &v("1.0.0")), None);
}

#[test]
fn index_keeps_last_record_of_a_version() {
    let index = index_of(vec![
        record("foo", "1.0.0", &[]),
        record("foo", "1.1.0", &[]),
        record("foo", "1.0.0", &[("bar", "^1")]),
        record("bar", "1.0.0", &[]),
    ]);
    assert_eq!(index.package_count(), 2);
    let foo = &index.packages()[index.find("foo").unwrap()];
    assert_eq!(foo.crates.len(), 2);
    assert_eq!(foo.crates[0].dependencies.len(), 1);
    assert_eq!(index.find("baz"), None);
}

#[test]
fn foo_bar_scenario() {
    let index = index_of(vec![record("foo", "1.0.0", &[]), record("bar", "1.0.0", &[("foo", "^1.0")])]);
    let g = DependencyGraph::build(index).unwrap();
    assert_eq!(g.node_count(), 2);
    assert_eq!(g.edge_count(), 1);
    let foo = node_named(&g, "foo", "1.0.0");
    let bar = node_named(&g, "bar", "1.0.0");
    let report = impact(&g, &vec![foo]);
    assert_eq!(report.roots[0].versions, vec![bar]);
    assert_eq!(report.roots[0].packages.len(), 1);
    assert_eq!(report.total_versions, vec![bar]);
    let pct = report.total_versions.len() as f64 / g.node_count() as f64 * 100.0;
    assert_eq!(format!("{:.2}", pct), "50.00");
    let name_pct = report.total_packages.len() as f64 / g.index().package_count() as f64 * 100.0;
    assert_eq!(format!("{:.2}", name_pct), "50.00");
}

#[test]
fn underscore_dependency_resolves_to_hyphen_package() {
    let index = index_of(vec![record("foo-bar", "0.2.0", &[]), record("app", "1.0.0", &[("foo_bar", "0.2")])]);
    assert_eq!(index.resolve("foo_bar"), index.find("foo-bar"));
    let g = DependencyGraph::build(index).unwrap();
    assert_eq!(g.edge_count(), 1);
    let root = node_named(&g, "foo-bar", "0.2.0");
    let app = node_named(&g, "app", "1.0.0");
    assert_eq!(broken_versions(&g, root), vec![app]);
}

#[test]
fn unresolved_dependency_is_an_error() {
    let index = index_of(vec![record("app", "1.0.0", &[("missing", "^1")])]);
    match DependencyGraph::build(index) {
        Err(BuildError::UnresolvedDependency { name }) => assert_eq!(name, "missing"),
        other => panic!("unexpected {:?}", other.err()),
    }
}

#[test]
fn malformed_range_is_an_error() {
    let index = index_of(vec![record("lib", "1.0.0", &[]), record("app", "1.0.0", &[("lib", "?!")])]);
    match DependencyGraph::build(index) {
        Err(BuildError::MalformedRange { name, req }) => {
            assert_eq!(name, "lib");
            assert_eq!(req, "?!");
        }
        other => panic!("unexpected {:?}", other.err()),
    }
}

#[test]
fn unsatisfiable_range_adds_no_edge() {
    let index = index_of(vec![record("lib", "1.0.0", &[]), record("app", "1.0.0", &[("lib", "^2")])]);
    let g = DependencyGraph::build(index).unwrap();
    assert_eq!(g.node_count(), 2);
    assert_eq!(g.edge_count(), 0);
}

fn sample_records() -> Vec<Crate> {
    vec![
        record("core", "1.0.0", &[]),
        record("core", "1.1.0", &[]),
        record("core", "2.0.0", &[]),
        record("mid", "0.1.0", &[("core", "^1")]),
        record("mid", "0.2.0", &[("core", "^1.1"), ("core", ">=1")]),
        record("top", "3.0.0", &[("mid", "*"), ("core", "2")]),
    ]
}

#[test]
fn building_twice_gives_same_counts() {
    let g1 = DependencyGraph::build(index_of(sample_records())).unwrap();
    let g2 = DependencyGraph::build(index_of(sample_records())).unwrap();
    assert_eq!(g1.node_count(), 6);
    assert_eq!(g1.node_count(), g2.node_count());
    // mid 0.1.0 -> core 1.0.0, 1.1.0; mid 0.2.0 -> core 1.1.0, 1.0.0, 2.0.0;
    // top -> mid 0.1.0, 0.2.0, core 2.0.0
    assert_eq!(g1.edge_count(), 8);
    assert_eq!(g1.edge_count(), g2.edge_count());
}

#[test]
fn cycle_terminates_and_excludes_root() {
    let index = index_of(vec![
        record("a", "1.0.0", &[("b", "1")]),
        record("b", "1.0.0", &[("c", "1")]),
        record("c", "1.0.0", &[("a", "1")]),
    ]);
    let g = DependencyGraph::build(index).unwrap();
    let a = node_named(&g, "a", "1.0.0");
    let b = node_named(&g, "b", "1.0.0");
    let c = node_named(&g, "c", "1.0.0");
    let mut expected = vec![b, c];
    expected.sort();
    assert_eq!(broken_versions(&g, a), expected);
}

#[test]
fn totals_are_a_union() {
    let g = DependencyGraph::build(index_of(sample_records())).unwrap();
    let c1 = node_named(&g, "core", "1.0.0");
    let c2 = node_named(&g, "core", "2.0.0");
    let both = impact(&g, &vec![c1, c2]);
    let first = impact(&g, &vec![c1]);
    let second = impact(&g, &vec![c2]);
    let mut union: Vec<usize> = first.total_versions.clone();
    union.extend(second.total_versions.iter().copied());
    union.sort();
    union.dedup();
    assert_eq!(both.total_versions, union);
    assert!(both.total_versions.len() < first.total_versions.len() + second.total_versions.len());
    assert_eq!(both.roots.len(), 2);
    assert_eq!(both.total_packages.len(), 2);
}

#[test]
fn listing_threshold() {
    assert!(!lists_dependents(20, false));
    assert!(lists_dependents(19, false));
    assert!(!lists_dependents(19, true));
    assert!(lists_dependents(0, false));
}

#[test]
fn twenty_dependents_are_counted_not_listed() {
    let mut records = vec![record("base", "1.0.0", &[])];
    for i in 0..20 {
        records.push(record("user", &format!("1.0.{}", i), &[("base", "^1")]));
    }
    let g = DependencyGraph::build(index_of(records)).unwrap();
    let base = node_named(&g, "base", "1.0.0");
    let n = broken_versions(&g, base).len();
    assert_eq!(n, 20);
    assert!(!lists_dependents(n, false));
}

#[test]
fn selecting_roots() {
    let g = DependencyGraph::build(index_of(sample_records())).unwrap();
    assert_eq!(select_by_prefix(&g, "co").len(), 3);
    assert_eq!(select_by_prefix(&g, "").len(), 6);
    assert_eq!(select_by_prefix(&g, "zzz").len(), 0);
    assert_eq!(select_by_range(&g, "core", "^1").unwrap().len(), 2);
    assert_eq!(select_by_range(&g, "cor", "*").unwrap().len(), 0);
    assert_eq!(select_by_range(&g, "nothing", "*").unwrap().len(), 0);
    assert_eq!(select_by_range(&g, "core", "%%").unwrap_err().range, "%%");
    assert!(starts_with("serde_json", "serde"));
    assert!(!starts_with("serde", "serde_json"));
}

#[test]
fn crate_identity() {
    let c = record("foo", "1.2.3+b", &[]);
    let id = c.id().to_owned();
    assert_eq!(id.name, "foo");
    assert!(id.version.equals(&v("1.2.3+b")));
}

#[test]
fn nineteen_dependents_are_listed() {
    let mut records = vec![record("base", "1.0.0", &[])];
    for i in 0..19 {
        records.push(record("user", &format!("1.0.{}", i), &[("base", "^1")]));
    }
    let g = DependencyGraph::build(index_of(records)).unwrap();
    let base = node_named(&g, "base", "1.0.0");
    let report = impact(&g, &vec![base]);
    assert_eq!(report.roots[0].versions.len(), 19);
    assert_eq!(report.roots[0].packages.len(), 1);
    assert!(lists_dependents(report.roots[0].versions.len(), false));
}

#[test]
fn roots_sort_by_name_then_version() {
    let index = index_of(vec![
        record("zeta", "1.0.0", &[]),
        record("alpha", "2.0.0", &[]),
        record("alpha", "1.0.0-rc.1", &[]),
        record("alpha", "1.0.0", &[]),
    ]);
    let g = DependencyGraph::build(index).unwrap();
    let z = node_named(&g, "zeta", "1.0.0");
    let a2 = node_named(&g, "alpha", "2.0.0");
    let a1 = node_named(&g, "alpha", "1.0.0");
    let rc = select_by_prefix(&g, "alpha")
        .into_iter()
        .find(|&n| n != a1 && n != a2)
        .unwrap();
    assert_eq!(sort_roots(&g, &vec![z, a2, a1, rc]), vec![rc, a1, a2, z]);
    assert_eq!(sort_roots(&g, &vec![]), Vec::<usize>::new());
}

#[test]
fn records_order_by_name_then_version() {
    let a = record("abc", "2.0.0", &[]);
    let b = record("abd", "1.0.0", &[]);
    let c = record("abc", "1.5.0", &[("x", "1")]);
    assert_eq!(a.compare(&b), Ordering::Less);
    assert_eq!(a.compare(&c), Ordering::Greater);
    assert!(!a.same_id(&c));
    assert!(c.same_id(&record("abc", "1.5.0", &[])));
    assert_eq!(a.id().compare(&b.id()), Ordering::Less);
    assert!(a.id().equals(&a.id()));
}

#[test]
fn dependents_are_direct_only() {
    let g = DependencyGraph::build(index_of(sample_records())).unwrap();
    let c2 = node_named(&g, "core", "2.0.0");
    let mid2 = node_named(&g, "mid", "0.2.0");
    let top = node_named(&g, "top", "3.0.0");
    let mut direct = g.dependents(c2);
    direct.sort();
    let mut expected = vec![mid2, top];
    expected.sort();
    assert_eq!(direct, expected);
    assert_eq!(g.node_of(g.record_of(top).0, g.record_of(top).1), top);
}

#[test]
fn names_normalize_and_hash() {
    assert_eq!(normalize_name("foo_bar_baz"), "foo-bar-baz");
    assert_eq!(normalize_name("plain"), "plain");
    assert_eq!(hash_name(""), 0);
    assert_eq!(hash_name("a"), 97);
    assert_eq!(hash_name("ab"), 97 * 31 + 98);
    assert_ne!(hash_name("ab"), hash_name("ba"));
}

#[test]
fn version_from_parts() {
    let x = Version::new(1, 2, 3, vec![Identifier::AlphaNumeric("beta".to_string())], vec![]);
    assert!(x.equals(&v("1.2.3-beta")));
    assert_eq!(x.compare(&v("1.2.3")), Ordering::Less);
    assert_eq!(range_matches("=1.2.3-beta", &x), Some(true));
}
