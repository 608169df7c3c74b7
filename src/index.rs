//! The index: every record, grouped by package name.

use crate::crates::{Crate, CrateView};
use crate::version::VersionView;
use std::collections::HashMap;
use vstd::prelude::*;

verus! {

broadcast use vstd::std_specs::hash::group_hash_axioms;

/// A polynomial hash of a name, used to find its package quickly.
pub open spec fn name_hash(s: Seq<char>) -> u64
    decreases s.len(),
{
    if s.len() == 0 {
        0
    } else {
        ((name_hash(s.drop_last()) as int * 31 + s.last() as int) % 0x1_0000_0000_0000_0000) as u64
    }
}

/// The hash of `s`, as `name_hash` defines it.
pub fn hash_name(s: &str) -> (r: u64)
    ensures
        r == name_hash(s@),
{
    let len = s.unicode_len();
    let mut h: u64 = 0;
    let mut i: usize = 0;
    assert(s@.subrange(0, 0) =~= Seq::<char>::empty());
    while i < len
        invariant
            len == s@.len(),
            i <= len,
            h == name_hash(s@.subrange(0, i as int)),
        decreases len - i,
    {
        let c = s.get_char(i);
        let next: u128 = (h as u128) * 31 + (c as u32 as u128);
        h = (next % 0x1_0000_0000_0000_0000u128) as u64;
        proof {
            let pre = s@.subrange(0, i + 1);
            assert(pre.drop_last() =~= s@.subrange(0, i as int));
            assert(pre.last() == c);
        }
        i = i + 1;
    }
    assert(s@.subrange(0, len as int) =~= s@);
    h
}

/// All records published under one name, in the order they were read.
#[derive(Debug)]
pub struct Package {
    pub name: String,
    pub crates: Vec<Crate>,
}

pub struct PackageView {
    pub name: Seq<char>,
    pub crates: Seq<CrateView>,
}

pub open spec fn crates_view(c: Seq<Crate>) -> Seq<CrateView> {
    c.map_values(|x: Crate| x@)
}

impl View for Package {
    type V = PackageView;

    open spec fn view(&self) -> PackageView {
        PackageView { name: self.name@, crates: crates_view(self.crates@) }
    }
}

/// A mapping from package name to its records.
#[derive(Debug)]
pub struct Index {
    packages: Vec<Package>,
    /// For each name hash, the packages whose names have it.
    lookup: HashMap<u64, Vec<usize>>,
}

/// Each package holds a record, each record sits under its own name, no two
/// packages share a name and no package holds one version twice.
pub open spec fn index_wf(ix: Seq<PackageView>) -> bool {
    &&& forall|p: int| 0 <= p < ix.len() ==> ix[p].crates.len() > 0
    &&& forall|p: int, k: int|
        0 <= p < ix.len() && 0 <= k < ix[p].crates.len() ==> ix[p].crates[k].name == ix[p].name
    &&& forall|p: int, q: int| 0 <= p < q < ix.len() ==> ix[p].name != ix[q].name
    &&& forall|p: int, k: int, l: int|
        0 <= p < ix.len() && 0 <= k < l < ix[p].crates.len() ==> ix[p].crates[k].version
            != ix[p].crates[l].version
}

/// The position of the package called `n`, if there is one.
pub open spec fn package_named(ix: Seq<PackageView>, n: Seq<char>) -> Option<int> {
    if exists|p: int| 0 <= p < ix.len() && ix[p].name == n {
        Some(choose|p: int| 0 <= p < ix.len() && ix[p].name == n)
    } else {
        None
    }
}

/// The position of version `v` among a package's records, if it is there.
pub open spec fn version_at(pkg: PackageView, v: VersionView) -> Option<int> {
    if exists|k: int| 0 <= k < pkg.crates.len() && pkg.crates[k].version == v {
        Some(choose|k: int| 0 <= k < pkg.crates.len() && pkg.crates[k].version == v)
    } else {
        None
    }
}

/// The index after reading record `c`: a record with the same name and
/// version is replaced, otherwise `c` joins its package, or starts one.
pub open spec fn inserted(ix: Seq<PackageView>, c: CrateView) -> Seq<PackageView> {
    match package_named(ix, c.name) {
        Some(p) => match version_at(ix[p], c.version) {
            Some(k) => ix.update(p, PackageView { name: ix[p].name, crates: ix[p].crates.update(k, c) }),
            None => ix.update(p, PackageView { name: ix[p].name, crates: ix[p].crates.push(c) }),
        },
        None => ix.push(PackageView { name: c.name, crates: seq![c] }),
    }
}

/// Hyphens in place of underscores.
pub open spec fn normalized(s: Seq<char>) -> Seq<char> {
    s.map_values(|c: char| if c == '_' { '-' } else { c })
}

/// The package a dependency name refers to: the one of that name, else the
/// one whose name is the dependency's with hyphens for underscores.
pub open spec fn resolve(ix: Seq<PackageView>, n: Seq<char>) -> Option<int> {
    match package_named(ix, n) {
        Some(p) => Some(p),
        None => package_named(ix, normalized(n)),
    }
}

impl View for Index {
    type V = Seq<PackageView>;

    closed spec fn view(&self) -> Seq<PackageView> {
        self.packages@.map_values(|p: Package| p@)
    }
}

/// `n` with every '_' replaced by '-'.
pub fn normalize_name(n: &str) -> (r: String)
    ensures
        r@ == normalized(n@),
{
    let len = n.unicode_len();
    let mut out = String::new();
    let mut i: usize = 0;
    while i < len
        invariant
            len == n@.len(),
            i <= len,
            out@ =~= normalized(n@.subrange(0, i as int)),
        decreases len - i,
    {
        let c = n.get_char(i);
        if c == '_' {
            out.append("-");
        } else {
            out.append(n.substring_char(i, i + 1));
        }
        proof {
            reveal_strlit("-");
        }
        i = i + 1;
        assert(out@ =~= normalized(n@.subrange(0, i as int)));
    }
    assert(n@.subrange(0, len as int) =~= n@);
    out
}

impl Index {
    pub closed spec fn wf(&self) -> bool {
        &&& index_wf(self@)
        &&& forall|p: int|
            0 <= p < self@.len() ==> #[trigger] self.lookup@.contains_key(name_hash(self@[p].name))
                && self.lookup@[name_hash(self@[p].name)]@.contains(p as usize)
        &&& forall|h: u64, t: int|
            self.lookup@.contains_key(h) && 0 <= t < self.lookup@[h]@.len() ==> #[trigger] self.lookup@[h]@[t]
                < self@.len()
    }

    /// An index with no records.
    pub fn new() -> (r: Index)
        ensures
            r@ == Seq::<PackageView>::empty(),
            r.wf(),
    {
        Index { packages: Vec::new(), lookup: HashMap::new() }
    }

    /// The packages, in the order their names were first read.
    pub fn packages(&self) -> (r: &Vec<Package>)
        ensures
            r@.map_values(|p: Package| p@) == self@,
    {
        &self.packages
    }

    /// The number of packages.
    pub fn package_count(&self) -> (r: usize)
        ensures
            r == self@.len(),
    {
        self.packages.len()
    }

    /// The position of the package called `name`.
    pub fn find(&self, name: &str) -> (r: Option<usize>)
        requires
            self.wf(),
        ensures
            r matches Some(p) ==> package_named(self@, name@) == Some(p as int),
            r is None ==> package_named(self@, name@) is None,
    {
        let target = String::from_str(name);
        let np = self.packages.len();
        assert(np == self@.len());
        let h = hash_name(name);
        let bucket = match self.lookup.get(&h) {
            Some(b) => b,
            None => {
                proof {
                    assert forall|q: int| 0 <= q < self@.len() implies self@[q].name != name@ by {
                        if self@[q].name == name@ {
                            assert(self.lookup@.contains_key(name_hash(self@[q].name)));
                        }
                    }
                }
                return None;
            },
        };
        let mut t: usize = 0;
        while t < bucket.len()
            invariant
                self.wf(),
                target@ == name@,
                h == name_hash(name@),
                self.lookup@.contains_key(h),
                self.lookup@[h] == *bucket,
                np == self@.len(),
                t <= bucket@.len(),
                forall|j: int| 0 <= j < t ==> self@[bucket@[j] as int].name != name@,
            decreases bucket@.len() - t,
        {
            let p = bucket[t];
            assert(self.lookup@[h]@[t as int] < self@.len());
            assert(self@[p as int] == self.packages@[p as int]@);
            if self.packages[p].name == target {
                proof {
                    assert(index_wf(self@));
                    assert(self@[p as int].name == name@);
                    let c = choose|q: int| 0 <= q < self@.len() && self@[q].name == name@;
                    assert(c == p) by {
                        if c < p {
                            assert(self@[c].name != self@[p as int].name);
                        } else if c > p {
                            assert(self@[p as int].name != self@[c].name);
                        }
                    }
                }
                return Some(p);
            }
            t = t + 1;
        }
        proof {
            assert forall|q: int| 0 <= q < self@.len() implies self@[q].name != name@ by {
                if self@[q].name == name@ {
                    assert(self.lookup@[name_hash(self@[q].name)]@.contains(q as usize));
                    let j = choose|j: int| 0 <= j < bucket@.len() && bucket@[j] == q as usize;
                }
            }
        }
        None
    }

    /// The package that the dependency name `name` refers to.
    pub fn resolve(&self, name: &str) -> (r: Option<usize>)
        requires
            self.wf(),
        ensures
            r matches Some(p) ==> resolve(self@, name@) == Some(p as int),
            r is None ==> resolve(self@, name@) is None,
    {
        match self.find(name) {
            Some(p) => Some(p),
            None => {
                let alt = normalize_name(name);
                self.find(alt.as_str())
            },
        }
    }
    /// Reads one record into the index. A record with the same name and
    /// version as one already held replaces it: the last one read wins.
    pub fn insert(&mut self, krate: Crate)
        requires
            old(self).wf(),
        ensures
            final(self).wf(),
            final(self)@ == inserted(old(self)@, krate@),
    {
        let ghost ix = self@;
        let ghost c = krate@;
        let ghost lk = self.lookup@;
        proof {
            assert forall|q: int| 0 <= q < ix.len() implies lk.contains_key(name_hash(ix[q].name))
                && lk[name_hash(ix[q].name)]@.contains(q as usize) by {
                assert(self.lookup@.contains_key(name_hash(self@[q].name)));
            }
        }
        match self.find(krate.name.as_str()) {
            Some(p) => {
                let mut pkg = self.packages.remove(p);
                proof {
                    assert(pkg@ == ix[p as int]);
                }
                let mut k: usize = 0;
                let mut found: Option<usize> = None;
                while k < pkg.crates.len()
                    invariant
                        0 <= p < ix.len(),
                        pkg@ == ix[p as int],
                        krate@ == c,
                        k <= pkg.crates.len(),
                        found matches Some(j) ==> j < k && pkg@.crates[j as int].version == c.version,
                        found is None ==> forall|j: int| 0 <= j < k ==> pkg@.crates[j].version != c.version,
                    decreases pkg.crates.len() - k,
                {
                    assert(pkg@.crates[k as int] == pkg.crates@[k as int]@);
                    if found.is_none() && pkg.crates[k].version.equals(&krate.version) {
                        found = Some(k);
                    }
                    k = k + 1;
                }
                proof {
                    assert(index_wf(ix));
                }
                match found {
                    Some(k) => {
                        proof {
                            let w = choose|j: int| 0 <= j < ix[p as int].crates.len() && ix[p as int].crates[j].version == c.version;
                            assert(w == k) by {
                                if w != k {
                                    if w < k {
                                        assert(ix[p as int].crates[w].version != ix[p as int].crates[k as int].version);
                                    } else {
                                        assert(ix[p as int].crates[k as int].version != ix[p as int].crates[w].version);
                                    }
                                }
                            }
                        }
                        pkg.crates.set(k, krate);
                        proof {
                            assert(pkg@.crates =~= ix[p as int].crates.update(k as int, c));
                        }
                    },
                    None => {
                        pkg.crates.push(krate);
                        proof {
                            assert(pkg@.crates =~= ix[p as int].crates.push(c));
                        }
                    },
                }
                self.packages.insert(p, pkg);
                proof {
                    assert(self@ =~= ix.update(p as int, pkg@));
                    assert forall|q: int| 0 <= q < self@.len() implies self@[q].name == ix[q].name by {}
                    assert forall|q: int| 0 <= q < self@.len() implies #[trigger] self.lookup@.contains_key(name_hash(self@[q].name))
                        && self.lookup@[name_hash(self@[q].name)]@.contains(q as usize) by {
                        assert(self@[q].name == ix[q].name);
                    }
                    assert(index_wf(self@));
                }
            },
            None => {
                let mut crates: Vec<Crate> = Vec::new();
                let name = krate.name.clone();
                crates.push(krate);
                let pkg = Package { name, crates };
                proof {
                    assert(pkg@.crates =~= seq![c]);
                }
                let np = self.packages.len();
                let h = hash_name(pkg.name.as_str());
                let ghost old_lookup = self.lookup@;
                let mut bucket = match self.lookup.remove(&h) {
                    Some(b) => b,
                    None => Vec::new(),
                };
                proof {
                    assert(self.lookup@ == old_lookup.remove(h));
                    if old_lookup.contains_key(h) {
                        assert(bucket == old_lookup[h]);
                    } else {
                        assert(bucket@.len() == 0);
                    }
                }
                let ghost old_bucket = bucket@;
                bucket.push(np);
                self.lookup.insert(h, bucket);
                self.packages.push(pkg);
                proof {
                    assert(self@ =~= ix.push(pkg@));
                    assert(index_wf(self@));
                    assert(self.lookup@ == old_lookup.insert(h, self.lookup@[h]));
                    assert(self.lookup@[h]@ == old_bucket.push(np));
                    assert forall|q: int| 0 <= q < self@.len() implies #[trigger] self.lookup@.contains_key(name_hash(self@[q].name))
                        && self.lookup@[name_hash(self@[q].name)]@.contains(q as usize) by {
                        if q == np {
                            assert(self.lookup@[h]@[old_bucket.len() as int] == np);
                        } else {
                            assert(self@[q].name == ix[q].name);
                            let hq = name_hash(ix[q].name);
                            assert(old_lookup.contains_key(hq) && old_lookup[hq]@.contains(q as usize));
                            if hq == h {
                                let w = choose|w: int| 0 <= w < old_bucket.len() && old_bucket[w] == q as usize;
                                assert(self.lookup@[h]@[w] == q as usize);
                            }
                        }
                    }
                    assert forall|g: u64, t: int|
                        self.lookup@.contains_key(g) && 0 <= t < self.lookup@[g]@.len() implies #[trigger] self.lookup@[g]@[t]
                            < self@.len() by {
                        if g == h {
                            if t < old_bucket.len() {
                                assert(old_lookup[h]@[t] < ix.len());
                            }
                        } else {
                            assert(old_lookup[g]@[t] < ix.len());
                        }
                    }
                }
            },
        }
    }
}

} // verus!
