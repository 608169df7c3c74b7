//! Package records: identity, version and declared dependencies.

use crate::version::{
    chars_cmp, cmp_chars, ids_view, lemma_chars_cmp, lemma_compare_antisymmetric, version_cmp, Identifier, Version,
    VersionView,
};
use std::cmp::Ordering;
use vstd::prelude::*;

verus! {

/// A declared dependency: a package name and the text of its version range.
#[derive(Debug, Clone)]
pub struct Dependency {
    pub name: String,
    pub req: String,
}

pub struct DependencyView {
    pub name: Seq<char>,
    pub req: Seq<char>,
}

impl View for Dependency {
    type V = DependencyView;

    open spec fn view(&self) -> DependencyView {
        DependencyView { name: self.name@, req: self.req@ }
    }
}

/// The identity of one published version of a package.
#[derive(Debug, Clone)]
pub struct CrateId {
    pub name: String,
    pub version: Version,
}

pub struct CrateIdView {
    pub name: Seq<char>,
    pub version: VersionView,
}

impl View for CrateId {
    type V = CrateIdView;

    open spec fn view(&self) -> CrateIdView {
        CrateIdView { name: self.name@, version: self.version@ }
    }
}

/// One record of the index: a published version and what it depends on.
#[derive(Debug, Clone)]
pub struct Crate {
    pub name: String,
    pub version: Version,
    pub dependencies: Vec<Dependency>,
}

pub struct CrateView {
    pub name: Seq<char>,
    pub version: VersionView,
    pub deps: Seq<DependencyView>,
}

pub open spec fn deps_view(d: Seq<Dependency>) -> Seq<DependencyView> {
    d.map_values(|x: Dependency| x@)
}

impl View for Crate {
    type V = CrateView;

    open spec fn view(&self) -> CrateView {
        CrateView { name: self.name@, version: self.version@, deps: deps_view(self.dependencies@) }
    }
}

/// Records and identities order by name, then by version.
pub open spec fn id_cmp(a: CrateIdView, b: CrateIdView) -> Ordering {
    if chars_cmp(a.name, b.name) != Ordering::Equal {
        chars_cmp(a.name, b.name)
    } else {
        version_cmp(a.version, b.version)
    }
}

/// Comparing two identities either way round gives opposite answers; they
/// compare equal exactly when they are the same identity.
pub proof fn lemma_id_cmp_antisymmetric(a: CrateIdView, b: CrateIdView)
    ensures
        id_cmp(a, b) == crate::version::flip(id_cmp(b, a)),
        id_cmp(a, b) == Ordering::Equal <==> a == b,
{
    lemma_chars_cmp(a.name, b.name);
    lemma_compare_antisymmetric(a.version, b.version);
}

/// Orders by name, then by version.
pub fn compare_ids(name_a: &String, version_a: &Version, name_b: &String, version_b: &Version) -> (r: Ordering)
    ensures
        r == id_cmp(
            CrateIdView { name: name_a@, version: version_a@ },
            CrateIdView { name: name_b@, version: version_b@ },
        ),
{
    let o = cmp_chars(name_a, name_b);
    if !matches!(o, Ordering::Equal) {
        return o;
    }
    version_a.compare(version_b)
}

fn copy_identifier(i: &Identifier) -> (r: Identifier)
    ensures
        r@ == i@,
{
    match i {
        Identifier::Numeric(n) => Identifier::Numeric(*n),
        Identifier::AlphaNumeric(s) => Identifier::AlphaNumeric(s.clone()),
    }
}

fn copy_identifiers(ids: &Vec<Identifier>) -> (r: Vec<Identifier>)
    ensures
        ids_view(r@) == ids_view(ids@),
{
    let mut out: Vec<Identifier> = Vec::new();
    let mut i: usize = 0;
    while i < ids.len()
        invariant
            i <= ids.len(),
            out@.len() == i,
            forall|j: int| 0 <= j < i ==> out@[j]@ == ids@[j]@,
        decreases ids.len() - i,
    {
        out.push(copy_identifier(&ids[i]));
        i = i + 1;
    }
    assert(ids_view(out@) =~= ids_view(ids@));
    out
}

/// A copy of `v` with the same view.
pub fn copy_version(v: &Version) -> (r: Version)
    ensures
        r@ == v@,
{
    Version {
        major: v.major,
        minor: v.minor,
        patch: v.patch,
        pre: copy_identifiers(&v.pre),
        build: copy_identifiers(&v.build),
    }
}

impl CrateId {
    /// Orders identities by name, then by version.
    pub fn compare(&self, other: &CrateId) -> (r: Ordering)
        ensures
            r == id_cmp(self@, other@),
    {
        compare_ids(&self.name, &self.version, &other.name, &other.version)
    }

    /// Whether two identities name the same version of the same package.
    pub fn equals(&self, other: &CrateId) -> (r: bool)
        ensures
            r == (self@ == other@),
    {
        proof {
            lemma_id_cmp_antisymmetric(self@, other@);
        }
        matches!(self.compare(other), Ordering::Equal)
    }

    /// The identity as a value that owns its name.
    pub fn to_owned(self) -> (r: CrateId)
        ensures
            r@ == self@,
    {
        CrateId { version: self.version, name: self.name }
    }
}

impl Crate {
    /// Orders records by name, then by version.
    pub fn compare(&self, other: &Crate) -> (r: Ordering)
        ensures
            r == id_cmp(
                CrateIdView { name: self@.name, version: self@.version },
                CrateIdView { name: other@.name, version: other@.version },
            ),
    {
        compare_ids(&self.name, &self.version, &other.name, &other.version)
    }

    /// Whether two records have the same name and version.
    pub fn same_id(&self, other: &Crate) -> (r: bool)
        ensures
            r == (self@.name == other@.name && self@.version == other@.version),
    {
        proof {
            lemma_id_cmp_antisymmetric(
                CrateIdView { name: self@.name, version: self@.version },
                CrateIdView { name: other@.name, version: other@.version },
            );
        }
        matches!(self.compare(other), Ordering::Equal)
    }

    /// The identity of this record: its name and version.
    pub fn id(&self) -> (r: CrateId)
        ensures
            r@ == (CrateIdView { name: self@.name, version: self@.version }),
    {
        CrateId { name: self.name.clone(), version: copy_version(&self.version) }
    }
}

} // verus!
