//! Semantic versions and the order this library puts on them.

use std::cmp::Ordering;
use vstd::prelude::*;

verus! {

/// One dot-separated identifier of a pre-release or build tag.
#[derive(Debug, Clone)]
pub enum Identifier {
    Numeric(u64),
    AlphaNumeric(String),
}

pub enum IdentifierView {
    Numeric(u64),
    AlphaNumeric(Seq<char>),
}

impl View for Identifier {
    type V = IdentifierView;

    open spec fn view(&self) -> IdentifierView {
        match self {
            Identifier::Numeric(n) => IdentifierView::Numeric(*n),
            Identifier::AlphaNumeric(s) => IdentifierView::AlphaNumeric(s@),
        }
    }
}

/// A semantic version: numeric core, pre-release and build identifiers.
#[derive(Debug, Clone)]
pub struct Version {
    pub major: u64,
    pub minor: u64,
    pub patch: u64,
    pub pre: Vec<Identifier>,
    pub build: Vec<Identifier>,
}

pub struct VersionView {
    pub major: u64,
    pub minor: u64,
    pub patch: u64,
    pub pre: Seq<IdentifierView>,
    pub build: Seq<IdentifierView>,
}

pub open spec fn ids_view(ids: Seq<Identifier>) -> Seq<IdentifierView> {
    ids.map_values(|i: Identifier| i@)
}

impl View for Version {
    type V = VersionView;

    open spec fn view(&self) -> VersionView {
        VersionView {
            major: self.major,
            minor: self.minor,
            patch: self.patch,
            pre: ids_view(self.pre@),
            build: ids_view(self.build@),
        }
    }
}

pub open spec fn flip(o: Ordering) -> Ordering {
    match o {
        Ordering::Less => Ordering::Greater,
        Ordering::Equal => Ordering::Equal,
        Ordering::Greater => Ordering::Less,
    }
}

pub open spec fn int_cmp(a: int, b: int) -> Ordering {
    if a < b {
        Ordering::Less
    } else if a > b {
        Ordering::Greater
    } else {
        Ordering::Equal
    }
}

/// Lexicographic order of two strings, character by character.
pub open spec fn chars_cmp(a: Seq<char>, b: Seq<char>) -> Ordering
    decreases a.len(),
{
    if a.len() == 0 {
        if b.len() == 0 {
            Ordering::Equal
        } else {
            Ordering::Less
        }
    } else if b.len() == 0 {
        Ordering::Greater
    } else if a[0] != b[0] {
        int_cmp(a[0] as int, b[0] as int)
    } else {
        chars_cmp(a.drop_first(), b.drop_first())
    }
}

/// Numeric identifiers order by value and before alphanumeric ones, which
/// order lexicographically.
pub open spec fn ident_cmp(a: IdentifierView, b: IdentifierView) -> Ordering {
    match (a, b) {
        (IdentifierView::Numeric(x), IdentifierView::Numeric(y)) => int_cmp(x as int, y as int),
        (IdentifierView::Numeric(_), IdentifierView::AlphaNumeric(_)) => Ordering::Less,
        (IdentifierView::AlphaNumeric(_), IdentifierView::Numeric(_)) => Ordering::Greater,
        (IdentifierView::AlphaNumeric(s), IdentifierView::AlphaNumeric(t)) => chars_cmp(s, t),
    }
}

/// Lexicographic order of identifier lists; a proper prefix comes first.
pub open spec fn ids_cmp(a: Seq<IdentifierView>, b: Seq<IdentifierView>) -> Ordering
    decreases a.len(),
{
    if a.len() == 0 {
        if b.len() == 0 {
            Ordering::Equal
        } else {
            Ordering::Less
        }
    } else if b.len() == 0 {
        Ordering::Greater
    } else if ident_cmp(a[0], b[0]) != Ordering::Equal {
        ident_cmp(a[0], b[0])
    } else {
        ids_cmp(a.drop_first(), b.drop_first())
    }
}

/// Pre-release precedence: a version without a pre-release tag comes after
/// every version with one.
pub open spec fn pre_cmp(a: Seq<IdentifierView>, b: Seq<IdentifierView>) -> Ordering {
    if a.len() == 0 && b.len() == 0 {
        Ordering::Equal
    } else if a.len() == 0 {
        Ordering::Greater
    } else if b.len() == 0 {
        Ordering::Less
    } else {
        ids_cmp(a, b)
    }
}

/// The total order on versions: major, minor, patch, pre-release precedence,
/// and the build identifiers as the final tie-break.
pub open spec fn version_cmp(a: VersionView, b: VersionView) -> Ordering {
    if a.major != b.major {
        int_cmp(a.major as int, b.major as int)
    } else if a.minor != b.minor {
        int_cmp(a.minor as int, b.minor as int)
    } else if a.patch != b.patch {
        int_cmp(a.patch as int, b.patch as int)
    } else if pre_cmp(a.pre, b.pre) != Ordering::Equal {
        pre_cmp(a.pre, b.pre)
    } else {
        ids_cmp(a.build, b.build)
    }
}

/// Comparing two strings either way round gives opposite answers, and they
/// compare equal exactly when they are equal.
pub proof fn lemma_chars_cmp(a: Seq<char>, b: Seq<char>)
    ensures
        chars_cmp(a, b) == flip(chars_cmp(b, a)),
        chars_cmp(a, b) == Ordering::Equal <==> a == b,
    decreases a.len(),
{
    if a.len() > 0 && b.len() > 0 && a[0] == b[0] {
        lemma_chars_cmp(a.drop_first(), b.drop_first());
        if a.drop_first() == b.drop_first() {
            assert(a =~= seq![a[0]] + a.drop_first());
            assert(b =~= seq![b[0]] + b.drop_first());
        }
    }
    if a.len() == 0 && b.len() == 0 {
        assert(a =~= b);
    }
}

proof fn lemma_ident_cmp(a: IdentifierView, b: IdentifierView)
    ensures
        ident_cmp(a, b) == flip(ident_cmp(b, a)),
        ident_cmp(a, b) == Ordering::Equal <==> a == b,
{
    match (a, b) {
        (IdentifierView::AlphaNumeric(s), IdentifierView::AlphaNumeric(t)) => lemma_chars_cmp(s, t),
        _ => {},
    }
}

proof fn lemma_ids_cmp(a: Seq<IdentifierView>, b: Seq<IdentifierView>)
    ensures
        ids_cmp(a, b) == flip(ids_cmp(b, a)),
        ids_cmp(a, b) == Ordering::Equal <==> a == b,
    decreases a.len(),
{
    if a.len() > 0 && b.len() > 0 {
        lemma_ident_cmp(a[0], b[0]);
        lemma_ids_cmp(a.drop_first(), b.drop_first());
        if a.drop_first() == b.drop_first() && a[0] == b[0] {
            assert(a =~= seq![a[0]] + a.drop_first());
            assert(b =~= seq![b[0]] + b.drop_first());
        }
    }
    if a.len() == 0 && b.len() == 0 {
        assert(a =~= b);
    }
}

/// Comparing two versions either way round gives opposite answers, and they
/// compare equal exactly when every field, build identifiers included, agrees.
pub proof fn lemma_compare_antisymmetric(a: VersionView, b: VersionView)
    ensures
        version_cmp(a, b) == flip(version_cmp(b, a)),
        version_cmp(a, b) == Ordering::Equal <==> a == b,
{
    lemma_ids_cmp(a.pre, b.pre);
    lemma_ids_cmp(a.build, b.build);
}

/// Two versions that differ only in their build identifiers are not equal:
/// the build identifiers, compared one by one, decide their order.
pub proof fn lemma_build_breaks_ties(a: VersionView, b: VersionView)
    requires
        a.major == b.major,
        a.minor == b.minor,
        a.patch == b.patch,
        a.pre == b.pre,
        a.build != b.build,
    ensures
        version_cmp(a, b) != Ordering::Equal,
        version_cmp(a, b) == ids_cmp(a.build, b.build),
        version_cmp(a, b) == flip(version_cmp(b, a)),
{
    lemma_ids_cmp(a.pre, b.pre);
    lemma_ids_cmp(a.build, b.build);
}

fn cmp_u64(a: u64, b: u64) -> (r: Ordering)
    ensures
        r == int_cmp(a as int, b as int),
{
    if a < b {
        Ordering::Less
    } else if a > b {
        Ordering::Greater
    } else {
        Ordering::Equal
    }
}

/// Lexicographic comparison of two strings, character by character.
pub fn cmp_chars(a: &String, b: &String) -> (r: Ordering)
    ensures
        r == chars_cmp(a@, b@),
{
    let la = a.as_str().unicode_len();
    let lb = b.as_str().unicode_len();
    let mut i: usize = 0;
    assert(a@.subrange(0, la as int) =~= a@);
    assert(b@.subrange(0, lb as int) =~= b@);
    while i < la && i < lb
        invariant
            la == a@.len(),
            lb == b@.len(),
            i <= la,
            i <= lb,
            chars_cmp(a@, b@) == chars_cmp(a@.subrange(i as int, la as int), b@.subrange(i as int, lb as int)),
        decreases la - i,
    {
        let x = a.as_str().get_char(i);
        let y = b.as_str().get_char(i);
        proof {
            let sa = a@.subrange(i as int, la as int);
            let sb = b@.subrange(i as int, lb as int);
            assert(sa.drop_first() =~= a@.subrange(i + 1, la as int));
            assert(sb.drop_first() =~= b@.subrange(i + 1, lb as int));
        }
        if x != y {
            return cmp_u64(x as u64, y as u64);
        }
        i = i + 1;
    }
    if i < la {
        Ordering::Greater
    } else if i < lb {
        Ordering::Less
    } else {
        Ordering::Equal
    }
}

fn cmp_ident(a: &Identifier, b: &Identifier) -> (r: Ordering)
    ensures
        r == ident_cmp(a@, b@),
{
    match (a, b) {
        (Identifier::Numeric(x), Identifier::Numeric(y)) => cmp_u64(*x, *y),
        (Identifier::Numeric(_), Identifier::AlphaNumeric(_)) => Ordering::Less,
        (Identifier::AlphaNumeric(_), Identifier::Numeric(_)) => Ordering::Greater,
        (Identifier::AlphaNumeric(s), Identifier::AlphaNumeric(t)) => cmp_chars(s, t),
    }
}

fn cmp_ids(a: &Vec<Identifier>, b: &Vec<Identifier>) -> (r: Ordering)
    ensures
        r == ids_cmp(ids_view(a@), ids_view(b@)),
{
    let mut i: usize = 0;
    assert(ids_view(a@).subrange(0, a.len() as int) =~= ids_view(a@));
    assert(ids_view(b@).subrange(0, b.len() as int) =~= ids_view(b@));
    while i < a.len() && i < b.len()
        invariant
            i <= a.len(),
            i <= b.len(),
            ids_cmp(ids_view(a@), ids_view(b@)) == ids_cmp(
                ids_view(a@).subrange(i as int, a.len() as int),
                ids_view(b@).subrange(i as int, b.len() as int),
            ),
        decreases a.len() - i,
    {
        proof {
            let sa = ids_view(a@).subrange(i as int, a.len() as int);
            let sb = ids_view(b@).subrange(i as int, b.len() as int);
            assert(sa.drop_first() =~= ids_view(a@).subrange(i + 1, a.len() as int));
            assert(sb.drop_first() =~= ids_view(b@).subrange(i + 1, b.len() as int));
        }
        let o = cmp_ident(&a[i], &b[i]);
        if !matches!(o, Ordering::Equal) {
            return o;
        }
        i = i + 1;
    }
    if i < a.len() {
        Ordering::Greater
    } else if i < b.len() {
        Ordering::Less
    } else {
        Ordering::Equal
    }
}

impl Version {
    /// A version from its parts.
    pub fn new(major: u64, minor: u64, patch: u64, pre: Vec<Identifier>, build: Vec<Identifier>) -> (r: Version)
        ensures
            r.major == major,
            r.minor == minor,
            r.patch == patch,
            r.pre@ == pre@,
            r.build@ == build@,
    {
        Version { major, minor, patch, pre, build }
    }

    /// Whether the version carries a pre-release tag.
    pub fn is_prerelease(&self) -> (r: bool)
        ensures
            r == (self@.pre.len() > 0),
    {
        self.pre.len() > 0
    }

    /// This library's total order on versions (see `version_cmp`).
    pub fn compare(&self, other: &Version) -> (r: Ordering)
        ensures
            r == version_cmp(self@, other@),
    {
        if self.major != other.major {
            return cmp_u64(self.major, other.major);
        }
        if self.minor != other.minor {
            return cmp_u64(self.minor, other.minor);
        }
        if self.patch != other.patch {
            return cmp_u64(self.patch, other.patch);
        }
        let pre = if self.pre.len() == 0 && other.pre.len() == 0 {
            Ordering::Equal
        } else if self.pre.len() == 0 {
            Ordering::Greater
        } else if other.pre.len() == 0 {
            Ordering::Less
        } else {
            cmp_ids(&self.pre, &other.pre)
        };
        if !matches!(pre, Ordering::Equal) {
            return pre;
        }
        cmp_ids(&self.build, &other.build)
    }

    /// Equality of versions, build identifiers included.
    pub fn equals(&self, other: &Version) -> (r: bool)
        ensures
            r == (self@ == other@),
    {
        proof {
            lemma_compare_antisymmetric(self@, other@);
        }
        matches!(self.compare(other), Ordering::Equal)
    }
}

/// The version that semver reads from `text`, if it reads one.
pub uninterp spec fn semver_version(text: Seq<char>) -> Option<VersionView>;

/// Whether the range that semver reads from `range` admits `version`; none
/// where semver cannot read the range.
pub uninterp spec fn semver_range_admits(range: Seq<char>, version: VersionView) -> Option<bool>;

/// The text holds no '-', so no comparator in it can carry a pre-release tag.
pub open spec fn has_no_dash(s: Seq<char>) -> bool {
    forall|i: int| 0 <= i < s.len() ==> s[i] != '-'
}

/// Relies on semver::Version::parse (0.9): the parsed fields, or a failure,
/// follow from the text alone. The identifiers are moved over one by one.
#[verifier::external_body]
fn semver_parse(text: &str) -> (r: Option<Version>)
    ensures
        r is Some <==> semver_version(text@) is Some,
        r matches Some(v) ==> semver_version(text@) == Some(v@),
{
    let v = semver::Version::parse(text).ok()?;
    let conv = |ids: Vec<semver::Identifier>| -> Vec<Identifier> {
        ids.into_iter().map(|i| match i {
            semver::Identifier::Numeric(n) => Identifier::Numeric(n),
            semver::Identifier::AlphaNumeric(s) => Identifier::AlphaNumeric(s),
        }).collect()
    };
    Some(Version { major: v.major, minor: v.minor, patch: v.patch, pre: conv(v.pre), build: conv(v.build) })
}

/// Relies on semver::VersionReq::parse and VersionReq::matches (0.9). The
/// parser gives a comparator a pre-release tag only after a '-', and
/// `matches` admits a pre-release version only through a comparator that
/// has one, so a range without '-' admits no pre-release version.
#[verifier::external_body]
fn semver_matches(range: &str, v: &Version) -> (r: Option<bool>)
    ensures
        r == semver_range_admits(range@, v@),
        has_no_dash(range@) && v@.pre.len() > 0 ==> r != Some(true),
{
    let conv = |ids: &Vec<Identifier>| -> Vec<semver::Identifier> {
        ids.iter().map(|i| match i {
            Identifier::Numeric(n) => semver::Identifier::Numeric(*n),
            Identifier::AlphaNumeric(s) => semver::Identifier::AlphaNumeric(s.clone()),
        }).collect()
    };
    let version = semver::Version { major: v.major, minor: v.minor, patch: v.patch, pre: conv(&v.pre), build: conv(&v.build) };
    semver::VersionReq::parse(range).ok().map(|req| req.matches(&version))
}

/// A version text that semver does not accept.
#[derive(Debug, Clone)]
pub struct VersionParseError {
    pub text: String,
}

/// Whether the range text `range` admits `version`. `None` where the range
/// text is malformed.
pub fn range_matches(range: &str, version: &Version) -> (r: Option<bool>)
    ensures
        r == semver_range_admits(range@, version@),
        has_no_dash(range@) && version@.pre.len() > 0 ==> r != Some(true),
{
    semver_matches(range, version)
}

impl Version {
    /// Reads a version from its text.
    pub fn parse(text: &str) -> (r: Result<Version, VersionParseError>)
        ensures
            r is Ok <==> semver_version(text@) is Some,
            r matches Ok(v) ==> semver_version(text@) == Some(v@),
            r matches Err(e) ==> e.text@ == text@,
    {
        match semver_parse(text) {
            Some(v) => Ok(v),
            None => Err(VersionParseError { text: String::from_str(text) }),
        }
    }
}

} // verus!
