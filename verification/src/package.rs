//! Package identities and what a package declares about itself.

use crate::error::Error;
use crate::platform::Platform;
use crate::version::{req_matches, version_req_matches};
use vstd::prelude::*;

verus! {

/// A package identity as the contracts see it: three texts.
pub struct PackageIdView {
    pub name: Seq<char>,
    pub version: Seq<char>,
    pub source: Seq<char>,
}

/// The identity of a package: its name, its version and where it comes
/// from. Two identities are the same package only if all three agree.
#[derive(Debug, PartialEq, Eq, Hash, PartialOrd, Ord)]
pub struct PackageId {
    pub name: String,
    pub version: String,
    pub source: String,
}

impl View for PackageId {
    type V = PackageIdView;

    open spec fn view(&self) -> PackageIdView {
        PackageIdView { name: self.name@, version: self.version@, source: self.source@ }
    }
}

impl DeepView for PackageId {
    type V = PackageIdView;

    open spec fn deep_view(&self) -> PackageIdView {
        self@
    }
}

impl Clone for PackageId {
    fn clone(&self) -> (res: Self)
        ensures
            res == *self,
    {
        PackageId {
            name: self.name.clone(),
            version: self.version.clone(),
            source: self.source.clone(),
        }
    }
}

impl PackageId {
    pub fn new(name: &str, version: &str, source: &str) -> (res: Self)
        ensures
            res@ == (PackageIdView { name: name@, version: version@, source: source@ }),
    {
        PackageId { name: name.to_owned(), version: version.to_owned(), source: source.to_owned() }
    }

    /// Whether `self` and `other` name the same package.
    pub fn same(&self, other: &PackageId) -> (res: bool)
        ensures
            res == (self@ == other@),
    {
        self.name == other.name && self.version == other.version && self.source == other.source
    }
}

/// `i` is the first place in `ids` that holds `id`.
pub open spec fn first_at(ids: Seq<PackageIdView>, id: PackageIdView, i: int) -> bool {
    &&& 0 <= i < ids.len()
    &&& ids[i] == id
    &&& forall|j: int| 0 <= j < i ==> ids[j] != id
}

/// The first place in `ids` that holds `id`, if any does.
pub open spec fn position(ids: Seq<PackageIdView>, id: PackageIdView) -> Option<int> {
    if exists|i: int| first_at(ids, id, i) {
        Some(choose|i: int| first_at(ids, id, i))
    } else {
        None
    }
}

/// A first place is the only first place.
pub proof fn lemma_position_found(ids: Seq<PackageIdView>, id: PackageIdView, i: int)
    requires
        first_at(ids, id, i),
    ensures
        position(ids, id) == Some(i),
{
    let c = choose|c: int| first_at(ids, id, c);
    assert(first_at(ids, id, c));
    if c < i {
        assert(ids[c] != id);
    }
    if i < c {
        assert(ids[i] != id);
    }
}

/// Where no place holds `id`, there is no first place.
pub proof fn lemma_position_absent(ids: Seq<PackageIdView>, id: PackageIdView)
    requires
        forall|j: int| 0 <= j < ids.len() ==> ids[j] != id,
    ensures
        position(ids, id) is None,
{
}

/// What [`position`] finds is a first place, and it finds one wherever `id`
/// occurs.
pub proof fn lemma_position_meaning(ids: Seq<PackageIdView>, id: PackageIdView)
    ensures
        position(ids, id) matches Some(i) ==> first_at(ids, id, i),
        position(ids, id) is None <==> !ids.contains(id),
{
    if ids.contains(id) {
        lemma_first_exists(ids, id, ids.len() as int);
    }
}

/// Among the first `n` places, an occurrence of `id` implies a first one.
proof fn lemma_first_exists(ids: Seq<PackageIdView>, id: PackageIdView, n: int)
    requires
        0 <= n <= ids.len(),
        exists|j: int| 0 <= j < n && ids[j] == id,
    ensures
        exists|i: int| first_at(ids, id, i),
    decreases n,
{
    if exists|j: int| 0 <= j < n - 1 && ids[j] == id {
        lemma_first_exists(ids, id, n - 1);
    } else {
        assert(first_at(ids, id, n - 1));
    }
}

/// The identities of `ids`, as the contracts see them.
pub open spec fn id_views(ids: Seq<PackageId>) -> Seq<PackageIdView> {
    ids.map_values(|id: PackageId| id@)
}

/// The index at which `ids` first holds `id`.
pub(crate) fn find_in(ids: &Vec<PackageId>, id: &PackageId) -> (res: Option<usize>)
    ensures
        match res {
            Some(a) => position(id_views(ids@), id@) == Some(a as int) && a < ids.len(),
            None => position(id_views(ids@), id@) is None,
        },
{
    let mut i: usize = 0;
    while i < ids.len()
        invariant
            i <= ids.len(),
            forall|j: int| 0 <= j < i ==> id_views(ids@)[j] != id@,
        decreases ids.len() - i,
    {
        if ids[i].same(id) {
            proof {
                lemma_position_found(id_views(ids@), id@, i as int);
            }
            return Some(i);
        }
        i = i + 1;
    }
    proof {
        lemma_position_absent(id_views(ids@), id@);
    }
    None
}

/// Why one package needs another.
#[derive(Clone, Copy, Debug, PartialEq, Eq, Hash, Structural)]
pub enum Kind {
    Normal,
    Development,
    Build,
}

/// The descriptive block of a manifest, as the contracts see it.
pub struct ManifestMetadataView {
    pub authors: Seq<Seq<char>>,
    pub keywords: Seq<Seq<char>>,
    pub categories: Seq<Seq<char>>,
    pub license: Option<Seq<char>>,
    pub license_file: Option<Seq<char>>,
    pub description: Option<Seq<char>>,
    pub readme: Option<Seq<char>>,
    pub homepage: Option<Seq<char>>,
    pub repository: Option<Seq<char>>,
    pub documentation: Option<Seq<char>>,
    pub links: Option<Seq<char>>,
}

/// What a manifest says to describe its package: who wrote it, under which
/// licence, and where to read more.
#[derive(Debug, PartialEq, Eq)]
pub struct ManifestMetadata {
    pub authors: Vec<String>,
    pub keywords: Vec<String>,
    pub categories: Vec<String>,
    pub license: Option<String>,
    pub license_file: Option<String>,
    pub description: Option<String>,
    pub readme: Option<String>,
    pub homepage: Option<String>,
    pub repository: Option<String>,
    pub documentation: Option<String>,
    pub links: Option<String>,
}

impl View for ManifestMetadata {
    type V = ManifestMetadataView;

    open spec fn view(&self) -> ManifestMetadataView {
        ManifestMetadataView {
            authors: self.authors.deep_view(),
            keywords: self.keywords.deep_view(),
            categories: self.categories.deep_view(),
            license: self.license.deep_view(),
            license_file: self.license_file.deep_view(),
            description: self.description.deep_view(),
            readme: self.readme.deep_view(),
            homepage: self.homepage.deep_view(),
            repository: self.repository.deep_view(),
            documentation: self.documentation.deep_view(),
            links: self.links.deep_view(),
        }
    }
}

fn clone_texts(texts: &Vec<String>) -> (res: Vec<String>)
    ensures
        res.deep_view() == texts.deep_view(),
{
    let mut res: Vec<String> = Vec::new();
    let mut i: usize = 0;
    while i < texts.len()
        invariant
            i <= texts.len(),
            res.len() == i,
            forall|k: int| 0 <= k < i ==> res[k]@ == texts[k]@,
        decreases texts.len() - i,
    {
        res.push(texts[i].clone());
        i = i + 1;
    }
    assert(res.deep_view() =~= texts.deep_view());
    res
}

fn clone_text(text: &Option<String>) -> (res: Option<String>)
    ensures
        res.deep_view() == text.deep_view(),
{
    match text {
        Some(t) => Some(t.clone()),
        None => None,
    }
}

impl Clone for ManifestMetadata {
    fn clone(&self) -> (res: Self)
        ensures
            res@ == self@,
    {
        ManifestMetadata {
            authors: clone_texts(&self.authors),
            keywords: clone_texts(&self.keywords),
            categories: clone_texts(&self.categories),
            license: clone_text(&self.license),
            license_file: clone_text(&self.license_file),
            description: clone_text(&self.description),
            readme: clone_text(&self.readme),
            homepage: clone_text(&self.homepage),
            repository: clone_text(&self.repository),
            documentation: clone_text(&self.documentation),
            links: clone_text(&self.links),
        }
    }
}

impl ManifestMetadata {
    /// A block that says nothing.
    pub fn empty() -> (res: Self)
        ensures
            res@ == (ManifestMetadataView {
                authors: Seq::empty(),
                keywords: Seq::empty(),
                categories: Seq::empty(),
                license: None,
                license_file: None,
                description: None,
                readme: None,
                homepage: None,
                repository: None,
                documentation: None,
                links: None,
            }),
    {
        let res = ManifestMetadata {
            authors: Vec::new(),
            keywords: Vec::new(),
            categories: Vec::new(),
            license: None,
            license_file: None,
            description: None,
            readme: None,
            homepage: None,
            repository: None,
            documentation: None,
            links: None,
        };
        assert(res.authors.deep_view() =~= Seq::empty());
        assert(res.keywords.deep_view() =~= Seq::empty());
        assert(res.categories.deep_view() =~= Seq::empty());
        res
    }
}

/// What is stored for one package: its identity and the descriptive block
/// that was found for it when the node was made.
#[derive(Debug)]
pub struct Node {
    pub id: PackageId,
    pub metadata: ManifestMetadata,
}

impl Clone for Node {
    fn clone(&self) -> (res: Self)
        ensures
            res.id@ == self.id@,
            res.metadata@ == self.metadata@,
    {
        Node { id: self.id.clone(), metadata: self.metadata.clone() }
    }
}

/// One requirement that a manifest declares: a package by name, the
/// versions of it that will do, why it is needed and on which platforms.
#[derive(Debug, PartialEq, Eq)]
pub struct Dependency {
    pub name: String,
    pub version_req: String,
    pub kind: Kind,
    pub platform: Option<Platform>,
}

/// `dep` can be met by the package `id`, wherever that package comes from:
/// the names agree and the version meets the requirement.
pub open spec fn dep_matches(dep: Dependency, id: PackageIdView) -> bool {
    dep.name@ == id.name && req_matches(dep.version_req@, id.version) == Some(true)
}

impl Dependency {
    /// Whether a requirement on a package named `name` is met by `id`, given
    /// the verdict on its version: `Some(true)` where the version meets the
    /// requirement, anything else where it does not or cannot be told.
    pub fn matches_with_verdict(name: &String, id: &PackageId, verdict: Option<bool>) -> (res:
        bool)
        ensures
            res == (name@ == id.name@ && verdict == Some(true)),
    {
        match verdict {
            Some(met) => met && *name == id.name,
            None => false,
        }
    }

    /// Whether the package `id` can meet this requirement, wherever it comes
    /// from.
    pub fn matches_ignoring_source(&self, id: &PackageId) -> (res: bool)
        ensures
            res == dep_matches(*self, id@),
    {
        let verdict = version_req_matches(self.version_req.as_str(), id.version.as_str());
        Dependency::matches_with_verdict(&self.name, id, verdict)
    }
}

/// A package as its manifest describes it.
#[derive(Debug, PartialEq, Eq)]
pub struct Package {
    pub id: PackageId,
    pub metadata: ManifestMetadata,
    pub dependencies: Vec<Dependency>,
}

/// The packages that a resolution speaks of: those whose manifests are at
/// hand, and the identities of those whose contents could not be fetched.
#[derive(Debug, PartialEq, Eq)]
pub struct PackageSet {
    pub packages: Vec<Package>,
    pub failed: Vec<PackageId>,
}

/// What asking a package set for an identity gives.
pub enum Lookup {
    /// The manifest is at hand.
    Found(Package),
    /// The package is known, but its contents could not be fetched.
    Failed,
    /// The set knows no such package.
    Missing,
}

/// The identities of `packages`.
pub open spec fn package_ids(packages: Seq<Package>) -> Seq<PackageIdView> {
    packages.map_values(|p: Package| p.id@)
}

impl PackageSet {
    /// What the set holds for `id`: the first package of that identity, or
    /// else whether fetching it failed.
    pub open spec fn lookup(&self, id: PackageIdView) -> Lookup {
        match position(package_ids(self.packages@), id) {
            Some(i) => Lookup::Found(self.packages@[i]),
            None => if id_views(self.failed@).contains(id) {
                Lookup::Failed
            } else {
                Lookup::Missing
            },
        }
    }

    /// What [`PackageSet::get_one`] returns for `id`.
    pub open spec fn answers(&self, id: PackageIdView, res: Result<&Package, Error>) -> bool {
        match self.lookup(id) {
            Lookup::Found(p) => res == Ok::<&Package, Error>(&p),
            Lookup::Failed => res matches Err(Error::FetchFailed(e)) && e@ == id,
            Lookup::Missing => res matches Err(Error::MetadataNotFound(e)) && e@ == id,
        }
    }

    /// The package of identity `id`.
    ///
    /// Fails with [`Error::FetchFailed`] where the contents of the package
    /// could not be fetched, and with [`Error::MetadataNotFound`] where the
    /// set knows no such package.
    pub fn get_one(&self, id: &PackageId) -> (res: Result<&Package, Error>)
        ensures
            self.answers(id@, res),
    {
        let mut i: usize = 0;
        while i < self.packages.len()
            invariant
                i <= self.packages.len(),
                forall|j: int| 0 <= j < i ==> package_ids(self.packages@)[j] != id@,
            decreases self.packages.len() - i,
        {
            if self.packages[i].id.same(id) {
                proof {
                    lemma_position_found(package_ids(self.packages@), id@, i as int);
                }
                return Ok(&self.packages[i]);
            }
            i = i + 1;
        }
        proof {
            lemma_position_absent(package_ids(self.packages@), id@);
        }
        let mut k: usize = 0;
        while k < self.failed.len()
            invariant
                k <= self.failed.len(),
                position(package_ids(self.packages@), id@) is None,
                forall|j: int| 0 <= j < k ==> id_views(self.failed@)[j] != id@,
            decreases self.failed.len() - k,
        {
            if self.failed[k].same(id) {
                assert(id_views(self.failed@)[k as int] == id@);
                return Err(Error::FetchFailed(id.clone()));
            }
            k = k + 1;
        }
        Err(Error::MetadataNotFound(id.clone()))
    }
}

} // verus!
