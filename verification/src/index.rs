//! The index of a registry: the summaries of its packages, and queries on them.

use crate::package::{Dependency, IndexSummary, PackageId, SourceId, Summary};
use crate::precise::{read_precise, PreciseError};
use crate::prefetch::{PrefetchRequest, PrefetchWalk, Prefetched};
use crate::query::{narrow, offer};
use crate::spelling::UncanonicalizedIter;
use crate::summaries::{MaybeIndexSummary, Summaries};
use crate::text::same_text;
use crate::version::VersionReq;
use vstd::arithmetic::power2::*;
use vstd::prelude::*;

verus! {

/// How many spellings of a path are tried before a package counts as missing.
pub const MAX_SPELLINGS: u16 = 1024;

/// The settings that the index goes by.
#[derive(Clone, Copy, Debug)]
pub struct Config {
    /// Whether the network must not be used.
    pub offline: bool,
    /// Whether namespaced features are switched on.
    pub namespaced_features: bool,
    /// Whether weak dependency features are switched on.
    pub weak_dep_features: bool,
}

/// The loaded summaries of one package.
struct CachedPackage {
    name: String,
    summaries: Summaries,
}

/// The index of one registry, with the summaries that were loaded so far.
pub struct RegistryIndex {
    source_id: SourceId,
    path: String,
    summaries_cache: Vec<CachedPackage>,
    config: Config,
}

/// Why a question to the index has no answer.
#[derive(Debug)]
pub enum IndexError {
    /// The summaries of the package were not loaded.
    NotLoaded,
    /// No hash is listed for the package.
    NoHash,
    /// What the registry is pinned to cannot be read.
    Precise(PreciseError),
}

/// Whether the package at place `i` has a name.
spec fn is_named(cache: Seq<CachedPackage>, name: Seq<char>, i: int) -> bool {
    0 <= i < cache.len() && cache[i].name@ == name
}

/// The loaded summaries by the names of their packages.
spec fn cached_map(cache: Seq<CachedPackage>) -> Map<Seq<char>, Summaries> {
    Map::new(
        |name: Seq<char>| exists|i: int| is_named(cache, name, i),
        |name: Seq<char>| cache[choose|i: int| is_named(cache, name, i)].summaries,
    )
}

/// Whether no two packages have the same name.
spec fn has_unique_names(cache: Seq<CachedPackage>) -> bool {
    forall|i: int, j: int|
        0 <= i < j < cache.len() ==> (#[trigger] cache[i]).name@ != (#[trigger] cache[j]).name@
}

/// What the loaded summaries of the package at place `i` are.
proof fn lemma_cached_at(cache: Seq<CachedPackage>, i: int)
    requires
        has_unique_names(cache),
        0 <= i < cache.len(),
    ensures
        cached_map(cache).contains_key(cache[i].name@),
        cached_map(cache)[cache[i].name@] == cache[i].summaries,
{
    let name = cache[i].name@;
    assert(is_named(cache, name, i));
}

/// Putting a package behind the others.
proof fn lemma_cached_push(cache: Seq<CachedPackage>, new: CachedPackage)
    requires
        has_unique_names(cache),
        !cached_map(cache).contains_key(new.name@),
    ensures
        has_unique_names(cache.push(new)),
        cached_map(cache.push(new)) == cached_map(cache).insert(new.name@, new.summaries),
{
    let after = cache.push(new);
    assert forall|i: int| 0 <= i < cache.len() implies (#[trigger] cache[i]).name@ != new.name@ by {
        assert(!is_named(cache, new.name@, i));
    }
    lemma_cached_at(after, cache.len() as int);
    assert forall|name: Seq<char>| name != new.name@ implies cached_map(after).contains_key(name)
        == #[trigger] cached_map(cache).contains_key(name) && (cached_map(cache).contains_key(name)
        ==> cached_map(after)[name] == cached_map(cache)[name]) by {
        if cached_map(cache).contains_key(name) {
            let i = choose|i: int| is_named(cache, name, i);
            lemma_cached_at(after, i);
        }
        if cached_map(after).contains_key(name) {
            let i = choose|i: int| is_named(after, name, i);
            assert(is_named(cache, name, i));
        }
    }
}

/// Replacing the summaries of one package.
proof fn lemma_cached_update(cache: Seq<CachedPackage>, after: Seq<CachedPackage>, i: int)
    requires
        has_unique_names(cache),
        0 <= i < cache.len(),
        after.len() == cache.len(),
        forall|j: int| 0 <= j < cache.len() && j != i ==> #[trigger] after[j] == cache[j],
        after[i].name@ == cache[i].name@,
    ensures
        has_unique_names(after),
        cached_map(after) == cached_map(cache).insert(cache[i].name@, after[i].summaries),
{
    lemma_cached_at(after, i);
    assert forall|name: Seq<char>| name != cache[i].name@ implies cached_map(after).contains_key(
        name,
    ) == #[trigger] cached_map(cache).contains_key(name) && (cached_map(cache).contains_key(name)
        ==> cached_map(after)[name] == cached_map(cache)[name]) by {
        if cached_map(cache).contains_key(name) {
            let k = choose|k: int| is_named(cache, name, k);
            lemma_cached_at(after, k);
        }
        if cached_map(after).contains_key(name) {
            let k = choose|k: int| is_named(after, name, k);
            assert(is_named(cache, name, k));
        }
    }
}

/// Taking one package out.
proof fn lemma_cached_remove(cache: Seq<CachedPackage>, i: int)
    requires
        has_unique_names(cache),
        0 <= i < cache.len(),
    ensures
        has_unique_names(cache.remove(i)),
        cached_map(cache.remove(i)) == cached_map(cache).remove(cache[i].name@),
{
    let after = cache.remove(i);
    assert forall|name: Seq<char>| cached_map(after).contains_key(name) == (
    #[trigger] cached_map(cache).contains_key(name) && name != cache[i].name@) && (cached_map(
        after,
    ).contains_key(name) ==> cached_map(after)[name] == cached_map(cache)[name]) by {
        if cached_map(cache).contains_key(name) && name != cache[i].name@ {
            let k = choose|k: int| is_named(cache, name, k);
            let l = if k < i {
                k
            } else {
                k - 1
            };
            lemma_cached_at(after, l);
        }
        if cached_map(after).contains_key(name) {
            let l = choose|l: int| is_named(after, name, l);
            let k = if l < i {
                l
            } else {
                l + 1
            };
            assert(after[l] == cache[k]);
            assert(is_named(cache, name, k));
        }
    }
}

/// A search for the file of a package, spelling after spelling.
pub struct SummariesSearch<'s> {
    paths: UncanonicalizedIter<'s>,
}

impl<'s> SummariesSearch<'s> {
    /// The path of the package's file, as its name is spelled.
    pub closed spec fn path(&self) -> Seq<char> {
        self.paths.input()
    }

    /// How many spellings were tried.
    pub closed spec fn tried(&self) -> int {
        self.paths.position()
    }

    /// Whether all spellings were tried, or as many as are tried at all.
    pub open spec fn is_over(&self) -> bool {
        self.tried() >= MAX_SPELLINGS || self.tried() >= crate::spelling::spelling_limit(
            (crate::spelling::separators(self.path()) as u32) as nat,
        )
    }

    /// Starts at the path as it is spelled.
    pub fn new(path: &'s str) -> (r: Self)
        ensures
            r.path() == path@,
            r.tried() == 0,
    {
        SummariesSearch { paths: UncanonicalizedIter::new(path) }
    }

    /// The next spelling to try.
    fn next(&mut self) -> (r: Option<String>)
        ensures
            final(self).path() == old(self).path(),
            match r {
                Some(path) => {
                    &&& !old(self).is_over()
                    &&& path@ == crate::spelling::spelling(
                        old(self).path(),
                        old(self).tried() as u16,
                    )
                    &&& final(self).tried() == old(self).tried() + 1
                },
                None => old(self).is_over() && final(self).tried() == old(self).tried(),
            },
    {
        if self.paths.handed_out() >= MAX_SPELLINGS {
            return None;
        }
        self.paths.next()
    }
}

/// What to do next to load the summaries of a package.
pub enum LoadStep {
    /// They are loaded.
    Loaded,
    /// Look at this path.
    Try(String),
}

impl RegistryIndex {
    /// Where the packages come from.
    pub closed spec fn source_id(&self) -> SourceId {
        self.source_id
    }

    /// The settings.
    pub closed spec fn config(&self) -> Config {
        self.config
    }

    /// Where the index is kept.
    pub closed spec fn location(&self) -> Seq<char> {
        self.path@
    }

    /// The summaries that were loaded, by the names of their packages.
    pub closed spec fn cached(&self) -> Map<Seq<char>, Summaries> {
        cached_map(self.summaries_cache@)
    }

    /// What holds of every index.
    pub closed spec fn wf(&self) -> bool {
        &&& has_unique_names(self.summaries_cache@)
        &&& forall|i: int|
            0 <= i < self.summaries_cache@.len() ==> (
            #[trigger] self.summaries_cache@[i]).summaries.wf()
    }

    /// Whether another index is about the same registry, under the same settings.
    pub open spec fn is_like(&self, other: &RegistryIndex) -> bool {
        &&& self.source_id() == other.source_id()
        &&& self.config() == other.config()
        &&& self.location() == other.location()
    }

    /// An index of which nothing was loaded.
    pub fn new(source_id: SourceId, path: &str, config: Config) -> (r: RegistryIndex)
        ensures
            r.wf(),
            r.source_id() == source_id,
            r.location() == path@,
            r.config() == config,
            r.cached() == Map::<Seq<char>, Summaries>::empty(),
    {
        let r = RegistryIndex {
            source_id,
            path: path.to_owned(),
            summaries_cache: Vec::new(),
            config,
        };
        r
    }

    /// Where the index is kept.
    pub fn path(&self) -> (r: &str)
        ensures
            r@ == self.location(),
    {
        &self.path
    }

    /// The place of a package among those that were loaded.
    fn find(&self, name: &str) -> (r: Option<usize>)
        ensures
            match r {
                Some(i) => is_named(self.summaries_cache@, name@, i as int),
                None => !self.cached().contains_key(name@),
            },
    {
        let mut i: usize = 0;
        while i < self.summaries_cache.len()
            invariant
                i <= self.summaries_cache@.len(),
                forall|j: int| 0 <= j < i ==> !#[trigger] is_named(self.summaries_cache@, name@, j),
            decreases self.summaries_cache@.len() - i,
        {
            if same_text(&self.summaries_cache[i].name, name) {
                return Some(i);
            }
            i += 1;
        }
        None
    }

    /// Whether the summaries of a package were loaded.
    pub fn is_loaded(&self, name: &str) -> (r: bool)
        requires
            self.wf(),
        ensures
            r == self.cached().contains_key(name@),
    {
        match self.find(name) {
            Some(i) => {
                true
            },
            None => false,
        }
    }

    /// Puts in the summaries of a package that was not loaded.
    fn insert_summaries(&mut self, name: &str, summaries: Summaries)
        requires
            old(self).wf(),
            summaries.wf(),
            !old(self).cached().contains_key(name@),
        ensures
            final(self).wf(),
            final(self).is_like(old(self)),
            final(self).cached() == old(self).cached().insert(name@, summaries),
    {
        let new = CachedPackage { name: name.to_owned(), summaries };
        proof {
            lemma_cached_push(self.summaries_cache@, new);
        }
        self.summaries_cache.push(new);
    }

    /// Loads the summaries of a package, given what was found at the path that
    /// was tried last.
    ///
    /// Summaries that were loaded before are kept. Otherwise the spellings of
    /// the path are tried one after the other, and the first hit counts. If
    /// there is none then the package doesn't exist, and has no summaries.
    pub fn load_summaries(
        &mut self,
        name: &str,
        search: &mut SummariesSearch<'_>,
        found: Option<Summaries>,
    ) -> (r: LoadStep)
        requires
            old(self).wf(),
            found matches Some(s) ==> s.wf(),
        ensures
            final(self).wf(),
            final(self).is_like(old(self)),
            final(search).path() == old(search).path(),
            if old(self).cached().contains_key(name@) {
                &&& r is Loaded
                &&& final(self).cached() == old(self).cached()
                &&& final(search).tried() == old(search).tried()
            } else {
                match found {
                    Some(summaries) => {
                        &&& r is Loaded
                        &&& final(self).cached() == old(self).cached().insert(name@, summaries)
                        &&& final(search).tried() == old(search).tried()
                    },
                    None => if old(search).is_over() {
                        &&& r is Loaded
                        &&& final(self).cached() == old(self).cached().insert(
                            name@,
                            final(self).cached()[name@],
                        )
                        &&& final(self).cached()[name@].slots().len() == 0
                        &&& final(self).cached()[name@].raw_data().len() == 0
                        &&& final(search).tried() == old(search).tried()
                    } else {
                        &&& r matches LoadStep::Try(path) && path@ == crate::spelling::spelling(
                            old(search).path(),
                            old(search).tried() as u16,
                        )
                        &&& final(self).cached() == old(self).cached()
                        &&& final(search).tried() == old(search).tried() + 1
                    },
                }
            },
    {
        if self.is_loaded(name) {
            return LoadStep::Loaded;
        }
        if let Some(summaries) = found {
            self.insert_summaries(name, summaries);
            return LoadStep::Loaded;
        }
        match search.next() {
            Some(path) => LoadStep::Try(path),
            None => {
                self.insert_summaries(name, Summaries::new());
                LoadStep::Loaded
            },
        }
    }

    /// Forgets what was loaded of a package if its file was updated, and says
    /// whether it was.
    pub fn update_index_file(&mut self, pkg: &str, is_updated: bool) -> (r: bool)
        requires
            old(self).wf(),
        ensures
            r == is_updated,
            final(self).wf(),
            final(self).is_like(old(self)),
            final(self).cached() == if is_updated {
                old(self).cached().remove(pkg@)
            } else {
                old(self).cached()
            },
    {
        if is_updated {
            match self.find(pkg) {
                Some(i) => {
                    proof {
                        lemma_cached_remove(self.summaries_cache@, i as int);
                    }
                    self.summaries_cache.remove(i);
                },
                None => {},
            }
        }
        is_updated
    }
}

/// The candidates for a requirement on a package, among what was loaded.
pub open spec fn candidates_in(
    index: &RegistryIndex,
    name: Seq<char>,
    req: Option<Seq<char>>,
) -> Seq<IndexSummary> {
    crate::summaries::candidates(
        index.cached()[name].slots(),
        req,
        index.config().namespaced_features,
        index.config().weak_dep_features,
    )
}

/// Whether an index may have become another when the candidates for a
/// requirement on a package were asked for: of this package, the summaries of
/// the versions that meet the requirement were parsed, and nothing else.
pub open spec fn index_parsed<E, F: Fn(&[u8]) -> Result<IndexSummary, E>>(
    parse: F,
    name: Seq<char>,
    req: Option<Seq<char>>,
    old_index: &RegistryIndex,
    new_index: &RegistryIndex,
) -> bool {
    &&& new_index.wf()
    &&& new_index.is_like(old_index)
    &&& new_index.cached() == old_index.cached().insert(name, new_index.cached()[name])
    &&& crate::summaries::summaries_parsed(
        parse,
        req,
        old_index.cached()[name],
        new_index.cached()[name],
    )
}

/// The hash that the first of some summaries lists.
pub open spec fn listed_hash(found: Seq<IndexSummary>) -> Option<Seq<char>> {
    if found.len() == 0 {
        None
    } else {
        match found[0].summary.checksum {
            Some(hash) => Some(hash@),
            None => None,
        }
    }
}

/// Whether a yanked summary is among some.
pub open spec fn has_yanked(found: Seq<IndexSummary>) -> bool {
    exists|i: int| 0 <= i < found.len() && (#[trigger] found[i]).yanked
}

impl RegistryIndex {
    /// Parses the summaries of the versions of a package that meet a
    /// requirement. Those that cannot be parsed stay as they are.
    fn parse_matching<E, F: Fn(&[u8]) -> Result<IndexSummary, E>>(
        &mut self,
        name: &str,
        req: &VersionReq,
        parse: &F,
    ) -> (r: bool)
        requires
            old(self).wf(),
            forall|line: &[u8]| call_requires(*parse, (line,)),
        ensures
            r == old(self).cached().contains_key(name@),
            r ==> index_parsed(*parse, name@, req@, old(self), final(self)),
            !r ==> *final(self) == *old(self),
    {
        let i: usize = match self.find(name) {
            Some(i) => i,
            None => {
                return false;
            },
        };
        let ghost before = self.summaries_cache@;
        let package = &mut self.summaries_cache[i];
        package.summaries.parse_matching(req, parse);
        proof {
            lemma_cached_update(before, self.summaries_cache@, i as int);
        }
        true
    }

    /// The candidates for a requirement on a package, as far as they are
    /// parsed.
    fn candidates<'a>(&'a self, name: &str, req: &VersionReq) -> (r: Option<
        Vec<&'a IndexSummary>,
    >)
        requires
            self.wf(),
        ensures
            r is Some <==> self.cached().contains_key(name@),
            r matches Some(found) ==> crate::summaries::values(found@) == candidates_in(
                self,
                name@,
                req@,
            ),
    {
        match self.find(name) {
            Some(i) => {
                Some(
                    self.summaries_cache[i].summaries.candidates(
                        req,
                        self.config.namespaced_features,
                        self.config.weak_dep_features,
                    ),
                )
            },
            None => None,
        }
    }

    /// The summaries of a package which match `req`.
    ///
    /// Only the lines of the versions that match are parsed; a line that
    /// cannot be parsed is left out, and so is a summary that uses an unstable
    /// feature.
    pub fn summaries<'a, E, F: Fn(&[u8]) -> Result<IndexSummary, E>>(
        &'a mut self,
        name: &str,
        req: &VersionReq,
        parse: &F,
    ) -> (r: Result<Vec<&'a IndexSummary>, IndexError>)
        requires
            old(self).wf(),
            forall|line: &[u8]| call_requires(*parse, (line,)),
        ensures
            if old(self).cached().contains_key(name@) {
                &&& index_parsed(*parse, name@, req@, old(self), final(self))
                &&& r matches Ok(found) && crate::summaries::values(found@) == candidates_in(
                    final(self),
                    name@,
                    req@,
                )
            } else {
                &&& *final(self) == *old(self)
                &&& r matches Err(IndexError::NotLoaded)
            },
    {
        self.parse_matching(name, req, parse);
        let this: &'a RegistryIndex = self;
        match this.candidates(name, req) {
            Some(found) => Ok(found),
            None => Err(IndexError::NotLoaded),
        }
    }

    /// Returns the hash listed for a package.
    pub fn hash<'a, E, F: Fn(&[u8]) -> Result<IndexSummary, E>>(
        &'a mut self,
        pkg: &PackageId,
        parse: &F,
    ) -> (r: Result<&'a str, IndexError>)
        requires
            old(self).wf(),
            forall|line: &[u8]| call_requires(*parse, (line,)),
        ensures
            crate::version::is_exact(
                Some(crate::version::exact_text(pkg.version@)),
                pkg.version@,
            ),
            if old(self).cached().contains_key(pkg.name@) {
                let req = Some(crate::version::exact_text(pkg.version@));
                &&& index_parsed(*parse, pkg.name@, req, old(self), final(self))
                &&& match listed_hash(candidates_in(final(self), pkg.name@, req)) {
                    Some(hash) => r matches Ok(h) && h@ == hash,
                    None => r matches Err(IndexError::NoHash),
                }
            } else {
                &&& *final(self) == *old(self)
                &&& r matches Err(IndexError::NotLoaded)
            },
    {
        let req = VersionReq::exact(&pkg.version);
        let found = match self.summaries(&pkg.name, &req, parse) {
            Ok(found) => found,
            Err(e) => {
                return Err(e);
            },
        };
        if found.len() == 0 {
            return Err(IndexError::NoHash);
        }
        let first: &'a IndexSummary = found[0];
        match &first.summary.checksum {
            Some(hash) => Ok(hash.as_str()),
            None => Err(IndexError::NoHash),
        }
    }

    /// Whether a package is yanked.
    pub fn is_yanked<E, F: Fn(&[u8]) -> Result<IndexSummary, E>>(
        &mut self,
        pkg: &PackageId,
        parse: &F,
    ) -> (r: Result<bool, IndexError>)
        requires
            old(self).wf(),
            forall|line: &[u8]| call_requires(*parse, (line,)),
        ensures
            crate::version::is_exact(
                Some(crate::version::exact_text(pkg.version@)),
                pkg.version@,
            ),
            if old(self).cached().contains_key(pkg.name@) {
                let req = Some(crate::version::exact_text(pkg.version@));
                &&& index_parsed(*parse, pkg.name@, req, old(self), final(self))
                &&& r == Ok::<bool, IndexError>(
                    has_yanked(candidates_in(final(self), pkg.name@, req)),
                )
            } else {
                &&& *final(self) == *old(self)
                &&& r matches Err(IndexError::NotLoaded)
            },
    {
        let req = VersionReq::exact(&pkg.version);
        let found = match self.summaries(&pkg.name, &req, parse) {
            Ok(found) => found,
            Err(e) => {
                return Err(e);
            },
        };
        let ghost all = crate::summaries::values(found@);
        let mut is_yanked = false;
        let mut i: usize = 0;
        while i < found.len() && !is_yanked
            invariant
                i <= found@.len(),
                all == crate::summaries::values(found@),
                is_yanked ==> has_yanked(all),
                !is_yanked ==> forall|j: int| 0 <= j < i ==> !(#[trigger] all[j]).yanked,
            decreases found@.len() - i,
        {
            assert(all[i as int] == *found@[i as int]);
            is_yanked = found[i].yanked;
            i += 1;
        }
        Ok(is_yanked)
    }
}

/// The hash of a package is the one that the line of its version lists, and it
/// is yanked if that line says so.
pub proof fn law_answers_are_those_of_the_version(
    slots: Seq<crate::summaries::Slot>,
    req: Option<Seq<char>>,
    version: crate::version::VersionView,
    config: Config,
    i: int,
)
    requires
        crate::summaries::are_distinct(slots),
        crate::version::is_exact(req, version),
        0 <= i < slots.len(),
        slots[i].version.key() == version.key(),
        crate::summaries::is_candidate(
            slots[i],
            req,
            config.namespaced_features,
            config.weak_dep_features,
        ),
    ensures
        ({
            let found = crate::summaries::candidates(
                slots,
                req,
                config.namespaced_features,
                config.weak_dep_features,
            );
            let summary = slots[i].summary->Parsed_0;
            &&& listed_hash(found) == match summary.summary.checksum {
                Some(hash) => Some(hash@),
                None => None,
            }
            &&& has_yanked(found) == summary.yanked
        }),
{
    crate::summaries::law_one_exact_candidate(
        slots,
        req,
        version,
        config.namespaced_features,
        config.weak_dep_features,
    );
    let found = seq![slots[i].summary->Parsed_0];
    assert(found[0].yanked == slots[i].summary->Parsed_0.yanked);
}

/// What a registry is pinned to.
pub open spec fn pinned(source_id: SourceId) -> Option<Seq<char>> {
    match source_id.precise {
        Some(p) => Some(p@),
        None => None,
    }
}

/// The text of the only version that may be offered for a dependency.
pub open spec fn target_for(index: &RegistryIndex, dep: &Dependency) -> Result<
    Option<Seq<char>>,
    PreciseError,
> {
    crate::precise::precise_target(pinned(index.source_id()), dep.name@, dep.req@)
}

/// Whether a list of summaries, or an error, may answer a query.
///
/// When offline, what was downloaded comes first, and only if none of that
/// fits is the query answered as if online.
pub open spec fn answers_query<D: Fn(&PackageId) -> bool>(
    index: &RegistryIndex,
    dep: &Dependency,
    whitelist: Seq<PackageId>,
    is_downloaded: D,
    answer: Result<Seq<Summary>, PreciseError>,
) -> bool {
    let found = candidates_in(index, dep.name@, dep.req@);
    let target = target_for(index, dep);
    let nothing = Ok::<Seq<Summary>, PreciseError>(Seq::empty());
    if index.config().offline {
        ||| {
            &&& crate::query::is_answer(Some(&is_downloaded), found, whitelist, target, answer)
            &&& answer != nothing
        }
        ||| {
            &&& crate::query::is_answer(Some(&is_downloaded), found, whitelist, target, nothing)
            &&& crate::query::is_answer(None::<&D>, found, whitelist, target, answer)
        }
    } else {
        crate::query::is_answer(None::<&D>, found, whitelist, target, answer)
    }
}

impl RegistryIndex {
    /// Answers a query from the candidates that are parsed: from all of them
    /// when online, from those that were downloaded otherwise. It is only
    /// offline that there is somebody to ask about downloads.
    fn query_inner_with_online<'a, D: Fn(&PackageId) -> bool>(
        &'a self,
        dep: &Dependency,
        yanked_whitelist: &Vec<PackageId>,
        is_downloaded: Option<&D>,
    ) -> (r: Result<Vec<&'a Summary>, IndexError>)
        requires
            self.wf(),
            is_downloaded matches Some(ask) ==> forall|pkg: &PackageId|
                call_requires(*ask, (pkg,)),
        ensures
            if self.cached().contains_key(dep.name@) {
                let found = candidates_in(self, dep.name@, dep.req@);
                let target = target_for(self, dep);
                match r {
                    Ok(list) => crate::query::is_answer(
                        is_downloaded,
                        found,
                        yanked_whitelist@,
                        target,
                        Ok(crate::summaries::values(list@)),
                    ),
                    Err(IndexError::Precise(e)) => crate::query::is_answer(
                        is_downloaded,
                        found,
                        yanked_whitelist@,
                        target,
                        Err(e),
                    ),
                    Err(_) => false,
                }
            } else {
                r matches Err(IndexError::NotLoaded)
            },
    {
        let found = match self.candidates(&dep.name, &dep.req) {
            Some(found) => found,
            None => {
                return Err(IndexError::NotLoaded);
            },
        };
        let precise = match &self.source_id.precise {
            Some(p) => Some(p.as_str()),
            None => None,
        };
        let target = read_precise(precise, &dep.name, &dep.req);
        match narrow(offer(found, yanked_whitelist, is_downloaded), target) {
            Ok(list) => Ok(list),
            Err(e) => Err(IndexError::Precise(e)),
        }
    }

    /// The summaries that a dependency may be resolved to.
    ///
    /// If offline, and nothing that was downloaded fits, the query is answered
    /// as if online. This is necessary for dependencies that are not used, such
    /// as optional ones, and not downloaded: they still need to resolve.
    ///
    /// `is_downloaded` may be asked only if offline.
    pub fn query_inner<'a, E, F, D>(
        &'a mut self,
        dep: &Dependency,
        yanked_whitelist: &Vec<PackageId>,
        is_downloaded: &D,
        parse: &F,
    ) -> (r: Result<Vec<&'a Summary>, IndexError>) where
        F: Fn(&[u8]) -> Result<IndexSummary, E>,
        D: Fn(&PackageId) -> bool,

        requires
            old(self).wf(),
            forall|line: &[u8]| call_requires(*parse, (line,)),
            old(self).config().offline ==> forall|pkg: &PackageId|
                call_requires(*is_downloaded, (pkg,)),
        ensures
            if old(self).cached().contains_key(dep.name@) {
                &&& index_parsed(*parse, dep.name@, dep.req@, old(self), final(self))
                &&& match r {
                    Ok(list) => answers_query(
                        final(self),
                        dep,
                        yanked_whitelist@,
                        *is_downloaded,
                        Ok(crate::summaries::values(list@)),
                    ),
                    Err(IndexError::Precise(e)) => answers_query(
                        final(self),
                        dep,
                        yanked_whitelist@,
                        *is_downloaded,
                        Err(e),
                    ),
                    Err(_) => false,
                }
            } else {
                &&& *final(self) == *old(self)
                &&& r matches Err(IndexError::NotLoaded)
            },
    {
        self.parse_matching(&dep.name, &dep.req, parse);
        let this: &'a RegistryIndex = self;
        if this.config.offline {
            match this.query_inner_with_online(dep, yanked_whitelist, Some(is_downloaded)) {
                Ok(list) => {
                    if list.len() != 0 {
                        assert(crate::summaries::values(list@).len() != 0);
                        return Ok(list);
                    }
                    assert(crate::summaries::values(list@) =~= Seq::<Summary>::empty());
                },
                Err(e) => {
                    return Err(e);
                },
            }
        }
        this.query_inner_with_online(dep, yanked_whitelist, None::<&D>)
    }
}

/// What comes of a fetched file.
pub struct PrefetchStep<E> {
    /// What to fetch next.
    pub requests: Vec<PrefetchRequest>,
    /// Why a version could not be parsed, which ends the prefetching.
    pub error: Option<E>,
}

impl RegistryIndex {
    /// Whether files are fetched in advance, if the registry can do so.
    pub fn wants_prefetch(&self) -> (r: bool)
        ensures
            r == !self.config().offline,
    {
        !self.config.offline
    }

    /// Starts fetching the files of transitive dependencies in advance.
    ///
    /// The lock file comes first, since it names files that would be discovered
    /// much later. The dependencies of the packages at the root follow, before
    /// any reply is handled: they have to be marked as such, or else their
    /// development dependencies would be ignored.
    pub fn prefetch(
        &self,
        deps: &Vec<Dependency>,
        yanked_whitelist: &Vec<PackageId>,
        is_supported: bool,
    ) -> (r: Option<(PrefetchWalk, Vec<PrefetchRequest>)>)
        ensures
            match r {
                Some((walk, requests)) => {
                    &&& is_supported && !self.config().offline
                    &&& (crate::prefetch::WalkView {
                        walked: walk.walked(),
                        requests: crate::prefetch::requests_of(requests@),
                    }) == crate::prefetch::walk_seed(
                        deps@,
                        yanked_whitelist@,
                        self.source_id().id,
                    )
                    &&& crate::prefetch::all_covered(walk.walked(), deps@)
                },
                None => !is_supported || self.config().offline,
            },
    {
        if self.config.offline || !is_supported {
            return None;
        }
        Some(PrefetchWalk::seed(deps, yanked_whitelist, self.source_id.id))
    }

    /// Takes in a fetched file and walks the dependencies of its versions.
    ///
    /// `loaded` is what the file holds; it does not matter where the summaries
    /// of the package were loaded before.
    pub fn prefetched<E, F: Fn(&[u8]) -> Result<IndexSummary, E>>(
        &mut self,
        walk: &mut PrefetchWalk,
        fetched: &Prefetched,
        loaded: Option<Summaries>,
        parse: &F,
    ) -> (r: PrefetchStep<E>)
        requires
            old(self).wf(),
            loaded matches Some(s) ==> s.wf(),
            forall|line: &[u8]| call_requires(*parse, (line,)),
        ensures
            final(self).wf(),
            final(self).is_like(old(self)),
            if old(self).cached().contains_key(fetched.name@) || loaded is Some {
                &&& final(self).cached() == old(self).cached().insert(
                    fetched.name@,
                    final(self).cached()[fetched.name@],
                )
                &&& crate::prefetch::versions_walked(
                    *parse,
                    *fetched,
                    old(self).source_id().id,
                    if old(self).cached().contains_key(fetched.name@) {
                        old(self).cached()[fetched.name@]
                    } else {
                        loaded->0
                    },
                    final(self).cached()[fetched.name@],
                    (crate::prefetch::WalkView {
                        walked: old(walk).walked(),
                        requests: Seq::empty(),
                    }),
                    (crate::prefetch::WalkView {
                        walked: final(walk).walked(),
                        requests: crate::prefetch::requests_of(r.requests@),
                    }),
                    r.error,
                )
            } else {
                &&& final(self).cached() == old(self).cached()
                &&& final(walk).walked() == old(walk).walked()
                &&& r.requests@.len() == 0
                &&& r.error is None
            },
    {
        let mut requests: Vec<PrefetchRequest> = Vec::new();
        if !self.is_loaded(&fetched.name) {
            match loaded {
                Some(summaries) => self.insert_summaries(&fetched.name, summaries),
                None => {
                    return PrefetchStep { requests, error: None };
                },
            }
        }
        let ghost before = self.summaries_cache@;
        let i: usize = match self.find(&fetched.name) {
            Some(i) => i,
            None => vstd::pervasive::unreached(),
        };
        proof {
            lemma_cached_at(before, i as int);
            assert(crate::prefetch::requests_of(requests@) =~= Seq::empty());
        }
        let source: u64 = self.source_id.id;
        let package = &mut self.summaries_cache[i];
        let error = match walk.walk_versions(
            &mut package.summaries,
            fetched,
            source,
            parse,
            &mut requests,
        ) {
            Ok(_) => None,
            Err(e) => Some(e),
        };
        proof {
            lemma_cached_update(before, self.summaries_cache@, i as int);
        }
        PrefetchStep { requests, error }
    }
}

/// What asking for candidates leaves as it is: the registry, the settings and
/// all other packages. The package that was asked about stays loaded, with the
/// same versions.
pub proof fn law_other_packages_stay<E, F: Fn(&[u8]) -> Result<IndexSummary, E>>(
    parse: F,
    name: Seq<char>,
    req: Option<Seq<char>>,
    before: &RegistryIndex,
    after: &RegistryIndex,
    other: Seq<char>,
)
    requires
        index_parsed(parse, name, req, before, after),
        before.cached().contains_key(name),
    ensures
        after.source_id() == before.source_id(),
        after.config() == before.config(),
        after.location() == before.location(),
        after.cached().contains_key(other) <==> before.cached().contains_key(other),
        other != name && before.cached().contains_key(other) ==> after.cached()[other]
            == before.cached()[other],
        after.cached()[name].slots().len() == before.cached()[name].slots().len(),
        forall|i: int|
            0 <= i < before.cached()[name].slots().len() ==> (
            #[trigger] after.cached()[name].slots()[i]).version
                == before.cached()[name].slots()[i].version,
{
    let whole = after.cached();
    assert(whole.contains_key(other) <==> before.cached().insert(name, whole[name]).contains_key(
        other,
    ));
    assert(other != name && before.cached().contains_key(other) ==> before.cached().insert(
        name,
        whole[name],
    )[other] == before.cached()[other]);
    assert forall|i: int| 0 <= i < before.cached()[name].slots().len() implies (
    #[trigger] after.cached()[name].slots()[i]).version
        == before.cached()[name].slots()[i].version by {
        crate::summaries::law_matching_entries_are_parsed(
            parse,
            req,
            before.cached()[name],
            after.cached()[name],
            i,
        );
    }
}

/// Every version of a loaded package that meets a requirement is answered for.
///
/// If its entry is unparsed and `parse` only ever turns the bytes that it points
/// to into `summary`, or if it holds `summary` already, and if `summary` uses no
/// unstable feature that is switched off, then `summary` is among the candidates
/// that come back.
pub proof fn law_every_match_is_found<E, F: Fn(&[u8]) -> Result<IndexSummary, E>>(
    parse: F,
    name: Seq<char>,
    req: Option<Seq<char>>,
    before: &RegistryIndex,
    after: &RegistryIndex,
    i: int,
    summary: IndexSummary,
)
    requires
        index_parsed(parse, name, req, before, after),
        before.cached().contains_key(name),
        0 <= i < before.cached()[name].slots().len(),
        match req {
            Some(text) => crate::version::requirement_matches(
                text,
                before.cached()[name].slots()[i].version,
            ),
            None => true,
        },
        match before.cached()[name].slots()[i].summary {
            MaybeIndexSummary::Parsed(s) => s == summary,
            MaybeIndexSummary::Unparsed { start, end } => forall|
                line: &[u8],
                r: Result<IndexSummary, E>,
            |
                line@ == before.cached()[name].raw_data().subrange(start as int, end as int)
                    && #[trigger] call_ensures(parse, (line,), r) ==> r == Ok::<IndexSummary, E>(
                    summary,
                ),
        },
        summary.summary.uses_namespaced_features ==> before.config().namespaced_features,
        summary.summary.uses_weak_dep_features ==> before.config().weak_dep_features,
    ensures
        after.cached()[name].slots()[i].summary == MaybeIndexSummary::Parsed(summary),
        candidates_in(after, name, req).contains(summary),
{
    crate::summaries::law_matching_entries_are_parsed(
        parse,
        req,
        before.cached()[name],
        after.cached()[name],
        i,
    );
    if let MaybeIndexSummary::Unparsed { start, end } = before.cached()[name].slots()[i].summary {
        let (line, r) = choose|line: &[u8], r: Result<IndexSummary, E>|
            {
                &&& line@ == before.cached()[name].raw_data().subrange(start as int, end as int)
                &&& #[trigger] call_ensures(parse, (line,), r)
                &&& after.cached()[name].slots()[i].summary == match r {
                    Ok(s) => MaybeIndexSummary::Parsed(s),
                    Err(_) => before.cached()[name].slots()[i].summary,
                }
            };
        assert(r == Ok::<IndexSummary, E>(summary));
    }
    let slots = after.cached()[name].slots();
    assert(slots[i].summary == MaybeIndexSummary::Parsed(summary));
    crate::summaries::law_candidates(
        slots,
        req,
        after.config().namespaced_features,
        after.config().weak_dep_features,
        summary,
    );
}

/// Every candidate that comes back is the summary of a version that meets the
/// requirement and uses no unstable feature that is switched off: one that was
/// parsed before, or one that `parse` made of the bytes of an unparsed entry.
pub proof fn law_every_answer_is_a_match<E, F: Fn(&[u8]) -> Result<IndexSummary, E>>(
    parse: F,
    name: Seq<char>,
    req: Option<Seq<char>>,
    before: &RegistryIndex,
    after: &RegistryIndex,
    summary: IndexSummary,
) -> (i: int)
    requires
        index_parsed(parse, name, req, before, after),
        before.cached().contains_key(name),
        candidates_in(after, name, req).contains(summary),
    ensures
        0 <= i < before.cached()[name].slots().len(),
        match req {
            Some(text) => crate::version::requirement_matches(
                text,
                before.cached()[name].slots()[i].version,
            ),
            None => true,
        },
        match before.cached()[name].slots()[i].summary {
            MaybeIndexSummary::Parsed(s) => s == summary,
            MaybeIndexSummary::Unparsed { start, end } => exists|line: &[u8]|
                line@ == before.cached()[name].raw_data().subrange(start as int, end as int)
                    && #[trigger] call_ensures(parse, (line,), Ok::<IndexSummary, E>(summary)),
        },
        summary.summary.uses_namespaced_features ==> before.config().namespaced_features,
        summary.summary.uses_weak_dep_features ==> before.config().weak_dep_features,
{
    let slots = after.cached()[name].slots();
    crate::summaries::law_candidates(
        slots,
        req,
        after.config().namespaced_features,
        after.config().weak_dep_features,
        summary,
    );
    let i = choose|j: int|
        0 <= j < slots.len() && crate::version::req_matches(req, (#[trigger] slots[j]).version)
            && slots[j].summary == MaybeIndexSummary::Parsed(summary) && summary.summary.is_stable(
            after.config().namespaced_features,
            after.config().weak_dep_features,
        );
    crate::summaries::law_matching_entries_are_parsed(
        parse,
        req,
        before.cached()[name],
        after.cached()[name],
        i,
    );
    i
}

/// The candidates for a requirement on a package, in the order of its versions:
/// the parsed summaries of those that meet the requirement, without those that
/// use an unstable feature that is switched off. The result gives their places.
pub proof fn law_candidates_of_the_package(
    index: &RegistryIndex,
    name: Seq<char>,
    req: Option<Seq<char>>,
) -> (places: Seq<int>)
    ensures
        ({
            let slots = index.cached()[name].slots();
            let list = candidates_in(index, name, req);
            &&& list.len() == places.len()
            &&& forall|i: int|
                0 <= i < places.len() ==> 0 <= #[trigger] places[i] < slots.len()
                    && slots[places[i]].summary == MaybeIndexSummary::Parsed(list[i])
            &&& forall|i: int, j: int| 0 <= i < j < places.len() ==> places[i] < places[j]
            &&& forall|j: int|
                0 <= j < slots.len() ==> (#[trigger] places.contains(j) <==> {
                    &&& crate::version::req_matches(req, slots[j].version)
                    &&& slots[j].summary matches MaybeIndexSummary::Parsed(s) && {
                        &&& s.summary.uses_namespaced_features
                            ==> index.config().namespaced_features
                        &&& s.summary.uses_weak_dep_features ==> index.config().weak_dep_features
                    }
                })
        }),
{
    crate::summaries::law_candidates_in_order(
        index.cached()[name].slots(),
        req,
        index.config().namespaced_features,
        index.config().weak_dep_features,
    )
}

/// The hash and the yanked flag of a package come from the entry of its version,
/// once that is parsed: there is a hash if that entry is there, is no unstable
/// one and lists one, and the package is yanked if that entry says so. Without
/// such an entry there is no hash, and nothing is yanked.
pub proof fn law_hash_and_yanked(
    index: &RegistryIndex,
    name: Seq<char>,
    version: crate::version::VersionView,
)
    requires
        index.wf(),
        index.cached().contains_key(name),
        crate::version::is_exact(Some(crate::version::exact_text(version)), version),
    ensures
        ({
            let slots = index.cached()[name].slots();
            let found = candidates_in(index, name, Some(crate::version::exact_text(version)));
            &&& has_yanked(found) <==> exists|i: int|
                {
                    &&& 0 <= i < slots.len()
                    &&& (#[trigger] slots[i]).version.key() == version.key()
                    &&& slots[i].summary matches MaybeIndexSummary::Parsed(s) && {
                        &&& s.summary.uses_namespaced_features
                            ==> index.config().namespaced_features
                        &&& s.summary.uses_weak_dep_features ==> index.config().weak_dep_features
                        &&& s.yanked
                    }
                }
            &&& forall|hash: Seq<char>| #[trigger] listed_hash(found) == Some(hash) <==> exists|
                i: int,
            |
                {
                    &&& 0 <= i < slots.len()
                    &&& (#[trigger] slots[i]).version.key() == version.key()
                    &&& slots[i].summary matches MaybeIndexSummary::Parsed(s) && {
                        &&& s.summary.uses_namespaced_features
                            ==> index.config().namespaced_features
                        &&& s.summary.uses_weak_dep_features ==> index.config().weak_dep_features
                        &&& s.summary.checksum matches Some(text) && text@ == hash
                    }
                }
        }),
{
    let req = Some(crate::version::exact_text(version));
    let slots = index.cached()[name].slots();
    let found = candidates_in(index, name, req);
    let places = law_candidates_of_the_package(index, name, req);
    lemma_cached_wf(index, name);
    crate::summaries::law_one_exact_candidate(
        slots,
        req,
        version,
        index.config().namespaced_features,
        index.config().weak_dep_features,
    );
    assert forall|i: int|
        0 <= i < slots.len() && (#[trigger] slots[i]).version.key() == version.key()
            && places.contains(i) implies found == seq![slots[i].summary->Parsed_0] by {
        assert(crate::summaries::is_candidate(
            slots[i],
            req,
            index.config().namespaced_features,
            index.config().weak_dep_features,
        ));
    }
    if found.len() > 0 {
        let i = places[0];
        assert(places.contains(i));
        assert(crate::version::req_matches(req, slots[i].version));
        assert(slots[i].version.key() == version.key());
        assert(slots[i].summary == MaybeIndexSummary::Parsed(found[0]));
        assert(found =~= seq![found[0]]);
    }
    assert forall|i: int|
        0 <= i < slots.len() && (#[trigger] slots[i]).version.key() == version.key() && (
        slots[i].summary matches MaybeIndexSummary::Parsed(s) && {
            &&& s.summary.uses_namespaced_features ==> index.config().namespaced_features
            &&& s.summary.uses_weak_dep_features ==> index.config().weak_dep_features
        }) implies found.len() == 1 && slots[i].summary == MaybeIndexSummary::Parsed(found[0]) by {
        assert(crate::version::req_matches(req, slots[i].version));
        assert(places.contains(i));
    }
}

/// The loaded summaries of an index are well-formed.
proof fn lemma_cached_wf(index: &RegistryIndex, name: Seq<char>)
    requires
        index.wf(),
        index.cached().contains_key(name),
    ensures
        index.cached()[name].wf(),
{
    let cache = index.summaries_cache@;
    let i = choose|i: int| is_named(cache, name, i);
    assert(cache[i].summaries.wf());
}

/// What a query answers, said of the versions of the package one by one.
///
/// A version is offered if it meets the requirement, its summary is parsed and
/// uses no unstable feature that is switched off, it is not yanked or some place
/// of the whitelist holds the same package, it has the version that the registry
/// is pinned to, if it is, and it is at hand. Online everything is at hand.
/// Offline it is what was downloaded, if that leaves anything to offer or an
/// error. Otherwise, when nothing that could be offered was downloaded,
/// everything is at hand again. Each version is offered once and in order.
///
/// The result says whether only downloads were at hand, which versions were at
/// hand, and the places of those that are offered.
pub proof fn law_every_version<D: Fn(&PackageId) -> bool>(
    index: &RegistryIndex,
    dep: &Dependency,
    whitelist: Seq<PackageId>,
    is_downloaded: D,
    answer: Result<Seq<Summary>, PreciseError>,
) -> (r: (bool, Seq<bool>, Seq<int>))
    requires
        index.cached().contains_key(dep.name@),
        answers_query(index, dep, whitelist, is_downloaded, answer),
    ensures
        ({
            let slots = index.cached()[dep.name@].slots();
            let target = target_for(index, dep);
            let (asked, at_hand, places) = r;
            &&& at_hand.len() == slots.len()
            &&& !index.config().offline ==> !asked
            &&& !asked ==> forall|j: int| 0 <= j < slots.len() ==> #[trigger] at_hand[j]
            &&& asked ==> {
                &&& answer != Ok::<Seq<Summary>, PreciseError>(Seq::empty())
                &&& forall|j: int|
                    #![trigger at_hand[j]]
                    0 <= j < slots.len() ==> {
                        &&& crate::version::req_matches(dep.req@, slots[j].version)
                        &&& slots[j].summary matches MaybeIndexSummary::Parsed(s) && {
                            &&& s.summary.uses_namespaced_features ==> index.config().namespaced_features
                            &&& s.summary.uses_weak_dep_features ==> index.config().weak_dep_features
                            &&& s.yanked ==> exists|k: int|
                                {
                                    &&& 0 <= k < whitelist.len()
                                    &&& (#[trigger] whitelist[k]).name@ == s.summary.package_id.name@
                                    &&& whitelist[k].version@.key() == s.summary.package_id.version@.key()
                                    &&& whitelist[k].source_id.id == s.summary.package_id.source_id.id
                                }
                            &&& target matches Ok(Some(text)) ==> crate::version::version_text(
                                s.summary.package_id.version@,
                            ) == text
                        }
                    } ==> call_ensures(
                        is_downloaded,
                        (&slots[j].summary->Parsed_0.summary.package_id,),
                        at_hand[j],
                    )
            }
            &&& index.config().offline && !asked ==> forall|j: int|
                #![trigger slots[j]]
                0 <= j < slots.len() ==> {
                    &&& crate::version::req_matches(dep.req@, slots[j].version)
                    &&& slots[j].summary matches MaybeIndexSummary::Parsed(s) && {
                        &&& s.summary.uses_namespaced_features ==> index.config().namespaced_features
                        &&& s.summary.uses_weak_dep_features ==> index.config().weak_dep_features
                        &&& s.yanked ==> exists|k: int|
                            {
                                &&& 0 <= k < whitelist.len()
                                &&& (#[trigger] whitelist[k]).name@ == s.summary.package_id.name@
                                &&& whitelist[k].version@.key() == s.summary.package_id.version@.key()
                                &&& whitelist[k].source_id.id == s.summary.package_id.source_id.id
                            }
                        &&& target matches Ok(Some(text)) ==> crate::version::version_text(
                            s.summary.package_id.version@,
                        ) == text
                    }
                } ==> call_ensures(
                    is_downloaded,
                    (&slots[j].summary->Parsed_0.summary.package_id,),
                    false,
                )
            &&& forall|j: int|
                0 <= j < slots.len() ==> (#[trigger] places.contains(j) <==> at_hand[j] && {
                    &&& crate::version::req_matches(dep.req@, slots[j].version)
                    &&& slots[j].summary matches MaybeIndexSummary::Parsed(s) && {
                        &&& s.summary.uses_namespaced_features ==> index.config().namespaced_features
                        &&& s.summary.uses_weak_dep_features ==> index.config().weak_dep_features
                        &&& s.yanked ==> exists|k: int|
                            {
                                &&& 0 <= k < whitelist.len()
                                &&& (#[trigger] whitelist[k]).name@ == s.summary.package_id.name@
                                &&& whitelist[k].version@.key() == s.summary.package_id.version@.key()
                                &&& whitelist[k].source_id.id == s.summary.package_id.source_id.id
                            }
                        &&& target matches Ok(Some(text)) ==> crate::version::version_text(
                            s.summary.package_id.version@,
                        ) == text
                    }
                })
            &&& forall|i: int|
                0 <= i < places.len() ==> 0 <= #[trigger] places[i] < slots.len()
            &&& forall|i: int, j: int| 0 <= i < j < places.len() ==> places[i] < places[j]
            &&& answer matches Ok(list) ==> {
                &&& target is Err ==> places.len() == 0
                &&& list.len() == places.len()
                &&& forall|i: int|
                    0 <= i < list.len() ==> #[trigger] list[i]
                        == slots[places[i]].summary->Parsed_0.summary
            }
            &&& answer matches Err(e) ==> {
                &&& target == Err::<Option<Seq<char>>, PreciseError>(e)
                &&& places.len() > 0
            }
        }),
{
    let slots = index.cached()[dep.name@].slots();
    let found = candidates_in(index, dep.name@, dep.req@);
    let target = target_for(index, dep);
    let nothing = Ok::<Seq<Summary>, PreciseError>(Seq::empty());
    let origin = law_candidates_of_the_package(index, dep.name@, dep.req@);
    let asked = index.config().offline && crate::query::is_answer(
        Some(&is_downloaded),
        found,
        whitelist,
        target,
        answer,
    ) && answer != nothing;
    let (here, picked) = if asked {
        crate::query::law_every_candidate(Some(&is_downloaded), found, whitelist, target, answer)
    } else {
        crate::query::law_every_candidate(None::<&D>, found, whitelist, target, answer)
    };
    let at_hand = Seq::new(
        slots.len(),
        |j: int| !asked || here[choose|i: int| 0 <= i < origin.len() && origin[i] == j],
    );
    let places = Seq::new(picked.len(), |i: int| origin[picked[i]]);
    assert forall|i: int, j: int| 0 <= i < j < places.len() implies places[i] < places[j] by {
        assert(picked[i] < picked[j]);
        assert(0 <= picked[i]);
        assert(picked[j] < found.len());
        assert(origin[picked[i]] < origin[picked[j]]);
    }
    assert forall|i: int| 0 <= i < found.len() implies at_hand[#[trigger] origin[i]] == here[i] by {
        if asked {
            let k = choose|k: int| 0 <= k < origin.len() && origin[k] == origin[i];
            if k < i {
                assert(origin[k] < origin[i]);
            } else if i < k {
                assert(origin[i] < origin[k]);
            }
        }
    }
    assert forall|j: int| 0 <= j < slots.len() && #[trigger] origin.contains(j) implies (
    places.contains(j) <==> at_hand[j] && {
        &&& crate::version::req_matches(dep.req@, slots[j].version)
        &&& slots[j].summary matches MaybeIndexSummary::Parsed(s) && {
            &&& s.summary.uses_namespaced_features ==> index.config().namespaced_features
            &&& s.summary.uses_weak_dep_features ==> index.config().weak_dep_features
            &&& s.yanked ==> exists|k: int|
                {
                    &&& 0 <= k < whitelist.len()
                    &&& (#[trigger] whitelist[k]).name@ == s.summary.package_id.name@
                    &&& whitelist[k].version@.key() == s.summary.package_id.version@.key()
                    &&& whitelist[k].source_id.id == s.summary.package_id.source_id.id
                }
            &&& target matches Ok(Some(text)) ==> crate::version::version_text(
                s.summary.package_id.version@,
            ) == text
        }
    }) by {
        let i = choose|i: int| 0 <= i < origin.len() && origin[i] == j;
        lemma_same_key(found[i].summary.package_id, whitelist);
        assert(picked.contains(i) <==> places.contains(j)) by {
            if picked.contains(i) {
                let k = choose|k: int| 0 <= k < picked.len() && picked[k] == i;
                assert(places[k] == j);
            }
            if places.contains(j) {
                let k = choose|k: int| 0 <= k < places.len() && places[k] == j;
                let m = picked[k];
                assert(0 <= m < found.len());
                if m < i {
                    assert(origin[m] < origin[i]);
                } else if i < m {
                    assert(origin[i] < origin[m]);
                }
            }
        }
    }
    assert forall|i: int| 0 <= i < places.len() implies 0 <= #[trigger] places[i] < slots.len()
        && origin.contains(places[i]) by {
        assert(0 <= picked[i] < found.len());
        assert(origin.contains(origin[picked[i]]));
    }
    assert forall|j: int| 0 <= j < slots.len() && !#[trigger] origin.contains(
        j,
    ) implies !places.contains(j) by {
        if places.contains(j) {
            let k = choose|k: int| 0 <= k < places.len() && places[k] == j;
            assert(origin.contains(places[k]));
        }
    }
    assert forall|j: int|
        0 <= j < slots.len() implies (#[trigger] places.contains(j) <==> at_hand[j] && {
        &&& crate::version::req_matches(dep.req@, slots[j].version)
        &&& slots[j].summary matches MaybeIndexSummary::Parsed(s) && {
            &&& s.summary.uses_namespaced_features ==> index.config().namespaced_features
            &&& s.summary.uses_weak_dep_features ==> index.config().weak_dep_features
            &&& s.yanked ==> exists|k: int|
                {
                    &&& 0 <= k < whitelist.len()
                    &&& (#[trigger] whitelist[k]).name@ == s.summary.package_id.name@
                    &&& whitelist[k].version@.key() == s.summary.package_id.version@.key()
                    &&& whitelist[k].source_id.id == s.summary.package_id.source_id.id
                }
            &&& target matches Ok(Some(text)) ==> crate::version::version_text(
                s.summary.package_id.version@,
            ) == text
        }
    }) by {
        if !origin.contains(j) {
            assert(!places.contains(j));
        }
    }
    if asked {
        assert forall|j: int|
            #![trigger at_hand[j]]
            0 <= j < slots.len() && {
                &&& crate::version::req_matches(dep.req@, slots[j].version)
                &&& slots[j].summary matches MaybeIndexSummary::Parsed(s) && {
                    &&& s.summary.uses_namespaced_features ==> index.config().namespaced_features
                    &&& s.summary.uses_weak_dep_features ==> index.config().weak_dep_features
                    &&& s.yanked ==> exists|k: int|
                        {
                            &&& 0 <= k < whitelist.len()
                            &&& (#[trigger] whitelist[k]).name@ == s.summary.package_id.name@
                            &&& whitelist[k].version@.key() == s.summary.package_id.version@.key()
                            &&& whitelist[k].source_id.id == s.summary.package_id.source_id.id
                        }
                    &&& target matches Ok(Some(text)) ==> crate::version::version_text(
                        s.summary.package_id.version@,
                    ) == text
                }
            } implies call_ensures(
            is_downloaded,
            (&slots[j].summary->Parsed_0.summary.package_id,),
            at_hand[j],
        ) by {
            assert(origin.contains(j));
            let i = choose|i: int| 0 <= i < origin.len() && origin[i] == j;
            assert(at_hand[origin[i]] == here[i]);
            assert(slots[j].summary == MaybeIndexSummary::Parsed(found[i]));
        }
    } else if index.config().offline {
        let (none, few) = crate::query::law_every_candidate(
            Some(&is_downloaded),
            found,
            whitelist,
            target,
            nothing,
        );
        assert forall|j: int|
            #![trigger slots[j]]
            0 <= j < slots.len() && {
                &&& crate::version::req_matches(dep.req@, slots[j].version)
                &&& slots[j].summary matches MaybeIndexSummary::Parsed(s) && {
                    &&& s.summary.uses_namespaced_features ==> index.config().namespaced_features
                    &&& s.summary.uses_weak_dep_features ==> index.config().weak_dep_features
                    &&& s.yanked ==> exists|k: int|
                        {
                            &&& 0 <= k < whitelist.len()
                            &&& (#[trigger] whitelist[k]).name@ == s.summary.package_id.name@
                            &&& whitelist[k].version@.key() == s.summary.package_id.version@.key()
                            &&& whitelist[k].source_id.id == s.summary.package_id.source_id.id
                        }
                    &&& target matches Ok(Some(text)) ==> crate::version::version_text(
                        s.summary.package_id.version@,
                    ) == text
                }
            } implies call_ensures(
            is_downloaded,
            (&slots[j].summary->Parsed_0.summary.package_id,),
            false,
        ) by {
            assert(origin.contains(j));
            let i = choose|i: int| 0 <= i < origin.len() && origin[i] == j;
            assert(slots[j].summary == MaybeIndexSummary::Parsed(found[i]));
            lemma_same_key(found[i].summary.package_id, whitelist);
            assert(!few.contains(i));
            assert(!none[i]);
        }
    }
    if let Ok(list) = answer {
        assert forall|i: int| 0 <= i < list.len() implies #[trigger] list[i]
            == slots[places[i]].summary->Parsed_0.summary by {
            assert(0 <= picked[i] < found.len());
            assert(slots[origin[picked[i]]].summary == MaybeIndexSummary::Parsed(
                found[picked[i]],
            ));
        }
    }
    (asked, at_hand, places)
}

/// The key of a version stands for its numbers and its pre-release.
proof fn lemma_same_key(package: PackageId, whitelist: Seq<PackageId>)
    ensures
        (exists|k: int|
            {
                &&& 0 <= k < whitelist.len()
                &&& (#[trigger] whitelist[k]).name@ == package.name@
                &&& whitelist[k].version@.major == package.version@.major
                &&& whitelist[k].version@.minor == package.version@.minor
                &&& whitelist[k].version@.patch == package.version@.patch
                &&& whitelist[k].version@.pre == package.version@.pre
                &&& whitelist[k].source_id.id == package.source_id.id
            }) <==> (exists|k: int|
            {
                &&& 0 <= k < whitelist.len()
                &&& (#[trigger] whitelist[k]).name@ == package.name@
                &&& whitelist[k].version@.key() == package.version@.key()
                &&& whitelist[k].source_id.id == package.source_id.id
            }),
{
}

/// What a pin of the registry asks of a dependency: nothing without one, nothing
/// of a package that it does not name, and what it says of the package that it
/// names, errors included.
pub proof fn law_target(index: &RegistryIndex, dep: &Dependency, from: Seq<char>, to: Seq<char>)
    ensures
        index.source_id().precise is None ==> target_for(index, dep) == Ok::<
            Option<Seq<char>>,
            PreciseError,
        >(None),
        index.source_id().precise matches Some(p) ==> {
            &&& target_for(index, dep) == crate::precise::precise_target(
                Some(p@),
                dep.name@,
                dep.req@,
            )
            &&& !(dep.name@ + seq!['=']).is_prefix_of(p@) ==> target_for(index, dep) == Ok::<
                Option<Seq<char>>,
                PreciseError,
            >(None)
            &&& p@ == dep.name@ + seq!['='] + (from + seq!['-', '>'] + to) ==> (
            crate::version::version_parse(from) matches Ok(old) ==> target_for(index, dep) == Ok::<
                Option<Seq<char>>,
                PreciseError,
            >(
                if crate::version::req_matches(dep.req@, old) {
                    Some(to)
                } else {
                    None
                },
            ))
        },
{
    if let Some(p) = index.source_id().precise {
        if p@ == dep.name@ + seq!['='] + (from + seq!['-', '>'] + to) {
            if crate::version::version_parse(from) is Ok {
                crate::precise::law_precise_request(dep.name@, from, to, dep.req@);
            }
        }
        if !(dep.name@ + seq!['=']).is_prefix_of(p@) {
            crate::precise::law_precise_of_another_name(p@, dep.name@, dep.req@);
        }
    }
}

/// How long a search goes on: until as many spellings were tried as the hyphens
/// and underscores of the path allow, which is two for each of them, multiplied,
/// or until 1024 were.
pub proof fn law_search_ends(search: &SummariesSearch<'_>)
    requires
        crate::spelling::separators(search.path()) <= u32::MAX,
    ensures
        search.is_over() <==> search.tried() >= 1024 || search.tried() >= pow2(
            crate::spelling::separators(search.path()),
        ),
{
    let n = crate::spelling::separators(search.path());
    lemma2_to64();
    crate::spelling::law_number_of_spellings(n);
    if n > 10 {
        lemma_pow2_strictly_increases(10, n);
    }
}

/// Hyphens and underscores are interchangeable: with no more than ten of them in
/// a path, every way of writing it that differs in these only is tried before
/// the search is over. The result says as which one.
pub proof fn law_every_spelling_is_tried(
    search: &SummariesSearch<'_>,
    other: Seq<char>,
) -> (k: u16)
    requires
        crate::spelling::separators(search.path()) <= 10,
        other.len() == search.path().len(),
        forall|i: int|
            0 <= i < other.len() ==> {
                ||| #[trigger] other[i] == search.path()[i]
                ||| other[i] == '-' && search.path()[i] == '_'
                ||| other[i] == '_' && search.path()[i] == '-'
            },
    ensures
        crate::spelling::spelling(search.path(), k) == other,
        search.tried() <= k ==> !search.is_over(),
{
    let text = search.path();
    let n = crate::spelling::separators(text);
    assert(crate::spelling::canonical(other) =~= crate::spelling::canonical(text));
    let k = crate::spelling::law_every_spelling(text, other);
    crate::spelling::law_number_of_spellings(n);
    lemma2_to64();
    if n < 10 {
        lemma_pow2_strictly_increases(n, 10);
    }
    k
}

} // verus!
