//! Packages, their dependencies and their summaries, as the index sees them.

use crate::text::same_text;
use crate::version::{Version, VersionReq, VersionView};
use vstd::prelude::*;

verus! {

/// A place that packages come from.
#[derive(Debug)]
pub struct SourceId {
    /// The number of the source; two sources are the same if it is.
    pub id: u64,
    /// What the source is pinned to, if it is. A request to move one package to
    /// one version has the form `<name>=<old version>-><new version>`.
    pub precise: Option<String>,
}

impl Clone for SourceId {
    fn clone(&self) -> (r: Self)
        ensures
            r == *self,
    {
        let precise = match &self.precise {
            Some(p) => Some(p.clone()),
            None => None,
        };
        SourceId { id: self.id, precise }
    }
}

/// A package: a name, a version and where it comes from.
#[derive(Debug)]
pub struct PackageId {
    pub name: String,
    pub version: Version,
    pub source_id: SourceId,
}

/// What tells packages apart.
pub struct PackageKey {
    pub name: Seq<char>,
    pub version: (u64, u64, u64, Seq<crate::version::IdentifierView>),
    pub source: u64,
}

impl PackageId {
    pub open spec fn key(&self) -> PackageKey {
        PackageKey {
            name: self.name@,
            version: self.version@.key(),
            source: self.source_id.id,
        }
    }

    /// Whether two packages are the same, build metadata of the version aside.
    pub fn same(&self, other: &PackageId) -> (r: bool)
        ensures
            r == (self.key() == other.key()),
    {
        self.source_id.id == other.source_id.id && same_text(&self.name, &other.name)
            && self.version.same(&other.version)
    }
}

/// Whether some package of a list is the same as the given one.
pub open spec fn listed(list: Seq<PackageId>, key: PackageKey) -> bool {
    exists|i: int| 0 <= i < list.len() && (#[trigger] list[i]).key() == key
}

/// Looks a package up in a list.
pub fn contains_package(list: &Vec<PackageId>, package: &PackageId) -> (r: bool)
    ensures
        r == listed(list@, package.key()),
{
    assert(list@.take(list@.len() as int) =~= list@);
    contains_before(list, list.len(), package)
}

/// Looks a package up among the first ones of a list.
pub fn contains_before(list: &Vec<PackageId>, upto: usize, package: &PackageId) -> (r: bool)
    requires
        upto <= list@.len(),
    ensures
        r == listed(list@.take(upto as int), package.key()),
{
    let mut i: usize = 0;
    while i < upto
        invariant
            i <= upto <= list@.len(),
            forall|j: int| 0 <= j < i ==> (#[trigger] list@[j]).key() != package.key(),
        decreases upto - i,
    {
        if list[i].same(package) {
            assert(list@.take(upto as int)[i as int].key() == package.key());
            return true;
        }
        i += 1;
    }
    false
}

/// What a package asks for.
#[derive(Debug)]
pub struct Dependency {
    pub name: String,
    pub req: VersionReq,
    pub source_id: SourceId,
    /// Whether those who depend on the package need it too, which they do not
    /// for a development dependency.
    pub is_transitive: bool,
}

/// What is known of one version of a package.
#[derive(Debug)]
pub struct Summary {
    pub package_id: PackageId,
    pub dependencies: Vec<Dependency>,
    pub checksum: Option<String>,
    /// Whether its features are written in a way that namespaced features allow.
    pub uses_namespaced_features: bool,
    /// Whether its features are written in a way that weak dependency features
    /// allow.
    pub uses_weak_dep_features: bool,
}

impl Summary {
    /// Whether every unstable feature that the summary uses is switched on.
    pub open spec fn is_stable(&self, namespaced_features: bool, weak_dep_features: bool) -> bool {
        &&& self.uses_namespaced_features ==> namespaced_features
        &&& self.uses_weak_dep_features ==> weak_dep_features
    }

    pub fn unstable_gate(&self, namespaced_features: bool, weak_dep_features: bool) -> (r: bool)
        ensures
            r == self.is_stable(namespaced_features, weak_dep_features),
    {
        (namespaced_features || !self.uses_namespaced_features) && (weak_dep_features
            || !self.uses_weak_dep_features)
    }
}

/// A parsed summary from the index.
///
/// In addition to the [`Summary`] it tells whether the version is `yanked`.
#[derive(Debug)]
pub struct IndexSummary {
    pub summary: Summary,
    pub yanked: bool,
}

/// One line of an index file, taken apart. How dependencies and features are
/// written does not matter here.
pub struct RegistryPackage<D, M> {
    pub name: String,
    pub vers: String,
    pub cksum: String,
    pub deps: Vec<D>,
    pub features: M,
    pub yanked: Option<bool>,
    pub links: Option<String>,
}

/// Why a line of an index file gives no summary.
#[derive(Debug)]
pub enum LineError<E> {
    /// The version cannot be read; this is what the reader says.
    Version(String),
    /// A dependency is not sound.
    Dependency(E),
    /// The package as a whole is not sound.
    Summary(E),
}

/// Whether `into_dep` may have made `made` out of the first dependencies of a
/// line: all of them, or those up to the first that it refused.
pub open spec fn made_dependencies<D, E, I: Fn(&D, &SourceId) -> Result<Dependency, E>>(
    deps: Seq<D>,
    source_id: SourceId,
    into_dep: I,
    made: Seq<Result<Dependency, E>>,
) -> bool {
    &&& made.len() <= deps.len()
    &&& forall|j: int|
        0 <= j < made.len() ==> call_ensures(
            into_dep,
            (&deps[j], &source_id),
            #[trigger] made[j],
        )
    &&& forall|j: int| 0 <= j < made.len() - 1 ==> (#[trigger] made[j]) is Ok
    &&& made.len() < deps.len() ==> made.len() > 0 && made.last() is Err
}

/// What becomes of a line, given what the version reader said, what became of
/// its dependencies and, once all of these are there, of the summary.
pub open spec fn line_outcome<D, M, E>(
    package: RegistryPackage<D, M>,
    made: Seq<Result<Dependency, E>>,
    summary: Result<Summary, E>,
    r: Result<IndexSummary, LineError<E>>,
) -> bool {
    match crate::version::version_parse(package.vers@) {
        Err(message) => r matches Err(LineError::Version(m)) && m@ == message,
        Ok(_) => if made.len() > 0 && made.last() is Err {
            r == Err::<IndexSummary, LineError<E>>(LineError::Dependency(made.last()->Err_0))
        } else {
            match summary {
                Err(e) => r == Err::<IndexSummary, LineError<E>>(LineError::Summary(e)),
                Ok(s) => {
                    &&& r is Ok
                    &&& r->Ok_0.summary == Summary { checksum: Some(package.cksum), ..s }
                    &&& r->Ok_0.yanked == (package.yanked == Some(true))
                },
            }
        },
    }
}

/// Whether `new_summary` may have made `summary` out of the parts of a line.
pub open spec fn made_summary<
    D,
    M,
    E,
    N: Fn(PackageId, Vec<Dependency>, &M, Option<String>) -> Result<Summary, E>,
>(
    package: RegistryPackage<D, M>,
    version: VersionView,
    source_id: SourceId,
    made: Seq<Result<Dependency, E>>,
    new_summary: N,
    summary: Result<Summary, E>,
) -> bool {
    exists|id: PackageId, deps: Vec<Dependency>|
        {
            &&& id.name == package.name
            &&& id.version@ == version
            &&& id.source_id == source_id
            &&& deps@.len() == made.len()
            &&& forall|j: int|
                0 <= j < made.len() ==> made[j] == Ok::<Dependency, E>(#[trigger] deps@[j])
            &&& #[trigger] call_ensures(
                new_summary,
                (id, deps, &package.features, package.links),
                summary,
            )
        }
}

impl IndexSummary {
    /// Makes a summary out of a line of the registry's index file.
    ///
    /// The dependencies are made first, by `into_dep`, in the order of the
    /// line; the first that is refused decides. `new_summary` then makes the
    /// summary, which gets the checksum of the line. A version that does not
    /// say whether it is yanked is not.
    pub fn parse<D, M, E, I, N>(
        package: RegistryPackage<D, M>,
        source_id: &SourceId,
        into_dep: &I,
        new_summary: &N,
    ) -> (r: Result<IndexSummary, LineError<E>>) where
        I: Fn(&D, &SourceId) -> Result<Dependency, E>,
        N: Fn(PackageId, Vec<Dependency>, &M, Option<String>) -> Result<Summary, E>,

        requires
            forall|d: &D, s: &SourceId| call_requires(*into_dep, (d, s)),
            forall|id: PackageId, deps: Vec<Dependency>, m: &M, links: Option<String>|
                call_requires(*new_summary, (id, deps, m, links)),
        ensures
            exists|made: Seq<Result<Dependency, E>>, summary: Result<Summary, E>|
                {
                    &&& #[trigger] line_outcome(package, made, summary, r)
                    &&& crate::version::version_parse(package.vers@) matches Ok(version) ==> {
                        &&& made_dependencies(package.deps@, *source_id, *into_dep, made)
                        &&& (made.len() > 0 && made.last() is Err) || made_summary(
                            package,
                            version,
                            *source_id,
                            made,
                            *new_summary,
                            summary,
                        )
                    }
                },
            r is Err || r->Ok_0.summary.checksum == Some(package.cksum),
            r is Err || r->Ok_0.yanked == (package.yanked == Some(true)),
            r matches Err(LineError::Version(_)) <==> crate::version::version_parse(
                package.vers@,
            ) is Err,
    {
        let ghost given = package;
        let ghost mut made: Seq<Result<Dependency, E>> = Seq::empty();
        let ghost nothing: Result<Summary, E> = arbitrary();
        let version = match Version::parse(&package.vers) {
            Ok(version) => version,
            Err(message) => {
                let r = Err(LineError::Version(message));
                assert(line_outcome(given, made, nothing, r));
                return r;
            },
        };
        let mut deps: Vec<Dependency> = Vec::new();
        let mut i: usize = 0;
        while i < package.deps.len()
            invariant
                package == given,
                i <= package.deps@.len(),
                made.len() == i,
                deps@.len() == i,
                crate::version::version_parse(given.vers@) is Ok,
                forall|j: int|
                    0 <= j < i ==> call_ensures(
                        *into_dep,
                        (&given.deps@[j], source_id),
                        #[trigger] made[j],
                    ),
                forall|j: int| 0 <= j < i ==> made[j] == Ok::<Dependency, E>(#[trigger] deps@[j]),
                forall|j: int| 0 <= j < i ==> (#[trigger] made[j]) is Ok,
                forall|d: &D, s: &SourceId| call_requires(*into_dep, (d, s)),
            decreases package.deps@.len() - i,
        {
            match into_dep(&package.deps[i], source_id) {
                Ok(dep) => {
                    proof {
                        made = made.push(Ok::<Dependency, E>(dep));
                    }
                    deps.push(dep);
                },
                Err(e) => {
                    proof {
                        made = made.push(Err::<Dependency, E>(e));
                    }
                    let r = Err(LineError::Dependency(e));
                    assert(line_outcome(given, made, nothing, r));
                    return r;
                },
            }
            i += 1;
        }
        let RegistryPackage { name, vers: _, cksum, deps: _, features, yanked, links } = package;
        let id = PackageId { name, version, source_id: source_id.clone() };
        let made_it = new_summary(id, deps, &features, links);
        let ghost outcome = made_it;
        match made_it {
            Ok(mut summary) => {
                summary.checksum = Some(cksum);
                let r = Ok(IndexSummary {
                    summary,
                    yanked: match yanked {
                        Some(y) => y,
                        None => false,
                    },
                });
                assert(line_outcome(given, made, outcome, r));
                r
            },
            Err(e) => {
                let r = Err(LineError::Summary(e));
                assert(line_outcome(given, made, outcome, r));
                r
            },
        }
    }
}

/// Packages are told apart by name, by the numbers and the pre-release of the
/// version, and by source.
pub proof fn law_packages_are_told_apart(a: &PackageId, b: &PackageId)
    ensures
        a.key() == b.key() <==> {
            &&& a.name@ == b.name@
            &&& a.version@.major == b.version@.major
            &&& a.version@.minor == b.version@.minor
            &&& a.version@.patch == b.version@.patch
            &&& a.version@.pre == b.version@.pre
            &&& a.source_id.id == b.source_id.id
        },
{
}

/// A package is in a list if one stands there, at whatever place, that has the
/// same name, the same version, build metadata aside, and the same source.
pub proof fn law_listed(list: Seq<PackageId>, package: &PackageId)
    ensures
        listed(list, package.key()) <==> exists|k: int|
            {
                &&& 0 <= k < list.len()
                &&& (#[trigger] list[k]).name@ == package.name@
                &&& list[k].version@.major == package.version@.major
                &&& list[k].version@.minor == package.version@.minor
                &&& list[k].version@.patch == package.version@.patch
                &&& list[k].version@.pre == package.version@.pre
                &&& list[k].source_id.id == package.source_id.id
            },
{
    if listed(list, package.key()) {
        let k = choose|k: int| 0 <= k < list.len() && (#[trigger] list[k]).key() == package.key();
        law_packages_are_told_apart(&list[k], package);
    }
}

/// What stands in front of a list or behind it takes nothing away.
pub proof fn law_listed_in_parts(front: Seq<PackageId>, back: Seq<PackageId>, key: PackageKey)
    ensures
        listed(front + back, key) <==> listed(front, key) || listed(back, key),
{
    let list = front + back;
    if listed(front, key) {
        let k = choose|k: int| 0 <= k < front.len() && (#[trigger] front[k]).key() == key;
        assert(list[k] == front[k]);
    }
    if listed(back, key) {
        let k = choose|k: int| 0 <= k < back.len() && (#[trigger] back[k]).key() == key;
        assert(list[front.len() + k] == back[k]);
    }
    if listed(list, key) {
        let k = choose|k: int| 0 <= k < list.len() && (#[trigger] list[k]).key() == key;
        if k < front.len() {
            assert(front[k] == list[k]);
        } else {
            assert(back[k - front.len()] == list[k]);
        }
    }
}

/// A summary is stable if it uses no unstable feature that is switched off.
pub proof fn law_stable(summary: &Summary, namespaced_features: bool, weak_dep_features: bool)
    ensures
        summary.is_stable(true, true),
        summary.is_stable(namespaced_features, weak_dep_features) <==> {
            &&& namespaced_features || !summary.uses_namespaced_features
            &&& weak_dep_features || !summary.uses_weak_dep_features
        },
{
}

/// What parsing a line comes to.
///
/// A version that cannot be read decides, with the message of the reader. Then
/// every dependency is made, in the order of the line, until one is refused,
/// which decides. Then the summary is made, of the name, the version and the
/// source, of all the dependencies, and of the features and links of the line.
/// It gets the checksum of the line, whatever else the line says, and is yanked
/// exactly if the line says so.
pub proof fn law_line<D, M, E, I, N>(
    package: RegistryPackage<D, M>,
    source_id: SourceId,
    into_dep: I,
    new_summary: N,
    made: Seq<Result<Dependency, E>>,
    summary: Result<Summary, E>,
    r: Result<IndexSummary, LineError<E>>,
) where
    I: Fn(&D, &SourceId) -> Result<Dependency, E>,
    N: Fn(PackageId, Vec<Dependency>, &M, Option<String>) -> Result<Summary, E>,

    requires
        line_outcome(package, made, summary, r),
        crate::version::version_parse(package.vers@) matches Ok(version) ==> {
            &&& made_dependencies(package.deps@, source_id, into_dep, made)
            &&& (made.len() > 0 && made.last() is Err) || made_summary(
                package,
                version,
                source_id,
                made,
                new_summary,
                summary,
            )
        },
    ensures
        crate::version::version_parse(package.vers@) matches Err(message) ==> (r matches Err(
            LineError::Version(m),
        ) && m@ == message),
        r matches Err(LineError::Version(_)) ==> crate::version::version_parse(package.vers@) is Err,
        r matches Ok(parsed) ==> {
            &&& parsed.summary.checksum == Some(package.cksum)
            &&& parsed.yanked <==> package.yanked == Some(true)
            &&& exists|id: PackageId, deps: Vec<Dependency>, s: Summary|
                {
                    &&& id.name == package.name
                    &&& crate::version::version_parse(package.vers@) == Ok::<
                        VersionView,
                        Seq<char>,
                    >(id.version@)
                    &&& id.source_id == source_id
                    &&& deps@.len() == package.deps@.len()
                    &&& forall|j: int|
                        0 <= j < deps@.len() ==> call_ensures(
                            into_dep,
                            (&package.deps@[j], &source_id),
                            Ok::<Dependency, E>(#[trigger] deps@[j]),
                        )
                    &&& #[trigger] call_ensures(
                        new_summary,
                        (id, deps, &package.features, package.links),
                        Ok::<Summary, E>(s),
                    )
                    &&& parsed.summary.package_id == s.package_id
                    &&& parsed.summary.dependencies == s.dependencies
                    &&& parsed.summary.uses_namespaced_features == s.uses_namespaced_features
                    &&& parsed.summary.uses_weak_dep_features == s.uses_weak_dep_features
                }
        },
        r matches Err(LineError::Dependency(e)) ==> exists|j: int|
            {
                &&& 0 <= j < package.deps@.len()
                &&& call_ensures(
                    into_dep,
                    (&(#[trigger] package.deps@[j]), &source_id),
                    Err::<Dependency, E>(e),
                )
                &&& forall|i: int|
                    #![trigger package.deps@[i]]
                    0 <= i < j ==> exists|dep: Dependency|
                        call_ensures(
                            into_dep,
                            (&package.deps@[i], &source_id),
                            Ok::<Dependency, E>(dep),
                        )
            },
        r matches Err(LineError::Summary(e)) ==> exists|
            id: PackageId,
            deps: Vec<Dependency>,
            s: Result<Summary, E>,
        |
            {
                &&& id.name == package.name
                &&& crate::version::version_parse(package.vers@) == Ok::<VersionView, Seq<char>>(
                    id.version@,
                )
                &&& id.source_id == source_id
                &&& deps@.len() == package.deps@.len()
                &&& forall|j: int|
                    0 <= j < deps@.len() ==> call_ensures(
                        into_dep,
                        (&package.deps@[j], &source_id),
                        Ok::<Dependency, E>(#[trigger] deps@[j]),
                    )
                &&& #[trigger] call_ensures(
                    new_summary,
                    (id, deps, &package.features, package.links),
                    s,
                )
                &&& s is Err
                &&& s->Err_0 == e
            },
{
    if let Ok(version) = crate::version::version_parse(package.vers@) {
        if made.len() > 0 && made.last() is Err {
            let j = made.len() - 1;
            let e = made.last()->Err_0;
            assert(made[j] == Err::<Dependency, E>(e));
            assert(call_ensures(
                into_dep,
                (&package.deps@[j], &source_id),
                Err::<Dependency, E>(e),
            ));
            assert forall|i: int|
                #![trigger package.deps@[i]]
                0 <= i < j implies exists|dep: Dependency|
                call_ensures(
                    into_dep,
                    (&package.deps@[i], &source_id),
                    Ok::<Dependency, E>(dep),
                ) by {
                assert(made[i] is Ok);
                assert(call_ensures(
                    into_dep,
                    (&package.deps@[i], &source_id),
                    Ok::<Dependency, E>(made[i]->Ok_0),
                ));
            }
            assert(r == Err::<IndexSummary, LineError<E>>(LineError::Dependency(e)));
        } else {
            let (id, deps) = choose|id: PackageId, deps: Vec<Dependency>|
                {
                    &&& id.name == package.name
                    &&& id.version@ == version
                    &&& id.source_id == source_id
                    &&& deps@.len() == made.len()
                    &&& forall|j: int|
                        0 <= j < made.len() ==> made[j] == Ok::<Dependency, E>(#[trigger] deps@[j])
                    &&& #[trigger] call_ensures(
                        new_summary,
                        (id, deps, &package.features, package.links),
                        summary,
                    )
                };
            assert forall|j: int| 0 <= j < deps@.len() implies call_ensures(
                into_dep,
                (&package.deps@[j], &source_id),
                Ok::<Dependency, E>(#[trigger] deps@[j]),
            ) by {
                assert(made[j] == Ok::<Dependency, E>(deps@[j]));
            }
            match summary {
                Ok(s) => {
                    assert(call_ensures(
                        new_summary,
                        (id, deps, &package.features, package.links),
                        Ok::<Summary, E>(s),
                    ));
                },
                Err(e) => {
                    assert(r == Err::<IndexSummary, LineError<E>>(LineError::Summary(e)));
                    assert(call_ensures(
                        new_summary,
                        (id, deps, &package.features, package.links),
                        summary,
                    ));
                },
            }
        }
    }
}

} // verus!
