//! Which files of the index to fetch before they are asked for.
//!
//! For some registries it is expensive to fetch each file on its own, and
//! faster to fetch many of them in advance. So the transitive dependencies are
//! walked, approximately: it does no harm to fetch a bit too much. Packages may
//! depend on each other in circles; what was walked once is therefore kept in
//! mind and not walked again.

use crate::package::{contains_before, Dependency, IndexSummary, PackageId};
use crate::summaries::{MaybeIndexSummary, Summaries};
use crate::text::same_text;
use crate::version::{Version, VersionReq, VersionView};
use vstd::prelude::*;

verus! {

/// A request to fetch the file of a package.
#[derive(Debug)]
pub struct PrefetchRequest {
    pub name: String,
    /// The requirement on the package, unless it is from the lock file.
    pub req: Option<VersionReq>,
    /// Whether no package at the root asks for it.
    pub is_transitive: bool,
}

/// The value of a [`PrefetchRequest`].
pub struct RequestView {
    pub name: Seq<char>,
    pub req: Option<Option<Seq<char>>>,
    pub is_transitive: bool,
}

impl View for PrefetchRequest {
    type V = RequestView;

    open spec fn view(&self) -> RequestView {
        RequestView {
            name: self.name@,
            req: match self.req {
                Some(req) => Some(req@),
                None => None,
            },
            is_transitive: self.is_transitive,
        }
    }
}

/// The values of a list of requests.
pub open spec fn requests_of(list: Seq<PrefetchRequest>) -> Seq<RequestView> {
    Seq::new(list.len(), |i: int| list[i]@)
}

/// A file that was fetched.
#[derive(Debug)]
pub struct Prefetched {
    pub name: String,
    /// The requirements for which it was requested.
    pub version_reqs: Vec<VersionReq>,
    /// Whether no package at the root asked for it.
    pub is_transitive: bool,
}

/// A dependency that was walked.
struct WalkedDependency {
    name: String,
    req: VersionReq,
}

/// The dependencies that were walked so far.
pub struct PrefetchWalk {
    walked: Vec<WalkedDependency>,
}

/// The dependencies that were walked and the requests that were made.
pub struct WalkView {
    pub walked: Seq<(Seq<char>, Option<Seq<char>>)>,
    pub requests: Seq<RequestView>,
}

/// Whether two dependencies are walked together: they are on the same package,
/// with the same requirement.
pub open spec fn is_same_walk(
    a: (Seq<char>, Option<Seq<char>>),
    b: (Seq<char>, Option<Seq<char>>),
) -> bool {
    a.0 == b.0 && crate::version::is_same_req(a.1, b.1)
}

/// Whether a dependency was walked.
pub open spec fn is_walked(
    walked: Seq<(Seq<char>, Option<Seq<char>>)>,
    new: (Seq<char>, Option<Seq<char>>),
) -> bool {
    exists|i: int| 0 <= i < walked.len() && is_same_walk(#[trigger] walked[i], new)
}

/// Whether every dependency on a package whose requirement is the same as the
/// given one was walked.
pub open spec fn covers(
    walked: Seq<(Seq<char>, Option<Seq<char>>)>,
    name: Seq<char>,
    req: Option<Seq<char>>,
) -> bool {
    forall|c: Option<Seq<char>>|
        crate::version::is_requirement(c) && #[trigger] crate::version::is_same_req(req, c)
            ==> is_walked(walked, (name, c))
}

/// Whether this holds of every one of some dependencies.
pub open spec fn all_covered(
    walked: Seq<(Seq<char>, Option<Seq<char>>)>,
    deps: Seq<Dependency>,
) -> bool {
    forall|i: int|
        0 <= i < deps.len() ==> covers(walked, (#[trigger] deps[i]).name@, deps[i].req@)
}

/// Whether a dependency of a fetched package is of interest: it lives in the
/// same source, and it is not a development dependency of a transitive
/// dependency.
pub open spec fn is_eligible(dep: Dependency, source: u64, is_transitive: bool) -> bool {
    &&& dep.source_id.id == source
    &&& is_transitive ==> dep.is_transitive
}

/// Whether a dependency of a fetched package is walked: it lives in the same
/// source, it is not a development dependency of a transitive dependency, and
/// it was not walked before.
pub open spec fn is_new(
    walked: Seq<(Seq<char>, Option<Seq<char>>)>,
    dep: Dependency,
    source: u64,
    is_transitive: bool,
) -> bool {
    &&& is_eligible(dep, source, is_transitive)
    &&& !is_walked(walked, (dep.name@, dep.req@))
}

/// Walks one dependency of a fetched package.
pub open spec fn walk_dependency(
    state: WalkView,
    dep: Dependency,
    source: u64,
    is_transitive: bool,
) -> WalkView {
    if is_new(state.walked, dep, source, is_transitive) {
        WalkView {
            walked: state.walked.push((dep.name@, dep.req@)),
            requests: state.requests.push(
                RequestView { name: dep.name@, req: Some(dep.req@), is_transitive: true },
            ),
        }
    } else {
        state
    }
}

/// Walks the dependencies of one version of a fetched package.
pub open spec fn walk_dependencies(
    state: WalkView,
    deps: Seq<Dependency>,
    source: u64,
    is_transitive: bool,
) -> WalkView
    decreases deps.len(),
{
    if deps.len() == 0 {
        state
    } else {
        walk_dependency(
            walk_dependencies(state, deps.drop_last(), source, is_transitive),
            deps.last(),
            source,
            is_transitive,
        )
    }
}

/// Whether one of the requirements lets a version through.
pub open spec fn is_wanted(reqs: Seq<VersionReq>, version: VersionView) -> bool {
    exists|i: int| 0 <= i < reqs.len() && crate::version::req_matches(
        (#[trigger] reqs[i])@,
        version,
    )
}

/// Whether the dependencies of a version are walked: it is wanted, known and
/// not yanked.
pub open spec fn is_walkable(reqs: Seq<VersionReq>, slot: crate::summaries::Slot) -> bool {
    &&& is_wanted(reqs, slot.version)
    &&& slot.summary matches crate::summaries::MaybeIndexSummary::Parsed(s) && !s.yanked
}

/// Walks the dependencies of the versions of a fetched package.
pub open spec fn walk_slots(
    state: WalkView,
    slots: Seq<crate::summaries::Slot>,
    fetched: Prefetched,
    source: u64,
) -> WalkView
    decreases slots.len(),
{
    if slots.len() == 0 {
        state
    } else {
        let front = walk_slots(state, slots.drop_last(), fetched, source);
        if is_walkable(fetched.version_reqs@, slots.last()) {
            walk_dependencies(
                front,
                slots.last().summary->Parsed_0.summary.dependencies@,
                source,
                fetched.is_transitive,
            )
        } else {
            front
        }
    }
}

/// Whether the first versions of a package may have become others when the
/// wanted ones among them were parsed, all of them with success.
pub open spec fn wanted_parsed<E, F: Fn(&[u8]) -> Result<IndexSummary, E>>(
    parse: F,
    raw_data: Seq<u8>,
    reqs: Seq<VersionReq>,
    old_slots: Seq<crate::summaries::Slot>,
    new_slots: Seq<crate::summaries::Slot>,
    upto: int,
) -> bool {
    &&& new_slots.len() == old_slots.len()
    &&& forall|i: int|
        0 <= i < upto ==> if is_wanted(reqs, old_slots[i].version) {
            crate::summaries::slot_parsed(parse, raw_data, old_slots[i], #[trigger] new_slots[i])
                && new_slots[i].summary is Parsed
        } else {
            new_slots[i] == old_slots[i]
        }
    &&& forall|i: int|
        upto <= i < old_slots.len() ==> #[trigger] new_slots[i] == old_slots[i]
}

/// Whether the wanted version at a place cannot be parsed.
pub open spec fn is_refused<E, F: Fn(&[u8]) -> Result<IndexSummary, E>>(
    parse: F,
    raw_data: Seq<u8>,
    reqs: Seq<VersionReq>,
    slot: crate::summaries::Slot,
    e: E,
) -> bool {
    &&& is_wanted(reqs, slot.version)
    &&& slot.summary matches crate::summaries::MaybeIndexSummary::Unparsed { start, end }
        && crate::summaries::decodes(
        parse,
        raw_data.subrange(start as int, end as int),
        Err::<IndexSummary, E>(e),
    )
}

/// Whether a dependency calls for being fetched once a package was: it is one
/// of a version that is wanted and not yanked, it lives in the same source, and
/// it is not a development dependency of a transitive dependency.
pub open spec fn is_called_for(
    slots: Seq<crate::summaries::Slot>,
    fetched: Prefetched,
    source: u64,
    i: int,
    j: int,
) -> bool {
    &&& 0 <= i < slots.len()
    &&& is_walkable(fetched.version_reqs@, slots[i])
    &&& 0 <= j < slots[i].summary->Parsed_0.summary.dependencies@.len()
    &&& is_eligible(
        slots[i].summary->Parsed_0.summary.dependencies@[j],
        source,
        fetched.is_transitive,
    )
}

/// The walked form of a dependency.
pub open spec fn called_for(slots: Seq<crate::summaries::Slot>, i: int, j: int) -> (
    Seq<char>,
    Option<Seq<char>>,
) {
    (
        slots[i].summary->Parsed_0.summary.dependencies@[j].name@,
        slots[i].summary->Parsed_0.summary.dependencies@[j].req@,
    )
}

/// Whether every dependency that calls for being fetched is covered by what was
/// walked.
pub open spec fn calls_covered(
    walked: Seq<(Seq<char>, Option<Seq<char>>)>,
    slots: Seq<crate::summaries::Slot>,
    fetched: Prefetched,
    source: u64,
) -> bool {
    forall|i: int, j: int| #[trigger]
        is_called_for(slots, fetched, source, i, j) ==> covers(
            walked,
            called_for(slots, i, j).0,
            called_for(slots, i, j).1,
        )
}

/// Whether walking the versions of a fetched package, up to the first that
/// cannot be parsed, may have led from one state to another.
pub open spec fn versions_walked<E, F: Fn(&[u8]) -> Result<IndexSummary, E>>(
    parse: F,
    fetched: Prefetched,
    source: u64,
    old_summaries: Summaries,
    new_summaries: Summaries,
    before: WalkView,
    after: WalkView,
    error: Option<E>,
) -> bool {
    &&& new_summaries.wf()
    &&& new_summaries.raw_data() == old_summaries.raw_data()
    &&& exists|upto: int|
        {
            &&& 0 <= upto <= old_summaries.slots().len()
            &&& #[trigger] wanted_parsed(
                parse,
                old_summaries.raw_data(),
                fetched.version_reqs@,
                old_summaries.slots(),
                new_summaries.slots(),
                upto,
            )
            &&& after == walk_slots(before, new_summaries.slots().take(upto), fetched, source)
            &&& calls_covered(after.walked, new_summaries.slots().take(upto), fetched, source)
            &&& match error {
                None => upto == old_summaries.slots().len(),
                Some(e) => upto < old_summaries.slots().len() && is_refused(
                    parse,
                    old_summaries.raw_data(),
                    fetched.version_reqs@,
                    old_summaries.slots()[upto],
                    e,
                ),
            }
        }
}

/// Whether some requirement lets a version through.
fn any_matches(reqs: &Vec<VersionReq>, version: &Version) -> (r: bool)
    ensures
        r == is_wanted(reqs@, version@),
{
    let mut i: usize = 0;
    while i < reqs.len()
        invariant
            i <= reqs@.len(),
            forall|j: int|
                0 <= j < i ==> !crate::version::req_matches((#[trigger] reqs@[j])@, version@),
        decreases reqs@.len() - i,
    {
        if reqs[i].matches(version) {
            return true;
        }
        i += 1;
    }
    false
}

impl PrefetchWalk {
    /// The dependencies that were walked.
    pub closed spec fn walked(&self) -> Seq<(Seq<char>, Option<Seq<char>>)> {
        Seq::new(self.walked@.len(), |i: int| (self.walked@[i].name@, self.walked@[i].req@))
    }

    /// Nothing was walked yet.
    pub fn new() -> (r: PrefetchWalk)
        ensures
            r.walked() == Seq::<(Seq<char>, Option<Seq<char>>)>::empty(),
    {
        PrefetchWalk { walked: Vec::new() }
    }

    /// Keeps a dependency in mind, and says whether it is new.
    pub fn insert(&mut self, name: &str, req: &VersionReq) -> (r: bool)
        ensures
            r == !is_walked(old(self).walked(), (name@, req@)),
            covers(final(self).walked(), name@, req@),
            final(self).walked() == if r {
                old(self).walked().push((name@, req@))
            } else {
                old(self).walked()
            },
    {
        let ghost before = self.walked();
        let mut i: usize = 0;
        while i < self.walked.len()
            invariant
                i <= self.walked@.len(),
                before == self.walked(),
                before == old(self).walked(),
                forall|j: int|
                    0 <= j < i ==> !is_same_walk(#[trigger] before[j], (name@, req@)),
            decreases self.walked@.len() - i,
        {
            assert(before[i as int] == (
                self.walked@[i as int].name@,
                self.walked@[i as int].req@,
            ));
            if same_text(&self.walked[i].name, name) && self.walked[i].req.same(req) {
                return false;
            }
            i += 1;
        }
        self.walked.push(WalkedDependency { name: name.to_owned(), req: req.clone() });
        assert forall|c: Option<Seq<char>>|
            crate::version::is_requirement(c) && #[trigger] crate::version::is_same_req(
                req@,
                c,
            ) implies is_walked(self.walked(), (name@, c)) by {
            assert(is_same_walk(self.walked()[before.len() as int], (name@, c)));
        }
        true
    }

    /// Walks the dependencies of one version.
    fn walk_dependencies(
        &mut self,
        deps: &Vec<Dependency>,
        source: u64,
        is_transitive: bool,
        requests: &mut Vec<PrefetchRequest>,
    )
        ensures
            (WalkView { walked: final(self).walked(), requests: requests_of(final(requests)@) })
                == walk_dependencies(
                (WalkView { walked: old(self).walked(), requests: requests_of(old(requests)@) }),
                deps@,
                source,
                is_transitive,
            ),
            forall|k: int|
                0 <= k < deps@.len() && is_eligible(#[trigger] deps@[k], source, is_transitive)
                    ==> covers(final(self).walked(), deps@[k].name@, deps@[k].req@),
    {
        let ghost before = WalkView {
            walked: self.walked(),
            requests: requests_of(requests@),
        };
        let mut i: usize = 0;
        while i < deps.len()
            invariant
                i <= deps@.len(),
                (WalkView { walked: self.walked(), requests: requests_of(requests@) })
                    == walk_dependencies(before, deps@.take(i as int), source, is_transitive),
                forall|k: int|
                    0 <= k < i && is_eligible(#[trigger] deps@[k], source, is_transitive)
                        ==> covers(self.walked(), deps@[k].name@, deps@[k].req@),
            decreases deps@.len() - i,
        {
            let dep = &deps[i];
            let ghost walked = self.walked();
            let ghost state = WalkView { walked, requests: requests_of(requests@) };
            assert(deps@.take(i + 1).drop_last() =~= deps@.take(i as int));
            if dep.source_id.id == source && (!is_transitive || dep.is_transitive) {
                if self.insert(&dep.name, &dep.req) {
                    let request = PrefetchRequest {
                        name: dep.name.clone(),
                        req: Some(dep.req.clone()),
                        is_transitive: true,
                    };
                    requests.push(request);
                    assert(requests_of(requests@) =~= state.requests.push(request@));
                }
            }
            assert((WalkView { walked: self.walked(), requests: requests_of(requests@) })
                == walk_dependency(state, *dep, source, is_transitive));
            assert forall|k: int|
                0 <= k < i && is_eligible(
                    #[trigger] deps@[k],
                    source,
                    is_transitive,
                ) implies covers(self.walked(), deps@[k].name@, deps@[k].req@) by {
                lemma_covers_stays(walked, self.walked(), deps@[k].name@, deps@[k].req@);
            }
            i += 1;
        }
        assert(deps@.take(i as int) =~= deps@);
    }

    /// Walks the dependencies of the versions of a fetched package, as far as
    /// some requirement asks for them. A version that cannot be parsed ends
    /// the walk.
    pub fn walk_versions<E, F: Fn(&[u8]) -> Result<IndexSummary, E>>(
        &mut self,
        summaries: &mut Summaries,
        fetched: &Prefetched,
        source: u64,
        parse: &F,
        requests: &mut Vec<PrefetchRequest>,
    ) -> (r: Result<(), E>)
        requires
            old(summaries).wf(),
            forall|line: &[u8]| call_requires(*parse, (line,)),
        ensures
            versions_walked(
                *parse,
                *fetched,
                source,
                *old(summaries),
                *final(summaries),
                (WalkView { walked: old(self).walked(), requests: requests_of(old(requests)@) }),
                (WalkView {
                    walked: final(self).walked(),
                    requests: requests_of(final(requests)@),
                }),
                match r {
                    Ok(_) => None,
                    Err(e) => Some(e),
                },
            ),
    {
        let ghost before = WalkView {
            walked: self.walked(),
            requests: requests_of(requests@),
        };
        let ghost slots = summaries.slots();
        let ghost raw_data = summaries.raw_data();
        let n: usize = summaries.len();
        let mut i: usize = 0;
        while i < n
            invariant
                i <= n,
                n == slots.len(),
                slots == old(summaries).slots(),
                raw_data == old(summaries).raw_data(),
                before == (WalkView {
                    walked: old(self).walked(),
                    requests: requests_of(old(requests)@),
                }),
                forall|line: &[u8]| call_requires(*parse, (line,)),
                summaries.wf(),
                summaries.raw_data() == raw_data,
                wanted_parsed(
                    *parse,
                    raw_data,
                    fetched.version_reqs@,
                    slots,
                    summaries.slots(),
                    i as int,
                ),
                (WalkView { walked: self.walked(), requests: requests_of(requests@) })
                    == walk_slots(before, summaries.slots().take(i as int), *fetched, source),
                calls_covered(
                    self.walked(),
                    summaries.slots().take(i as int),
                    *fetched,
                    source,
                ),
            decreases n - i,
        {
            let ghost now = summaries.slots();
            let ghost state = WalkView {
                walked: self.walked(),
                requests: requests_of(requests@),
            };
            if any_matches(&fetched.version_reqs, summaries.version_at(i)) {
                match summaries.parse_at(i, parse) {
                    Ok(summary) => {
                        if !summary.yanked {
                            self.walk_dependencies(
                                &summary.summary.dependencies,
                                source,
                                fetched.is_transitive,
                                requests,
                            );
                            proof {
                                lemma_dependencies_follow(
                                    state,
                                    summary.summary.dependencies@,
                                    source,
                                    fetched.is_transitive,
                                );
                            }
                        }
                    },
                    Err(e) => {
                        return Err(e);
                    },
                }
            }
            proof {
                let less = now.take(i as int);
                let more = summaries.slots().take(i + 1);
                assert(more.drop_last() =~= less);
                assert forall|k: int, j: int| #[trigger]
                    is_called_for(more, *fetched, source, k, j) implies covers(
                    self.walked(),
                    called_for(more, k, j).0,
                    called_for(more, k, j).1,
                ) by {
                    if k < i {
                        assert(is_called_for(less, *fetched, source, k, j));
                        lemma_covers_stays(
                            state.walked,
                            self.walked(),
                            called_for(less, k, j).0,
                            called_for(less, k, j).1,
                        );
                    }
                }
            }
            i += 1;
        }
        Ok(())
    }
}

/// The requests for the packages of the lock file that come from a source. A
/// package that is listed twice is requested once.
pub open spec fn locked_requests(whitelist: Seq<PackageId>, source: u64) -> Seq<RequestView>
    decreases whitelist.len(),
{
    if whitelist.len() == 0 {
        Seq::empty()
    } else {
        let front = locked_requests(whitelist.drop_last(), source);
        if whitelist.last().source_id.id == source && !crate::package::listed(
            whitelist.drop_last(),
            whitelist.last().key(),
        ) {
            front.push(
                RequestView { name: whitelist.last().name@, req: None, is_transitive: true },
            )
        } else {
            front
        }
    }
}

/// The request for a dependency of a package at the root.
pub open spec fn root_request(dep: Dependency) -> RequestView {
    RequestView { name: dep.name@, req: Some(dep.req@), is_transitive: false }
}

/// The requests for the dependencies of the packages at the root.
pub open spec fn root_requests(deps: Seq<Dependency>) -> Seq<RequestView> {
    Seq::new(deps.len(), |i: int| root_request(deps[i]))
}

/// The dependencies of the packages at the root, each of them once.
pub open spec fn root_walked(deps: Seq<Dependency>) -> Seq<(Seq<char>, Option<Seq<char>>)>
    decreases deps.len(),
{
    if deps.len() == 0 {
        Seq::empty()
    } else {
        let front = root_walked(deps.drop_last());
        let new = (deps.last().name@, deps.last().req@);
        if is_walked(front, new) {
            front
        } else {
            front.push(new)
        }
    }
}

/// What a walk starts with: requests for everything from the lock file, then
/// for the dependencies of the packages at the root, which are walked thereby.
pub open spec fn walk_seed(
    deps: Seq<Dependency>,
    whitelist: Seq<PackageId>,
    source: u64,
) -> WalkView {
    WalkView {
        walked: root_walked(deps),
        requests: locked_requests(whitelist, source) + root_requests(deps),
    }
}

impl PrefetchWalk {
    /// Starts a walk.
    pub fn seed(deps: &Vec<Dependency>, yanked_whitelist: &Vec<PackageId>, source: u64) -> (r: (
        PrefetchWalk,
        Vec<PrefetchRequest>,
    ))
        ensures
            (WalkView { walked: r.0.walked(), requests: requests_of(r.1@) }) == walk_seed(
                deps@,
                yanked_whitelist@,
                source,
            ),
            all_covered(r.0.walked(), deps@),
    {
        let mut walk = PrefetchWalk::new();
        let mut requests: Vec<PrefetchRequest> = Vec::new();
        let mut i: usize = 0;
        while i < yanked_whitelist.len()
            invariant
                i <= yanked_whitelist@.len(),
                requests_of(requests@) == locked_requests(
                    yanked_whitelist@.take(i as int),
                    source,
                ),
            decreases yanked_whitelist@.len() - i,
        {
            let pkg = &yanked_whitelist[i];
            assert(yanked_whitelist@.take(i + 1).drop_last() =~= yanked_whitelist@.take(i as int));
            if pkg.source_id.id == source && !contains_before(yanked_whitelist, i, pkg) {
                let request = PrefetchRequest {
                    name: pkg.name.clone(),
                    req: None,
                    is_transitive: true,
                };
                requests.push(request);
            }
            i += 1;
        }
        let ghost locked = requests_of(requests@);
        assert(yanked_whitelist@.take(i as int) =~= yanked_whitelist@);
        let mut j: usize = 0;
        while j < deps.len()
            invariant
                j <= deps@.len(),
                walk.walked() == root_walked(deps@.take(j as int)),
                all_covered(walk.walked(), deps@.take(j as int)),
                requests_of(requests@) == locked + root_requests(deps@.take(j as int)),
            decreases deps@.len() - j,
        {
            let dep = &deps[j];
            let ghost earlier = requests_of(requests@);
            assert(deps@.take(j + 1).drop_last() =~= deps@.take(j as int));
            let ghost before = walk.walked();
            walk.insert(&dep.name, &dep.req);
            assert forall|k: int| 0 <= k < j + 1 implies covers(
                walk.walked(),
                (#[trigger] deps@.take(j + 1)[k]).name@,
                deps@.take(j + 1)[k].req@,
            ) by {
                if k < j {
                    let earlier = deps@.take(j as int)[k];
                    lemma_covers_stays(before, walk.walked(), earlier.name@, earlier.req@);
                }
            }
            let request = PrefetchRequest {
                name: dep.name.clone(),
                req: Some(dep.req.clone()),
                is_transitive: false,
            };
            requests.push(request);
            proof {
                assert(locked + root_requests(deps@.take(j + 1)) =~= earlier.push(
                    root_request(*dep),
                ));
            }
            j += 1;
        }
        assert(deps@.take(j as int) =~= deps@);
        (walk, requests)
    }
}

/// Whether no dependency was walked twice.
pub open spec fn has_no_repeats(walked: Seq<(Seq<char>, Option<Seq<char>>)>) -> bool {
    forall|i: int, j: int|
        0 <= i < j < walked.len() ==> !is_same_walk(#[trigger] walked[i], #[trigger] walked[j])
}

/// A walk starts without repeats, however often the packages at the root name
/// one dependency.
pub proof fn law_seed_has_no_repeats(deps: Seq<Dependency>)
    ensures
        has_no_repeats(root_walked(deps)),
        forall|i: int|
            0 <= i < deps.len() ==> is_walked(
                root_walked(deps),
                ((#[trigger] deps[i]).name@, deps[i].req@),
            ),
    decreases deps.len(),
{
    if deps.len() > 0 {
        let front = deps.drop_last();
        let some = root_walked(front);
        let all = root_walked(deps);
        let new = (deps.last().name@, deps.last().req@);
        law_seed_has_no_repeats(front);
        if !is_walked(some, new) {
            assert(is_same_walk(all[some.len() as int], new));
        }
        assert forall|i: int| 0 <= i < deps.len() implies is_walked(
            all,
            ((#[trigger] deps[i]).name@, deps[i].req@),
        ) by {
            if i < front.len() {
                assert(front[i] == deps[i]);
                let k = choose|k: int|
                    0 <= k < some.len() && is_same_walk(
                        #[trigger] some[k],
                        (deps[i].name@, deps[i].req@),
                    );
                assert(all[k] == some[k]);
            }
        }
    }
}

/// Whether one state of a walk follows from another: some dependencies were
/// walked in addition, no dependency twice, and one request was made for each,
/// as for a dependency of a dependency.
pub open spec fn follows(before: WalkView, after: WalkView) -> bool {
    &&& before.walked.len() <= after.walked.len()
    &&& after.walked.take(before.walked.len() as int) == before.walked
    &&& has_no_repeats(before.walked) ==> has_no_repeats(after.walked)
    &&& after.requests.len() - before.requests.len() == after.walked.len() - before.walked.len()
    &&& after.requests.take(before.requests.len() as int) == before.requests
    &&& forall|k: int|
        before.walked.len() <= k < after.walked.len() ==> !is_walked(
            before.walked,
            #[trigger] after.walked[k],
        )
    &&& forall|k: int|
        before.walked.len() <= k < after.walked.len() ==> after.requests[k - before.walked.len()
            + before.requests.len()] == (RequestView {
            name: (#[trigger] after.walked[k]).0,
            req: Some(after.walked[k].1),
            is_transitive: true,
        })
}

/// Two steps of a walk.
proof fn lemma_follows(a: WalkView, b: WalkView, c: WalkView)
    requires
        follows(a, b),
        follows(b, c),
    ensures
        follows(a, c),
{
    assert(c.walked.take(a.walked.len() as int) =~= a.walked);
    assert(c.requests.take(a.requests.len() as int) =~= a.requests);
    assert forall|k: int| a.walked.len() <= k < c.walked.len() implies !is_walked(
        a.walked,
        #[trigger] c.walked[k],
    ) by {
        if k < b.walked.len() {
            assert(b.walked[k] == c.walked.take(b.walked.len() as int)[k]);
        } else if is_walked(a.walked, c.walked[k]) {
            lemma_walked_stays(a.walked, b.walked, c.walked[k]);
        }
    }
    assert forall|k: int| a.walked.len() <= k < c.walked.len() implies c.requests[k
        - a.walked.len() + a.requests.len()] == (RequestView {
        name: (#[trigger] c.walked[k]).0,
        req: Some(c.walked[k].1),
        is_transitive: true,
    }) by {
        if k < b.walked.len() {
            assert(b.walked[k] == c.walked.take(b.walked.len() as int)[k]);
        }
    }
}

/// Walking the dependencies of one version.
proof fn lemma_dependencies_follow(
    state: WalkView,
    deps: Seq<Dependency>,
    source: u64,
    is_transitive: bool,
)
    ensures
        follows(state, walk_dependencies(state, deps, source, is_transitive)),
    decreases deps.len(),
{
    if deps.len() == 0 {
        assert(state.walked.take(state.walked.len() as int) =~= state.walked);
        assert(state.requests.take(state.requests.len() as int) =~= state.requests);
    } else {
        let front = walk_dependencies(state, deps.drop_last(), source, is_transitive);
        let after = walk_dependencies(state, deps, source, is_transitive);
        lemma_dependencies_follow(state, deps.drop_last(), source, is_transitive);
        let dep = deps.last();
        if is_new(front.walked, dep, source, is_transitive) {
            assert(after.walked.take(front.walked.len() as int) =~= front.walked);
            assert(after.requests.take(front.requests.len() as int) =~= front.requests);
            lemma_follows(state, front, after);
        }
    }
}

/// A walk never goes in circles: walking a fetched package makes one request
/// for each dependency that was not walked before, and none for the others.
pub proof fn law_walk_makes_progress(
    state: WalkView,
    slots: Seq<crate::summaries::Slot>,
    fetched: Prefetched,
    source: u64,
)
    ensures
        follows(state, walk_slots(state, slots, fetched, source)),
    decreases slots.len(),
{
    if slots.len() == 0 {
        assert(state.walked.take(state.walked.len() as int) =~= state.walked);
        assert(state.requests.take(state.requests.len() as int) =~= state.requests);
    } else {
        let front = walk_slots(state, slots.drop_last(), fetched, source);
        law_walk_makes_progress(state, slots.drop_last(), fetched, source);
        if is_walkable(fetched.version_reqs@, slots.last()) {
            let deps = slots.last().summary->Parsed_0.summary.dependencies@;
            lemma_dependencies_follow(front, deps, source, fetched.is_transitive);
            lemma_follows(
                state,
                front,
                walk_dependencies(front, deps, source, fetched.is_transitive),
            );
        }
    }
}

/// Whether an entry stands for a dependency of one version that calls for being
/// fetched.
spec fn is_due(
    deps: Seq<Dependency>,
    source: u64,
    is_transitive: bool,
    entry: (Seq<char>, Option<Seq<char>>),
) -> bool {
    exists|j: int|
        0 <= j < deps.len() && (#[trigger] deps[j]).source_id.id == source && (is_transitive
            ==> deps[j].is_transitive) && entry == (deps[j].name@, deps[j].req@)
}

/// Whether an entry stands for a dependency that calls for being fetched.
pub open spec fn has_cause(
    slots: Seq<crate::summaries::Slot>,
    fetched: Prefetched,
    source: u64,
    entry: (Seq<char>, Option<Seq<char>>),
) -> bool {
    exists|i: int, j: int| #[trigger]
        is_called_for(slots, fetched, source, i, j) && entry == called_for(slots, i, j)
}

/// What becomes walked with the dependencies of one version.
proof fn lemma_dependencies_walked(
    state: WalkView,
    deps: Seq<Dependency>,
    source: u64,
    is_transitive: bool,
)
    ensures
        forall|j: int|
            0 <= j < deps.len() && (#[trigger] deps[j]).source_id.id == source && (is_transitive
                ==> deps[j].is_transitive) ==> is_walked(
                walk_dependencies(state, deps, source, is_transitive).walked,
                (deps[j].name@, deps[j].req@),
            ),
        forall|k: int|
            state.walked.len() <= k < walk_dependencies(
                state,
                deps,
                source,
                is_transitive,
            ).walked.len() ==> is_due(
                deps,
                source,
                is_transitive,
                #[trigger] walk_dependencies(state, deps, source, is_transitive).walked[k],
            ),
    decreases deps.len(),
{
    if deps.len() > 0 {
        let less = deps.drop_last();
        let front = walk_dependencies(state, less, source, is_transitive);
        let after = walk_dependencies(state, deps, source, is_transitive);
        let n = deps.len() - 1;
        lemma_dependencies_walked(state, less, source, is_transitive);
        assert forall|j: int|
            0 <= j < deps.len() && (#[trigger] deps[j]).source_id.id == source && (is_transitive
                ==> deps[j].is_transitive) implies is_walked(
            after.walked,
            (deps[j].name@, deps[j].req@),
        ) by {
            let new = (deps[j].name@, deps[j].req@);
            if is_walked(front.walked, new) {
                lemma_walked_stays(front.walked, after.walked, new);
            } else {
                if j < n {
                    assert(less[j] == deps[j]);
                }
                assert(is_same_walk(after.walked[front.walked.len() as int], new));
            }
        }
    }
}

/// What was covered stays covered.
proof fn lemma_covers_stays(
    before: Seq<(Seq<char>, Option<Seq<char>>)>,
    after: Seq<(Seq<char>, Option<Seq<char>>)>,
    name: Seq<char>,
    req: Option<Seq<char>>,
)
    requires
        covers(before, name, req),
        before.len() <= after.len(),
        forall|i: int| 0 <= i < before.len() ==> #[trigger] after[i] == before[i],
    ensures
        covers(after, name, req),
{
    assert forall|c: Option<Seq<char>>|
        crate::version::is_requirement(c) && #[trigger] crate::version::is_same_req(
            req,
            c,
        ) implies is_walked(after, (name, c)) by {
        lemma_walked_stays(before, after, (name, c));
    }
}

/// What was walked stays walked.
proof fn lemma_walked_stays(
    before: Seq<(Seq<char>, Option<Seq<char>>)>,
    after: Seq<(Seq<char>, Option<Seq<char>>)>,
    dep: (Seq<char>, Option<Seq<char>>),
)
    requires
        is_walked(before, dep),
        before.len() <= after.len(),
        forall|i: int| 0 <= i < before.len() ==> #[trigger] after[i] == before[i],
    ensures
        is_walked(after, dep),
{
    let i = choose|i: int| 0 <= i < before.len() && is_same_walk(#[trigger] before[i], dep);
    assert(is_same_walk(after[i], dep));
}

/// Walking a fetched package reaches every dependency that calls for it, and
/// makes no request for any other.
pub proof fn law_walk_is_complete(
    state: WalkView,
    slots: Seq<crate::summaries::Slot>,
    fetched: Prefetched,
    source: u64,
)
    ensures
        forall|i: int, j: int| #[trigger]
            is_called_for(slots, fetched, source, i, j) ==> is_walked(
                walk_slots(state, slots, fetched, source).walked,
                called_for(slots, i, j),
            ),
        forall|k: int|
            state.walked.len() <= k < walk_slots(state, slots, fetched, source).walked.len()
                ==> has_cause(
                slots,
                fetched,
                source,
                #[trigger] walk_slots(state, slots, fetched, source).walked[k],
            ),
    decreases slots.len(),
{
    if slots.len() > 0 {
        let less = slots.drop_last();
        let n = slots.len() - 1;
        let front = walk_slots(state, less, fetched, source);
        let after = walk_slots(state, slots, fetched, source);
        law_walk_is_complete(state, less, fetched, source);
        let deps = slots[n].summary->Parsed_0.summary.dependencies@;
        if is_walkable(fetched.version_reqs@, slots[n]) {
            lemma_dependencies_walked(front, deps, source, fetched.is_transitive);
            lemma_dependencies_follow(front, deps, source, fetched.is_transitive);
        }
        assert forall|i: int, j: int| #[trigger]
            is_called_for(slots, fetched, source, i, j) implies is_walked(
            after.walked,
            called_for(slots, i, j),
        ) by {
            if i < n {
                assert(is_called_for(less, fetched, source, i, j));
            }
        }
        assert forall|k: int| state.walked.len() <= k < after.walked.len() implies has_cause(
            slots,
            fetched,
            source,
            #[trigger] after.walked[k],
        ) by {
            if k < front.walked.len() {
                let (i, j) = choose|i: int, j: int| #[trigger]
                    is_called_for(less, fetched, source, i, j) && front.walked[k] == called_for(
                        less,
                        i,
                        j,
                    );
                assert(is_called_for(slots, fetched, source, i, j));
            } else {
                let j = choose|j: int|
                    0 <= j < deps.len() && (#[trigger] deps[j]).source_id.id == source && (
                    fetched.is_transitive ==> deps[j].is_transitive) && after.walked[k] == (
                        deps[j].name@,
                        deps[j].req@,
                    );
                assert(is_called_for(slots, fetched, source, n, j));
            }
        }
    }
}

/// Whether a request repeats a dependency: it is for the same package, with the
/// same requirement, however that is written.
pub open spec fn repeats(
    request: RequestView,
    name: Seq<char>,
    req: Option<Seq<char>>,
) -> bool {
    &&& request.name == name
    &&& request.req matches Some(c) && crate::version::is_requirement(c)
        && crate::version::is_same_req(req, c)
}

/// Once a dependency is covered, be it one of a package at the root or one that
/// was walked later, no request repeats it, and it stays covered.
pub proof fn law_covered_is_not_requested(
    state: WalkView,
    slots: Seq<crate::summaries::Slot>,
    fetched: Prefetched,
    source: u64,
    name: Seq<char>,
    req: Option<Seq<char>>,
)
    requires
        covers(state.walked, name, req),
    ensures
        ({
            let after = walk_slots(state, slots, fetched, source);
            &&& covers(after.walked, name, req)
            &&& forall|k: int|
                state.requests.len() <= k < after.requests.len() ==> !repeats(
                    #[trigger] after.requests[k],
                    name,
                    req,
                )
        }),
{
    let after = walk_slots(state, slots, fetched, source);
    law_walk_makes_progress(state, slots, fetched, source);
    lemma_covers_stays(state.walked, after.walked, name, req);
    assert forall|k: int| state.requests.len() <= k < after.requests.len() implies !repeats(
        #[trigger] after.requests[k],
        name,
        req,
    ) by {
        let w = k - state.requests.len() + state.walked.len();
        assert(!is_walked(state.walked, after.walked[w]));
    }
}

/// A dependency counts as walked if some entry, whichever, has its name and its
/// requirement, or one that `semver` takes for equal.
pub proof fn law_walked(
    walked: Seq<(Seq<char>, Option<Seq<char>>)>,
    name: Seq<char>,
    req: Option<Seq<char>>,
)
    ensures
        is_walked(walked, (name, req)) <==> exists|w: int|
            {
                &&& 0 <= w < walked.len()
                &&& (#[trigger] walked[w]).0 == name
                &&& walked[w].1 == req || crate::version::requirements_equal(walked[w].1, req)
            },
{
    if is_walked(walked, (name, req)) {
        let w = choose|w: int|
            0 <= w < walked.len() && is_same_walk(#[trigger] walked[w], (name, req));
        assert(walked[w].0 == name);
    }
    if exists|w: int|
        {
            &&& 0 <= w < walked.len()
            &&& (#[trigger] walked[w]).0 == name
            &&& walked[w].1 == req || crate::version::requirements_equal(walked[w].1, req)
        } {
        let w = choose|w: int|
            {
                &&& 0 <= w < walked.len()
                &&& (#[trigger] walked[w]).0 == name
                &&& walked[w].1 == req || crate::version::requirements_equal(walked[w].1, req)
            };
        assert(is_same_walk(walked[w], (name, req)));
    }
}

/// Every requirement of a fetched file counts.
///
/// Whichever requirement lets a version through, that version is parsed once the
/// file was taken in. If it is not yanked, each of its dependencies that lives
/// in the same source is walked, but for a development dependency of a
/// transitive dependency. All this holds of the versions before the one that
/// could not be parsed, which is one that some requirement lets through; nothing
/// else changes. The result is how many versions were taken in.
pub proof fn law_every_requirement_counts<E, F: Fn(&[u8]) -> Result<IndexSummary, E>>(
    parse: F,
    fetched: Prefetched,
    source: u64,
    old_summaries: Summaries,
    new_summaries: Summaries,
    before: WalkView,
    after: WalkView,
    error: Option<E>,
) -> (upto: int)
    requires
        versions_walked(
            parse,
            fetched,
            source,
            old_summaries,
            new_summaries,
            before,
            after,
            error,
        ),
    ensures
        ({
            let reqs = fetched.version_reqs@;
            let old_slots = old_summaries.slots();
            let slots = new_summaries.slots();
            &&& new_summaries.raw_data() == old_summaries.raw_data()
            &&& slots.len() == old_slots.len()
            &&& 0 <= upto <= slots.len()
            &&& error is None <==> upto == slots.len()
            &&& forall|i: int|
                0 <= i < slots.len() ==> (#[trigger] slots[i]).version == old_slots[i].version
            &&& forall|i: int|
                0 <= i < slots.len() && (old_slots[i].summary is Parsed || i >= upto) ==> (
                #[trigger] slots[i]).summary == old_slots[i].summary
            &&& forall|i: int|
                #![trigger slots[i]]
                0 <= i < slots.len() && (forall|k: int|
                    0 <= k < reqs.len() ==> !crate::version::req_matches(
                        (#[trigger] reqs[k])@,
                        slots[i].version,
                    )) ==> slots[i] == old_slots[i]
            &&& forall|i: int, k: int|
                #![trigger slots[i], reqs[k]]
                0 <= i < upto && 0 <= k < reqs.len() && crate::version::req_matches(
                    reqs[k]@,
                    slots[i].version,
                ) ==> slots[i].summary is Parsed
            &&& forall|i: int, k: int, j: int|
                #![trigger reqs[k], slots[i].summary->Parsed_0.summary.dependencies@[j]]
                {
                    let summary = slots[i].summary->Parsed_0;
                    let dep = summary.summary.dependencies@[j];
                    &&& 0 <= i < upto
                    &&& 0 <= k < reqs.len()
                    &&& crate::version::req_matches(reqs[k]@, slots[i].version)
                    &&& !summary.yanked
                    &&& 0 <= j < summary.summary.dependencies@.len()
                    &&& dep.source_id.id == source
                    &&& fetched.is_transitive ==> dep.is_transitive
                } ==> exists|w: int|
                    {
                        let dep = slots[i].summary->Parsed_0.summary.dependencies@[j];
                        &&& 0 <= w < after.walked.len()
                        &&& (#[trigger] after.walked[w]).0 == dep.name@
                        &&& after.walked[w].1 == dep.req@ || crate::version::requirements_equal(
                            after.walked[w].1,
                            dep.req@,
                        )
                    }
        }),
{
    let reqs = fetched.version_reqs@;
    let old_slots = old_summaries.slots();
    let slots = new_summaries.slots();
    let upto = choose|upto: int|
        {
            &&& 0 <= upto <= old_slots.len()
            &&& #[trigger] wanted_parsed(
                parse,
                old_summaries.raw_data(),
                reqs,
                old_slots,
                slots,
                upto,
            )
            &&& after == walk_slots(before, slots.take(upto), fetched, source)
            &&& calls_covered(after.walked, slots.take(upto), fetched, source)
            &&& match error {
                None => upto == old_slots.len(),
                Some(e) => upto < old_slots.len() && is_refused(
                    parse,
                    old_summaries.raw_data(),
                    reqs,
                    old_slots[upto],
                    e,
                ),
            }
        };
    assert forall|i: int| 0 <= i < slots.len() implies (#[trigger] slots[i]).version
        == old_slots[i].version by {
        if i < upto && is_wanted(reqs, old_slots[i].version) {
            assert(crate::summaries::slot_parsed(
                parse,
                old_summaries.raw_data(),
                old_slots[i],
                slots[i],
            ));
        }
    }
    law_walk_is_complete(before, slots.take(upto), fetched, source);
    assert forall|i: int, k: int, j: int|
        #![trigger reqs[k], slots[i].summary->Parsed_0.summary.dependencies@[j]]
        {
            let summary = slots[i].summary->Parsed_0;
            let dep = summary.summary.dependencies@[j];
            &&& 0 <= i < upto
            &&& 0 <= k < reqs.len()
            &&& crate::version::req_matches(reqs[k]@, slots[i].version)
            &&& !summary.yanked
            &&& 0 <= j < summary.summary.dependencies@.len()
            &&& dep.source_id.id == source
            &&& fetched.is_transitive ==> dep.is_transitive
        } implies exists|w: int|
        {
            let dep = slots[i].summary->Parsed_0.summary.dependencies@[j];
            &&& 0 <= w < after.walked.len()
            &&& (#[trigger] after.walked[w]).0 == dep.name@
            &&& after.walked[w].1 == dep.req@ || crate::version::requirements_equal(
                after.walked[w].1,
                dep.req@,
            )
        } by {
        let dep = slots[i].summary->Parsed_0.summary.dependencies@[j];
        assert(is_wanted(reqs, slots[i].version));
        assert(slots[i].summary is Parsed);
        assert(slots.take(upto)[i] == slots[i]);
        assert(is_called_for(slots.take(upto), fetched, source, i, j));
        law_walked(after.walked, dep.name@, dep.req@);
    }
    upto
}

/// What the version that ends a walk is: some requirement lets it through, it is
/// unparsed, and `parse` refused the bytes that it points to with the error that
/// comes back.
pub proof fn law_walk_ends_at_an_error<E, F: Fn(&[u8]) -> Result<IndexSummary, E>>(
    parse: F,
    fetched: Prefetched,
    source: u64,
    old_summaries: Summaries,
    new_summaries: Summaries,
    before: WalkView,
    after: WalkView,
    e: E,
) -> (r: (int, int))
    requires
        versions_walked(
            parse,
            fetched,
            source,
            old_summaries,
            new_summaries,
            before,
            after,
            Some(e),
        ),
    ensures
        ({
            let (i, k) = r;
            let slot = old_summaries.slots()[i];
            &&& 0 <= i < old_summaries.slots().len()
            &&& 0 <= k < fetched.version_reqs@.len()
            &&& crate::version::req_matches(fetched.version_reqs@[k]@, slot.version)
            &&& new_summaries.slots()[i] == slot
            &&& slot.summary matches MaybeIndexSummary::Unparsed { start, end } && exists|
                line: &[u8],
                outcome: Result<IndexSummary, E>,
            |
                {
                    &&& line@ == old_summaries.raw_data().subrange(start as int, end as int)
                    &&& #[trigger] call_ensures(parse, (line,), outcome)
                    &&& outcome is Err
                    &&& outcome->Err_0 == e
                }
        }),
{
    let reqs = fetched.version_reqs@;
    let old_slots = old_summaries.slots();
    let slots = new_summaries.slots();
    let i = choose|upto: int|
        {
            &&& 0 <= upto <= old_slots.len()
            &&& #[trigger] wanted_parsed(
                parse,
                old_summaries.raw_data(),
                reqs,
                old_slots,
                slots,
                upto,
            )
            &&& upto < old_slots.len() && is_refused(
                parse,
                old_summaries.raw_data(),
                reqs,
                old_slots[upto],
                e,
            )
        };
    let k = choose|k: int|
        0 <= k < reqs.len() && crate::version::req_matches(
            (#[trigger] reqs[k])@,
            old_slots[i].version,
        );
    assert(slots[i] == old_slots[i]);
    (i, k)
}

/// Nothing is walked without a cause, and nothing twice.
///
/// What is walked in addition when a file is taken in is a dependency of a
/// version that is parsed and not yanked and that some requirement lets through.
/// It lives in the same source, is no development dependency of a transitive
/// dependency, and was not walked before. One request is made for it, as for a
/// transitive dependency. What was walked and requested before stays. The result
/// gives the places of the version, the requirement and the dependency.
pub proof fn law_every_request_has_a_cause<E, F: Fn(&[u8]) -> Result<IndexSummary, E>>(
    parse: F,
    fetched: Prefetched,
    source: u64,
    old_summaries: Summaries,
    new_summaries: Summaries,
    before: WalkView,
    after: WalkView,
    error: Option<E>,
    w: int,
) -> (r: (int, int, int))
    requires
        versions_walked(
            parse,
            fetched,
            source,
            old_summaries,
            new_summaries,
            before,
            after,
            error,
        ),
        before.walked.len() <= w < after.walked.len(),
    ensures
        ({
            let reqs = fetched.version_reqs@;
            let slots = new_summaries.slots();
            let (i, k, j) = r;
            let summary = slots[i].summary->Parsed_0;
            let dep = summary.summary.dependencies@[j];
            &&& 0 <= i < slots.len()
            &&& 0 <= k < reqs.len()
            &&& crate::version::req_matches(reqs[k]@, slots[i].version)
            &&& slots[i].summary is Parsed
            &&& !summary.yanked
            &&& 0 <= j < summary.summary.dependencies@.len()
            &&& dep.source_id.id == source
            &&& fetched.is_transitive ==> dep.is_transitive
            &&& after.walked[w].0 == dep.name@
            &&& after.walked[w].1 == dep.req@
        }),
        forall|v: int|
            0 <= v < before.walked.len() ==> (#[trigger] after.walked[v]).0 != after.walked[w].0
                || !(after.walked[v].1 == after.walked[w].1 || crate::version::requirements_equal(
                after.walked[v].1,
                after.walked[w].1,
            )),
{
    let reqs = fetched.version_reqs@;
    let slots = new_summaries.slots();
    let upto = choose|upto: int|
        {
            &&& 0 <= upto <= old_summaries.slots().len()
            &&& #[trigger] wanted_parsed(
                parse,
                old_summaries.raw_data(),
                reqs,
                old_summaries.slots(),
                slots,
                upto,
            )
            &&& after == walk_slots(before, slots.take(upto), fetched, source)
        };
    let part = slots.take(upto);
    law_walk_is_complete(before, part, fetched, source);
    law_walk_makes_progress(before, part, fetched, source);
    let entry = after.walked[w];
    assert(has_cause(part, fetched, source, entry));
    let (i, j) = choose|i: int, j: int| #[trigger]
        is_called_for(part, fetched, source, i, j) && entry == called_for(part, i, j);
    assert(part[i] == slots[i]);
    let k = choose|k: int|
        0 <= k < reqs.len() && crate::version::req_matches(
            (#[trigger] reqs[k])@,
            slots[i].version,
        );
    assert(!is_walked(before.walked, entry));
    assert forall|v: int| 0 <= v < before.walked.len() implies (#[trigger] after.walked[v]).0
        != entry.0 || !(after.walked[v].1 == entry.1 || crate::version::requirements_equal(
        after.walked[v].1,
        entry.1,
    )) by {
        assert(after.walked.take(before.walked.len() as int)[v] == before.walked[v]);
        assert(!is_same_walk(before.walked[v], entry));
    }
    (i, k, j)
}

/// The requests that taking in a file makes: one for each dependency that is
/// walked in addition, in the same order, behind those that were made before.
pub proof fn law_one_request_for_each<E, F: Fn(&[u8]) -> Result<IndexSummary, E>>(
    parse: F,
    fetched: Prefetched,
    source: u64,
    old_summaries: Summaries,
    new_summaries: Summaries,
    before: WalkView,
    after: WalkView,
    error: Option<E>,
)
    requires
        versions_walked(
            parse,
            fetched,
            source,
            old_summaries,
            new_summaries,
            before,
            after,
            error,
        ),
    ensures
        before.walked.is_prefix_of(after.walked),
        before.requests.is_prefix_of(after.requests),
        after.requests.len() - before.requests.len() == after.walked.len() - before.walked.len(),
        forall|w: int, q: int|
            #![trigger after.walked[w], after.requests[q]]
            before.walked.len() <= w < after.walked.len() && q - before.requests.len() == w
                - before.walked.len() ==> {
                &&& after.requests[q].name == after.walked[w].0
                &&& after.requests[q].req == Some(after.walked[w].1)
                &&& after.requests[q].is_transitive
            },
        (forall|v: int, w: int|
            0 <= v < w < before.walked.len() ==> (#[trigger] before.walked[v]).0 != (
            #[trigger] before.walked[w]).0 || !(before.walked[v].1 == before.walked[w].1
                || crate::version::requirements_equal(before.walked[v].1, before.walked[w].1)))
            ==> forall|v: int, w: int|
            0 <= v < w < after.walked.len() ==> (#[trigger] after.walked[v]).0 != (
            #[trigger] after.walked[w]).0 || !(after.walked[v].1 == after.walked[w].1
                || crate::version::requirements_equal(after.walked[v].1, after.walked[w].1)),
{
    let slots = new_summaries.slots();
    let upto = choose|upto: int|
        {
            &&& 0 <= upto <= old_summaries.slots().len()
            &&& #[trigger] wanted_parsed(
                parse,
                old_summaries.raw_data(),
                fetched.version_reqs@,
                old_summaries.slots(),
                slots,
                upto,
            )
            &&& after == walk_slots(before, slots.take(upto), fetched, source)
        };
    law_walk_makes_progress(before, slots.take(upto), fetched, source);
    assert(before.walked.is_prefix_of(after.walked));
    assert(before.requests.is_prefix_of(after.requests));
    if forall|v: int, w: int|
        0 <= v < w < before.walked.len() ==> (#[trigger] before.walked[v]).0 != (
        #[trigger] before.walked[w]).0 || !(before.walked[v].1 == before.walked[w].1
            || crate::version::requirements_equal(before.walked[v].1, before.walked[w].1)) {
        assert(has_no_repeats(before.walked));
        assert forall|v: int, w: int| 0 <= v < w < after.walked.len() implies (
        #[trigger] after.walked[v]).0 != (#[trigger] after.walked[w]).0 || !(after.walked[v].1
            == after.walked[w].1 || crate::version::requirements_equal(
            after.walked[v].1,
            after.walked[w].1,
        )) by {
            assert(!is_same_walk(after.walked[v], after.walked[w]));
        }
    }
}

/// A file that was requested for more requirements leads to no fewer walked
/// dependencies: whatever is walked for some requirements is walked for any
/// requirements among which these are.
pub proof fn law_more_requirements_walk_no_less(
    state: WalkView,
    slots: Seq<crate::summaries::Slot>,
    fewer: Prefetched,
    more: Prefetched,
    source: u64,
    w: int,
)
    requires
        fewer.is_transitive == more.is_transitive,
        forall|k: int|
            0 <= k < fewer.version_reqs@.len() ==> more.version_reqs@.contains(
                #[trigger] fewer.version_reqs@[k],
            ),
        0 <= w < walk_slots(state, slots, fewer, source).walked.len(),
    ensures
        ({
            let some = walk_slots(state, slots, fewer, source).walked;
            let all = walk_slots(state, slots, more, source).walked;
            exists|v: int|
                {
                    &&& 0 <= v < all.len()
                    &&& (#[trigger] all[v]).0 == some[w].0
                    &&& all[v].1 == some[w].1 || crate::version::requirements_equal(
                        all[v].1,
                        some[w].1,
                    )
                }
        }),
{
    let some = walk_slots(state, slots, fewer, source).walked;
    let all = walk_slots(state, slots, more, source).walked;
    law_walk_makes_progress(state, slots, fewer, source);
    law_walk_makes_progress(state, slots, more, source);
    if w < state.walked.len() {
        assert(some.take(state.walked.len() as int)[w] == state.walked[w]);
        assert(all.take(state.walked.len() as int)[w] == state.walked[w]);
        assert(all[w].0 == some[w].0);
    } else {
        law_walk_is_complete(state, slots, fewer, source);
        law_walk_is_complete(state, slots, more, source);
        assert(has_cause(slots, fewer, source, some[w]));
        let (i, j) = choose|i: int, j: int| #[trigger]
            is_called_for(slots, fewer, source, i, j) && some[w] == called_for(slots, i, j);
        let k = choose|k: int|
            0 <= k < fewer.version_reqs@.len() && crate::version::req_matches(
                (#[trigger] fewer.version_reqs@[k])@,
                slots[i].version,
            );
        let l = choose|l: int|
            0 <= l < more.version_reqs@.len() && more.version_reqs@[l] == fewer.version_reqs@[k];
        assert(crate::version::req_matches(more.version_reqs@[l]@, slots[i].version));
        assert(is_wanted(more.version_reqs@, slots[i].version));
        assert(is_called_for(slots, more, source, i, j));
        law_walked(all, some[w].0, some[w].1);
    }
}

/// What a walk starts with.
///
/// The last requests are those for the dependencies of the packages at the root,
/// every one of them, in order and marked as such. Those before are for the
/// packages of the lock file that come from the source, each once and in order.
/// The result gives the places of these packages in the lock file.
pub proof fn law_first_requests(
    deps: Seq<Dependency>,
    whitelist: Seq<PackageId>,
    source: u64,
) -> (places: Seq<int>)
    ensures
        ({
            let requests = walk_seed(deps, whitelist, source).requests;
            &&& requests.len() == places.len() + deps.len()
            &&& forall|i: int|
                0 <= i < places.len() ==> {
                    &&& 0 <= #[trigger] places[i] < whitelist.len()
                    &&& requests[i].name == whitelist[places[i]].name@
                    &&& requests[i].req is None
                    &&& requests[i].is_transitive
                }
            &&& forall|i: int|
                #![trigger deps[i]]
                0 <= i < deps.len() ==> {
                    &&& requests[places.len() + i].name == deps[i].name@
                    &&& requests[places.len() + i].req == Some(deps[i].req@)
                    &&& !requests[places.len() + i].is_transitive
                }
        }),
        forall|i: int, j: int| 0 <= i < j < places.len() ==> places[i] < places[j],
        forall|m: int|
            0 <= m < whitelist.len() ==> (#[trigger] places.contains(m) <==> {
                &&& whitelist[m].source_id.id == source
                &&& forall|l: int|
                    0 <= l < m ==> {
                        ||| (#[trigger] whitelist[l]).name@ != whitelist[m].name@
                        ||| whitelist[l].version@.key() != whitelist[m].version@.key()
                        ||| whitelist[l].source_id.id != source
                    }
            }),
{
    let places = lemma_locked_requests(whitelist, source);
    let requests = walk_seed(deps, whitelist, source).requests;
    assert forall|i: int|
        #![trigger deps[i]]
        0 <= i < deps.len() implies requests[places.len() + i] == root_request(deps[i]) by {
        assert(root_requests(deps)[i] == root_request(deps[i]));
    }
    places
}

/// The places of the packages of the lock file that are requested.
proof fn lemma_locked_requests(whitelist: Seq<PackageId>, source: u64) -> (places: Seq<int>)
    ensures
        locked_requests(whitelist, source).len() == places.len(),
        forall|i: int|
            0 <= i < places.len() ==> {
                &&& 0 <= #[trigger] places[i] < whitelist.len()
                &&& locked_requests(whitelist, source)[i].name == whitelist[places[i]].name@
                &&& locked_requests(whitelist, source)[i].req is None
                &&& locked_requests(whitelist, source)[i].is_transitive
            },
        forall|i: int, j: int| 0 <= i < j < places.len() ==> places[i] < places[j],
        forall|m: int|
            0 <= m < whitelist.len() ==> (#[trigger] places.contains(m) <==> {
                &&& whitelist[m].source_id.id == source
                &&& forall|l: int|
                    0 <= l < m ==> {
                        ||| (#[trigger] whitelist[l]).name@ != whitelist[m].name@
                        ||| whitelist[l].version@.key() != whitelist[m].version@.key()
                        ||| whitelist[l].source_id.id != source
                    }
            }),
    decreases whitelist.len(),
{
    if whitelist.len() == 0 {
        Seq::empty()
    } else {
        let n = whitelist.len() - 1;
        let front = whitelist.drop_last();
        let some = lemma_locked_requests(front, source);
        let is_picked = whitelist[n].source_id.id == source && !crate::package::listed(
            front,
            whitelist[n].key(),
        );
        let places = if is_picked {
            some.push(n)
        } else {
            some
        };
        assert forall|m: int| 0 <= m < whitelist.len() implies (#[trigger] places.contains(m) <==> {
            &&& whitelist[m].source_id.id == source
            &&& forall|l: int|
                0 <= l < m ==> {
                    ||| (#[trigger] whitelist[l]).name@ != whitelist[m].name@
                    ||| whitelist[l].version@.key() != whitelist[m].version@.key()
                    ||| whitelist[l].source_id.id != source
                }
        }) by {
            if m < n {
                assert(front[m] == whitelist[m]);
                assert(forall|l: int| 0 <= l < m ==> #[trigger] whitelist[l] == front[l]);
                assert(forall|l: int| 0 <= l < m ==> #[trigger] front[l] == whitelist[l]);
                assert(places.contains(m) <==> some.contains(m)) by {
                    if some.contains(m) {
                        let i = choose|i: int| 0 <= i < some.len() && some[i] == m;
                        assert(places[i] == m);
                    }
                    if places.contains(m) {
                        let i = choose|i: int| 0 <= i < places.len() && places[i] == m;
                        assert(some[i] == m);
                    }
                }
            } else {
                if whitelist[n].source_id.id == source {
                    if crate::package::listed(front, whitelist[n].key()) {
                        let l = choose|l: int|
                            0 <= l < front.len() && (#[trigger] front[l]).key()
                                == whitelist[n].key();
                        assert(whitelist[l] == front[l]);
                    } else {
                        assert forall|l: int| 0 <= l < n implies {
                            ||| (#[trigger] whitelist[l]).name@ != whitelist[n].name@
                            ||| whitelist[l].version@.key() != whitelist[n].version@.key()
                            ||| whitelist[l].source_id.id != source
                        } by {
                            assert(front[l] == whitelist[l]);
                            assert(front[l].key() != whitelist[n].key());
                        }
                    }
                }
                if is_picked {
                    assert(places[some.len() as int] == n);
                }
                if places.contains(n) && !is_picked {
                    let i = choose|i: int| 0 <= i < some.len() && some[i] == n;
                    assert(some[i] < front.len());
                }
            }
        }
        places
    }
}

/// Every dependency of the packages at the root counts as walked from the start.
pub proof fn law_roots_are_walked(
    deps: Seq<Dependency>,
    whitelist: Seq<PackageId>,
    source: u64,
    i: int,
)
    requires
        0 <= i < deps.len(),
    ensures
        ({
            let walked = walk_seed(deps, whitelist, source).walked;
            exists|w: int|
                {
                    &&& 0 <= w < walked.len()
                    &&& (#[trigger] walked[w]).0 == deps[i].name@
                    &&& walked[w].1 == deps[i].req@ || crate::version::requirements_equal(
                        walked[w].1,
                        deps[i].req@,
                    )
                }
        }),
{
    law_seed_has_no_repeats(deps);
    assert(is_walked(root_walked(deps), (deps[i].name@, deps[i].req@)));
    law_walked(walk_seed(deps, whitelist, source).walked, deps[i].name@, deps[i].req@);
}

/// Nothing but the dependencies of the packages at the root counts as walked
/// from the start. The result gives the place of the dependency.
pub proof fn law_only_roots_are_walked(
    deps: Seq<Dependency>,
    whitelist: Seq<PackageId>,
    source: u64,
    w: int,
) -> (i: int)
    requires
        0 <= w < walk_seed(deps, whitelist, source).walked.len(),
    ensures
        0 <= i < deps.len(),
        walk_seed(deps, whitelist, source).walked[w].0 == deps[i].name@,
        walk_seed(deps, whitelist, source).walked[w].1 == deps[i].req@,
    decreases deps.len(),
{
    let front = deps.drop_last();
    if w < root_walked(front).len() {
        law_only_roots_are_walked(front, whitelist, source, w)
    } else {
        deps.len() - 1
    }
}

/// The values of a list of requests are those of each of them.
pub proof fn law_requests_of(list: Seq<PrefetchRequest>)
    ensures
        requests_of(list).len() == list.len(),
        forall|i: int|
            0 <= i < list.len() ==> {
                &&& (#[trigger] requests_of(list)[i]).name == list[i].name@
                &&& requests_of(list)[i].is_transitive == list[i].is_transitive
                &&& requests_of(list)[i].req is Some <==> list[i].req is Some
                &&& list[i].req matches Some(req) ==> requests_of(list)[i].req == Some(req@)
            },
{
}

/// What taking in a file changes in its summaries: an entry stays, or it was
/// unparsed and holds what `parse` made of the bytes that it pointed to.
pub proof fn law_walk_parses_lines<E, F: Fn(&[u8]) -> Result<IndexSummary, E>>(
    parse: F,
    fetched: Prefetched,
    source: u64,
    old_summaries: Summaries,
    new_summaries: Summaries,
    before: WalkView,
    after: WalkView,
    error: Option<E>,
    i: int,
)
    requires
        versions_walked(
            parse,
            fetched,
            source,
            old_summaries,
            new_summaries,
            before,
            after,
            error,
        ),
        0 <= i < old_summaries.slots().len(),
        new_summaries.slots()[i] != old_summaries.slots()[i],
    ensures
        new_summaries.slots()[i].version == old_summaries.slots()[i].version,
        old_summaries.slots()[i].summary matches MaybeIndexSummary::Unparsed { start, end } && (
        new_summaries.slots()[i].summary matches MaybeIndexSummary::Parsed(s) && exists|
            line: &[u8],
        |
            line@ == old_summaries.raw_data().subrange(start as int, end as int)
                && #[trigger] call_ensures(parse, (line,), Ok::<IndexSummary, E>(s))),
{
    let reqs = fetched.version_reqs@;
    let old_slots = old_summaries.slots();
    let slots = new_summaries.slots();
    let upto = choose|upto: int|
        {
            &&& 0 <= upto <= old_slots.len()
            &&& #[trigger] wanted_parsed(
                parse,
                old_summaries.raw_data(),
                reqs,
                old_slots,
                slots,
                upto,
            )
        };
    assert(i < upto && is_wanted(reqs, old_slots[i].version)) by {
        assert(slots[i] != old_slots[i]);
    }
    assert(crate::summaries::slot_parsed(
        parse,
        old_summaries.raw_data(),
        old_slots[i],
        slots[i],
    ));
}

} // verus!
