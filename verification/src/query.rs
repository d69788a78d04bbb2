//! What is offered to those who ask for a package.

use crate::package::{contains_package, IndexSummary, PackageId, Summary};
use crate::precise::PreciseError;
use crate::text::same_text;
use vstd::prelude::*;

verus! {

/// Whether a summary may be offered: it is not yanked, or its package is in
/// the whitelist.
pub open spec fn is_allowed(summary: IndexSummary, whitelist: Seq<PackageId>) -> bool {
    !summary.yanked || crate::package::listed(whitelist, summary.summary.package_id.key())
}

/// The summaries that may be offered, of packages that are at hand.
pub open spec fn offered(
    found: Seq<IndexSummary>,
    at_hand: Seq<bool>,
    whitelist: Seq<PackageId>,
) -> Seq<Summary>
    decreases found.len(),
{
    if found.len() == 0 {
        Seq::empty()
    } else {
        let front = offered(found.drop_last(), at_hand, whitelist);
        if at_hand[found.len() - 1] && is_allowed(found.last(), whitelist) {
            front.push(found.last().summary)
        } else {
            front
        }
    }
}

/// The summaries whose version has the given text.
pub open spec fn of_version(list: Seq<Summary>, text: Seq<char>) -> Seq<Summary>
    decreases list.len(),
{
    if list.len() == 0 {
        Seq::empty()
    } else if crate::version::version_text(list.last().package_id.version@) == text {
        of_version(list.drop_last(), text).push(list.last())
    } else {
        of_version(list.drop_last(), text)
    }
}

/// What is left of some summaries once the registry is pinned. What it is
/// pinned to does not matter where there is nothing to choose from.
pub open spec fn narrowed(
    list: Seq<Summary>,
    target: Result<Option<Seq<char>>, PreciseError>,
) -> Result<Seq<Summary>, PreciseError> {
    if list.len() == 0 {
        Ok(list)
    } else {
        match target {
            Ok(None) => Ok(list),
            Ok(Some(text)) => Ok(of_version(list, text)),
            Err(e) => Err(e),
        }
    }
}

/// Whether `at_hand` may tell which of the candidates are at hand: all of them
/// when online, where nothing is asked about downloads, and those that were
/// downloaded otherwise.
pub open spec fn are_at_hand<D: Fn(&PackageId) -> bool>(
    is_downloaded: Option<&D>,
    found: Seq<IndexSummary>,
    at_hand: Seq<bool>,
) -> bool {
    &&& at_hand.len() == found.len()
    &&& forall|i: int|
        0 <= i < found.len() ==> match is_downloaded {
            None => #[trigger] at_hand[i],
            Some(ask) => call_ensures(*ask, (&found[i].summary.package_id,), at_hand[i]),
        }
}

/// The answer to a query, if `at_hand` tells which candidates are at hand.
pub open spec fn query_answer(
    found: Seq<IndexSummary>,
    at_hand: Seq<bool>,
    whitelist: Seq<PackageId>,
    target: Result<Option<Seq<char>>, PreciseError>,
) -> Result<Seq<Summary>, PreciseError> {
    narrowed(offered(found, at_hand, whitelist), target)
}

/// Whether some candidates may be the answer to a query.
pub open spec fn is_answer<D: Fn(&PackageId) -> bool>(
    is_downloaded: Option<&D>,
    found: Seq<IndexSummary>,
    whitelist: Seq<PackageId>,
    target: Result<Option<Seq<char>>, PreciseError>,
    answer: Result<Seq<Summary>, PreciseError>,
) -> bool {
    exists|at_hand: Seq<bool>| #[trigger]
        are_at_hand(is_downloaded, found, at_hand) && answer == query_answer(
            found,
            at_hand,
            whitelist,
            target,
        )
}

/// The value of an answer.
pub open spec fn answer_of(r: Result<Vec<&Summary>, PreciseError>) -> Result<
    Seq<Summary>,
    PreciseError,
> {
    match r {
        Ok(list) => Ok(crate::summaries::values(list@)),
        Err(e) => Err(e),
    }
}

/// Picks the summaries that may be offered.
///
/// When online everything is at hand, and there is nobody to ask about
/// downloads.
pub fn offer<'a, D: Fn(&PackageId) -> bool>(
    found: Vec<&'a IndexSummary>,
    yanked_whitelist: &Vec<PackageId>,
    is_downloaded: Option<&D>,
) -> (r: Vec<&'a Summary>)
    requires
        is_downloaded matches Some(ask) ==> forall|pkg: &PackageId| call_requires(*ask, (pkg,)),
    ensures
        exists|at_hand: Seq<bool>| #[trigger]
            are_at_hand(is_downloaded, crate::summaries::values(found@), at_hand)
                && crate::summaries::values(r@) == offered(
                crate::summaries::values(found@),
                at_hand,
                yanked_whitelist@,
            ),
{
    let ghost all = crate::summaries::values(found@);
    let ghost mut at_hand: Seq<bool> = Seq::empty();
    let mut out: Vec<&'a Summary> = Vec::new();
    let mut i: usize = 0;
    while i < found.len()
        invariant
            i <= found@.len(),
            all == crate::summaries::values(found@),
            is_downloaded matches Some(ask) ==> forall|pkg: &PackageId|
                call_requires(*ask, (pkg,)),
            are_at_hand(is_downloaded, all.take(i as int), at_hand),
            crate::summaries::values(out@) == offered(
                all.take(i as int),
                at_hand,
                yanked_whitelist@,
            ),
        decreases found@.len() - i,
    {
        let s: &'a IndexSummary = found[i];
        let here = match is_downloaded {
            None => true,
            Some(ask) => ask(&s.summary.package_id),
        };
        let ghost before = at_hand;
        proof {
            at_hand = at_hand.push(here);
            assert(all.take(i + 1).drop_last() =~= all.take(i as int));
            lemma_offered_prefix(all.take(i as int), before, at_hand, yanked_whitelist@);
        }
        if here && (!s.yanked || contains_package(yanked_whitelist, &s.summary.package_id)) {
            out.push(&s.summary);
        }
        i += 1;
    }
    assert(all.take(i as int) =~= all);
    out
}

/// What is offered depends on the given candidates only.
proof fn lemma_offered_prefix(
    found: Seq<IndexSummary>,
    a: Seq<bool>,
    b: Seq<bool>,
    whitelist: Seq<PackageId>,
)
    requires
        forall|i: int| 0 <= i < found.len() ==> a[i] == #[trigger] b[i],
    ensures
        offered(found, a, whitelist) == offered(found, b, whitelist),
    decreases found.len(),
{
    if found.len() > 0 {
        lemma_offered_prefix(found.drop_last(), a, b, whitelist);
    }
}

/// Keeps what a pinned registry leaves of some summaries.
pub fn narrow<'a>(
    list: Vec<&'a Summary>,
    target: Result<Option<String>, PreciseError>,
) -> (r: Result<Vec<&'a Summary>, PreciseError>)
    ensures
        answer_of(r) == narrowed(
            crate::summaries::values(list@),
            crate::precise::target_of(target),
        ),
{
    if list.len() == 0 {
        return Ok(list);
    }
    let text = match target {
        Ok(Some(text)) => text,
        Ok(None) => {
            return Ok(list);
        },
        Err(e) => {
            return Err(e);
        },
    };
    let ghost all = crate::summaries::values(list@);
    let mut out: Vec<&'a Summary> = Vec::new();
    let mut i: usize = 0;
    while i < list.len()
        invariant
            i <= list@.len(),
            all == crate::summaries::values(list@),
            crate::summaries::values(out@) == of_version(all.take(i as int), text@),
        decreases list@.len() - i,
    {
        let s: &'a Summary = list[i];
        assert(all.take(i + 1).drop_last() =~= all.take(i as int));
        if same_text(&s.package_id.version.to_text(), &text) {
            out.push(s);
        }
        i += 1;
    }
    assert(all.take(i as int) =~= all);
    Ok(out)
}

/// Where the offered summaries come from.
proof fn lemma_offered_places(
    found: Seq<IndexSummary>,
    at_hand: Seq<bool>,
    whitelist: Seq<PackageId>,
)
    ensures
        forall|i: int|
            0 <= i < offered(found, at_hand, whitelist).len() ==> exists|j: int|
                0 <= j < found.len() && #[trigger] at_hand[j] && is_allowed(found[j], whitelist)
                    && #[trigger] offered(found, at_hand, whitelist)[i] == found[j].summary,
        forall|j: int|
            0 <= j < found.len() && #[trigger] at_hand[j] && is_allowed(found[j], whitelist)
                ==> offered(found, at_hand, whitelist).contains(found[j].summary),
    decreases found.len(),
{
    if found.len() > 0 {
        let front = found.drop_last();
        let n = found.len() - 1;
        lemma_offered_places(front, at_hand, whitelist);
        let all = offered(found, at_hand, whitelist);
        let some = offered(front, at_hand, whitelist);
        assert forall|j: int|
            0 <= j < found.len() && #[trigger] at_hand[j] && is_allowed(
                found[j],
                whitelist,
            ) implies all.contains(found[j].summary) by {
            if j < n {
                let i = choose|i: int| 0 <= i < some.len() && some[i] == found[j].summary;
                assert(all[i] == some[i]);
            } else {
                assert(all[some.len() as int] == found[j].summary);
            }
        }
    }
}

/// The summaries of one version are among those that they were picked from.
proof fn lemma_of_version(list: Seq<Summary>, text: Seq<char>)
    ensures
        forall|s: Summary| #[trigger]
            of_version(list, text).contains(s) <==> list.contains(s)
                && crate::version::version_text(s.package_id.version@) == text,
    decreases list.len(),
{
    if list.len() > 0 {
        let front = list.drop_last();
        let all = of_version(list, text);
        let some = of_version(front, text);
        lemma_of_version(front, text);
        assert forall|s: Summary| #[trigger] all.contains(s) <==> list.contains(s)
            && crate::version::version_text(s.package_id.version@) == text by {
            assert(list.contains(s) <==> front.contains(s) || list.last() == s) by {
                if list.contains(s) && list.last() != s {
                    let i = choose|i: int| 0 <= i < list.len() && list[i] == s;
                    assert(front[i] == s);
                }
            }
            if all == some.push(list.last()) {
                assert(all.contains(s) <==> some.contains(s) || list.last() == s) by {
                    if some.contains(s) {
                        let i = choose|i: int| 0 <= i < some.len() && some[i] == s;
                        assert(all[i] == s);
                    }
                    assert(all[some.len() as int] == list.last());
                }
            }
        }
    }
}

/// What a query offers: the candidates that are at hand and not yanked, or
/// yanked and in the whitelist, and of these, where the registry is pinned for
/// the package, those of the version that it is pinned to.
pub proof fn law_query_answer(
    found: Seq<IndexSummary>,
    at_hand: Seq<bool>,
    whitelist: Seq<PackageId>,
    target: Result<Option<Seq<char>>, PreciseError>,
    summary: Summary,
)
    requires
        at_hand.len() == found.len(),
        target is Ok,
    ensures
        query_answer(found, at_hand, whitelist, target) matches Ok(answer) && (answer.contains(
            summary,
        ) <==> {
            &&& exists|j: int|
                0 <= j < found.len() && #[trigger] at_hand[j] && is_allowed(found[j], whitelist)
                    && found[j].summary == summary
            &&& target->Ok_0 matches Some(text) ==> crate::version::version_text(
                summary.package_id.version@,
            ) == text
        }),
{
    lemma_offered_places(found, at_hand, whitelist);
    let list = offered(found, at_hand, whitelist);
    if let Some(text) = target->Ok_0 {
        lemma_of_version(list, text);
    }
}

/// Being offline never adds to an answer: what is offered of the packages that
/// were downloaded is offered online too.
pub proof fn law_offline_offers_less(
    found: Seq<IndexSummary>,
    downloaded: Seq<bool>,
    everything: Seq<bool>,
    whitelist: Seq<PackageId>,
    target: Result<Option<Seq<char>>, PreciseError>,
    summary: Summary,
)
    requires
        downloaded.len() == found.len(),
        everything.len() == found.len(),
        forall|i: int| 0 <= i < found.len() ==> #[trigger] everything[i],
        target is Ok,
        query_answer(found, downloaded, whitelist, target)->Ok_0.contains(summary),
    ensures
        query_answer(found, everything, whitelist, target)->Ok_0.contains(summary),
{
    law_query_answer(found, downloaded, whitelist, target, summary);
    law_query_answer(found, everything, whitelist, target, summary);
    let j = choose|j: int|
        0 <= j < found.len() && #[trigger] downloaded[j] && is_allowed(found[j], whitelist)
            && found[j].summary == summary;
    assert(everything[j]);
}

/// A query is an error only where something could be offered.
pub proof fn law_query_error(
    found: Seq<IndexSummary>,
    at_hand: Seq<bool>,
    whitelist: Seq<PackageId>,
    target: Result<Option<Seq<char>>, PreciseError>,
    e: PreciseError,
)
    ensures
        query_answer(found, at_hand, whitelist, target) == Err::<Seq<Summary>, PreciseError>(e)
            <==> target == Err::<Option<Seq<char>>, PreciseError>(e) && exists|j: int|
            0 <= j < found.len() && #[trigger] at_hand[j] && is_allowed(found[j], whitelist),
{
    lemma_offered_places(found, at_hand, whitelist);
    let list = offered(found, at_hand, whitelist);
    if list.len() > 0 {
        let j = choose|j: int|
            0 <= j < found.len() && #[trigger] at_hand[j] && is_allowed(found[j], whitelist)
                && list[0] == found[j].summary;
        assert(at_hand[j]);
    }
}

/// A registry that is pinned to a move of the package from one version to
/// another offers, of what it would offer otherwise, the summaries of the new
/// version to requirements that let the old version through, and everything to
/// the others.
pub proof fn law_pinned_query(
    found: Seq<IndexSummary>,
    at_hand: Seq<bool>,
    whitelist: Seq<PackageId>,
    name: Seq<char>,
    from: Seq<char>,
    to: Seq<char>,
    req: Option<Seq<char>>,
)
    requires
        at_hand.len() == found.len(),
        crate::version::version_parse(from) is Ok,
    ensures
        ({
            let pin = name + seq!['='] + (from + seq!['-', '>'] + to);
            let free = query_answer(found, at_hand, whitelist, Ok(None))->Ok_0;
            query_answer(
                found,
                at_hand,
                whitelist,
                crate::precise::precise_target(Some(pin), name, req),
            ) == Ok::<Seq<Summary>, PreciseError>(
                if crate::version::req_matches(req, crate::version::version_parse(from)->Ok_0) {
                    of_version(free, to)
                } else {
                    free
                },
            )
        }),
{
    crate::precise::law_precise_request(name, from, to, req);
    let free = offered(found, at_hand, whitelist);
    if free.len() == 0 {
        assert(of_version(free, to) =~= free);
    }
}

/// The places that the offered summaries come from, in order.
proof fn lemma_picked(
    found: Seq<IndexSummary>,
    at_hand: Seq<bool>,
    whitelist: Seq<PackageId>,
    target: Option<Seq<char>>,
) -> (places: Seq<int>)
    ensures
        ({
            let list = match target {
                None => offered(found, at_hand, whitelist),
                Some(text) => of_version(offered(found, at_hand, whitelist), text),
            };
            &&& list.len() == places.len()
            &&& forall|i: int|
                0 <= i < places.len() ==> 0 <= #[trigger] places[i] < found.len() && list[i]
                    == found[places[i]].summary
        }),
        forall|i: int, j: int| 0 <= i < j < places.len() ==> places[i] < places[j],
        forall|j: int|
            0 <= j < found.len() ==> (#[trigger] places.contains(j) <==> {
                &&& at_hand[j]
                &&& is_allowed(found[j], whitelist)
                &&& target matches Some(text) ==> crate::version::version_text(
                    found[j].summary.package_id.version@,
                ) == text
            }),
    decreases found.len(),
{
    if found.len() == 0 {
        Seq::empty()
    } else {
        let n = found.len() - 1;
        let front = found.drop_last();
        let some = lemma_picked(front, at_hand, whitelist, target);
        let all = offered(found, at_hand, whitelist);
        let is_offered = at_hand[n] && is_allowed(found[n], whitelist);
        let is_picked = is_offered && (target matches Some(text) ==> crate::version::version_text(
            found[n].summary.package_id.version@,
        ) == text);
        if is_offered {
            assert(all.drop_last() =~= offered(front, at_hand, whitelist));
        }
        let places = if is_picked {
            some.push(n)
        } else {
            some
        };
        assert forall|j: int| 0 <= j < found.len() implies (#[trigger] places.contains(j) <==> {
            &&& at_hand[j]
            &&& is_allowed(found[j], whitelist)
            &&& target matches Some(text) ==> crate::version::version_text(
                found[j].summary.package_id.version@,
            ) == text
        }) by {
            if j < n {
                assert(front[j] == found[j]);
                if some.contains(j) {
                    let i = choose|i: int| 0 <= i < some.len() && some[i] == j;
                    assert(places[i] == j);
                }
                if places.contains(j) {
                    let i = choose|i: int| 0 <= i < places.len() && places[i] == j;
                    assert(some[i] == j);
                }
            } else {
                if is_picked {
                    assert(places[some.len() as int] == n);
                }
                if places.contains(n) && !is_picked {
                    let i = choose|i: int| 0 <= i < some.len() && some[i] == n;
                    assert(some[i] < front.len());
                }
            }
        }
        places
    }
}

/// What a query answers, said of the candidates one by one.
///
/// Online every candidate is at hand, and offline those that were downloaded.
/// A candidate that is at hand is offered if it is not yanked, or if some place
/// of the whitelist, whichever, holds a package with the same name, the same
/// version, build metadata aside, and the same source. Where the registry is
/// pinned to a version, it must have that version too. Each is given once, in
/// the order of the candidates, and nothing else is given. An error comes where
/// the pin cannot be read and something would be offered.
pub proof fn law_every_candidate<D: Fn(&PackageId) -> bool>(
    is_downloaded: Option<&D>,
    found: Seq<IndexSummary>,
    whitelist: Seq<PackageId>,
    target: Result<Option<Seq<char>>, PreciseError>,
    answer: Result<Seq<Summary>, PreciseError>,
) -> (r: (Seq<bool>, Seq<int>))
    requires
        is_answer(is_downloaded, found, whitelist, target, answer),
    ensures
        r.0.len() == found.len(),
        is_downloaded is None ==> forall|j: int| 0 <= j < found.len() ==> #[trigger] r.0[j],
        is_downloaded matches Some(ask) ==> forall|j: int|
            0 <= j < found.len() ==> call_ensures(
                *ask,
                (&found[j].summary.package_id,),
                #[trigger] r.0[j],
            ),
        forall|j: int|
            0 <= j < found.len() ==> (#[trigger] r.1.contains(j) <==> {
                &&& r.0[j]
                &&& found[j].yanked ==> exists|k: int|
                    {
                        let package = found[j].summary.package_id;
                        &&& 0 <= k < whitelist.len()
                        &&& (#[trigger] whitelist[k]).name@ == package.name@
                        &&& whitelist[k].version@.major == package.version@.major
                        &&& whitelist[k].version@.minor == package.version@.minor
                        &&& whitelist[k].version@.patch == package.version@.patch
                        &&& whitelist[k].version@.pre == package.version@.pre
                        &&& whitelist[k].source_id.id == package.source_id.id
                    }
                &&& target matches Ok(Some(text)) ==> crate::version::version_text(
                    found[j].summary.package_id.version@,
                ) == text
            }),
        forall|i: int| 0 <= i < r.1.len() ==> 0 <= #[trigger] r.1[i] < found.len(),
        forall|i: int, j: int| 0 <= i < j < r.1.len() ==> r.1[i] < r.1[j],
        answer matches Ok(list) ==> {
            &&& target is Err ==> r.1.len() == 0
            &&& list.len() == r.1.len()
            &&& forall|i: int|
                0 <= i < list.len() ==> #[trigger] list[i] == found[r.1[i]].summary
        },
        answer matches Err(e) ==> {
            &&& target == Err::<Option<Seq<char>>, PreciseError>(e)
            &&& r.1.len() > 0
        },
{
    let at_hand = choose|at_hand: Seq<bool>| #[trigger]
        are_at_hand(is_downloaded, found, at_hand) && answer == query_answer(
            found,
            at_hand,
            whitelist,
            target,
        );
    let text = match target {
        Ok(text) => text,
        Err(_) => None,
    };
    let places = lemma_picked(found, at_hand, whitelist, text);
    assert forall|j: int| 0 <= j < found.len() implies (is_allowed(found[j], whitelist)
        <==> (found[j].yanked ==> exists|k: int|
        {
            let package = found[j].summary.package_id;
            &&& 0 <= k < whitelist.len()
            &&& (#[trigger] whitelist[k]).name@ == package.name@
            &&& whitelist[k].version@.major == package.version@.major
            &&& whitelist[k].version@.minor == package.version@.minor
            &&& whitelist[k].version@.patch == package.version@.patch
            &&& whitelist[k].version@.pre == package.version@.pre
            &&& whitelist[k].source_id.id == package.source_id.id
        })) by {
        crate::package::law_listed(whitelist, &found[j].summary.package_id);
    }
    (at_hand, places)
}

/// The order of the whitelist, and how often a package stands in it, do not
/// matter: two whitelists that hold the same packages give the same answers.
pub proof fn law_whitelist_order(
    found: Seq<IndexSummary>,
    at_hand: Seq<bool>,
    one: Seq<PackageId>,
    other: Seq<PackageId>,
    target: Result<Option<Seq<char>>, PreciseError>,
)
    requires
        forall|p: PackageId| one.contains(p) <==> other.contains(p),
    ensures
        query_answer(found, at_hand, one, target) == query_answer(found, at_hand, other, target),
{
    lemma_whitelist_order(found, at_hand, one, other);
}

proof fn lemma_whitelist_order(
    found: Seq<IndexSummary>,
    at_hand: Seq<bool>,
    one: Seq<PackageId>,
    other: Seq<PackageId>,
)
    requires
        forall|p: PackageId| one.contains(p) <==> other.contains(p),
    ensures
        offered(found, at_hand, one) == offered(found, at_hand, other),
    decreases found.len(),
{
    if found.len() > 0 {
        lemma_whitelist_order(found.drop_last(), at_hand, one, other);
        let key = found.last().summary.package_id.key();
        if crate::package::listed(one, key) {
            let k = choose|k: int| 0 <= k < one.len() && (#[trigger] one[k]).key() == key;
            assert(one.contains(one[k]));
            let l = choose|l: int| 0 <= l < other.len() && other[l] == one[k];
            assert(other[l].key() == key);
        }
        if crate::package::listed(other, key) {
            let k = choose|k: int| 0 <= k < other.len() && (#[trigger] other[k]).key() == key;
            assert(other.contains(other[k]));
            let l = choose|l: int| 0 <= l < one.len() && one[l] == other[k];
            assert(one[l].key() == key);
        }
    }
}

/// A package in front of the whitelist that none of the candidates is does not
/// matter.
pub proof fn law_unrelated_package(
    found: Seq<IndexSummary>,
    at_hand: Seq<bool>,
    package: PackageId,
    whitelist: Seq<PackageId>,
    target: Result<Option<Seq<char>>, PreciseError>,
)
    requires
        forall|j: int|
            0 <= j < found.len() ==> {
                let other = (#[trigger] found[j]).summary.package_id;
                ||| other.name@ != package.name@
                ||| other.version@.major != package.version@.major
                ||| other.version@.minor != package.version@.minor
                ||| other.version@.patch != package.version@.patch
                ||| other.version@.pre != package.version@.pre
                ||| other.source_id.id != package.source_id.id
            },
    ensures
        query_answer(found, at_hand, seq![package] + whitelist, target) == query_answer(
            found,
            at_hand,
            whitelist,
            target,
        ),
{
    lemma_unrelated_package(found, at_hand, package, whitelist);
}

proof fn lemma_unrelated_package(
    found: Seq<IndexSummary>,
    at_hand: Seq<bool>,
    package: PackageId,
    whitelist: Seq<PackageId>,
)
    requires
        forall|j: int|
            0 <= j < found.len() ==> {
                let other = (#[trigger] found[j]).summary.package_id;
                ||| other.name@ != package.name@
                ||| other.version@.major != package.version@.major
                ||| other.version@.minor != package.version@.minor
                ||| other.version@.patch != package.version@.patch
                ||| other.version@.pre != package.version@.pre
                ||| other.source_id.id != package.source_id.id
            },
    ensures
        offered(found, at_hand, seq![package] + whitelist) == offered(found, at_hand, whitelist),
    decreases found.len(),
{
    if found.len() > 0 {
        lemma_unrelated_package(found.drop_last(), at_hand, package, whitelist);
        let other = found.last().summary.package_id;
        crate::package::law_listed_in_parts(seq![package], whitelist, other.key());
        crate::package::law_packages_are_told_apart(&other, &package);
        assert(found[found.len() - 1] == found.last());
        assert(!crate::package::listed(seq![package], other.key()));
    }
}

} // verus!
