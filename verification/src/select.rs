//! Picking a package by name and version.

use crate::error::Error;
use crate::package::{PackageId, PackageIdView};
use crate::version::{version_at_most, version_not_above, version_same, versions_equal};
use vstd::prelude::*;

verus! {

/// The text of an optional text.
pub open spec fn wanted(version: Option<&String>) -> Option<Seq<char>> {
    match version {
        Some(v) => Some(v@),
        None => None,
    }
}

/// `id` answers to a selection by `name` and, where one is given, by
/// `version`.
pub open spec fn answers_to(id: PackageIdView, name: Seq<char>, version: Option<Seq<char>>) -> bool {
    id.name == name && match version {
        None => true,
        Some(v) => version_same(v, id.version) == Some(true),
    }
}

/// Those of `candidates` that answer to the selection, in their order.
pub open spec fn answering(
    candidates: Seq<PackageId>,
    name: Seq<char>,
    version: Option<Seq<char>>,
) -> Seq<PackageId>
    decreases candidates.len(),
{
    if candidates.len() == 0 {
        Seq::empty()
    } else if answers_to(candidates.last()@, name, version) {
        answering(candidates.drop_last(), name, version).push(candidates.last())
    } else {
        answering(candidates.drop_last(), name, version)
    }
}

/// The versions of `ids`, as texts.
pub open spec fn versions_of(ids: Seq<PackageId>) -> Seq<Seq<char>> {
    ids.map_values(|id: PackageId| id.version@)
}

/// What selecting among the project's dependencies comes to: nothing where
/// none answers, the one that answers where one does, a failure that lists
/// their versions where several do.
pub open spec fn selection(found: Seq<PackageId>, res: Result<Option<PackageId>, Error>) -> bool {
    match res {
        Ok(None) => found.len() == 0,
        Ok(Some(id)) => found.len() == 1 && id@ == found[0]@,
        Err(Error::AmbiguousSelection(versions)) => found.len() > 1 && versions.deep_view()
            == versions_of(found),
        Err(_) => false,
    }
}

/// Whether a package answers to a selection, given whether its name is the
/// one asked for and, where a version was asked for, the verdict on its
/// version: `Some(true)` where it is the version asked for.
pub fn answers_with_verdict(name_same: bool, verdict: Option<Option<bool>>) -> (res: bool)
    ensures
        res == (name_same && match verdict {
            None => true,
            Some(v) => v == Some(true),
        }),
{
    name_same && match verdict {
        None => true,
        Some(Some(same)) => same,
        Some(None) => false,
    }
}

/// Whether `id` answers to a selection by `name` and, where one is given,
/// by `version`.
pub fn answers_to_selector(id: &PackageId, name: &String, version: Option<&String>) -> (res: bool)
    ensures
        res == answers_to(id@, name@, wanted(version)),
{
    let verdict = match version {
        None => None,
        Some(v) => Some(versions_equal(v.as_str(), id.version.as_str())),
    };
    answers_with_verdict(id.name == *name, verdict)
}

/// Selects among the project's dependencies by name and, where one is
/// given, by version.
///
/// Gives the dependency that answers, or nothing where none does. Where
/// several do, the selection is ambiguous and fails with their versions.
pub fn select_dependency(candidates: &[PackageId], name: &str, version: Option<&String>) -> (res:
    Result<Option<PackageId>, Error>)
    ensures
        selection(answering(candidates@, name@, wanted(version)), res),
{
    let name_text = name.to_owned();
    let ghost v = wanted(version);
    let mut found: Vec<PackageId> = Vec::new();
    let mut i: usize = 0;
    assert(candidates@.take(0) =~= Seq::<PackageId>::empty());
    while i < candidates.len()
        invariant
            i <= candidates.len(),
            name_text@ == name@,
            v == wanted(version),
            found@.len() == answering(candidates@.take(i as int), name@, v).len(),
            forall|k: int|
                0 <= k < found@.len() ==> found@[k]@ == (#[trigger] answering(
                    candidates@.take(i as int),
                    name@,
                    v,
                )[k])@,
        decreases candidates.len() - i,
    {
        proof {
            assert(candidates@.take(i + 1).drop_last() =~= candidates@.take(i as int));
            assert(candidates@.take(i + 1).last() == candidates@[i as int]);
        }
        if answers_to_selector(&candidates[i], &name_text, version) {
            found.push(candidates[i].clone());
        }
        i = i + 1;
    }
    assert(candidates@.take(candidates@.len() as int) =~= candidates@);
    let ghost all = answering(candidates@, name@, v);
    if found.len() == 0 {
        Ok(None)
    } else if found.len() == 1 {
        Ok(Some(found[0].clone()))
    } else {
        let mut versions: Vec<String> = Vec::new();
        let mut k: usize = 0;
        while k < found.len()
            invariant
                k <= found.len(),
                versions.len() == k,
                found@.len() == all.len(),
                forall|j: int| 0 <= j < found@.len() ==> found@[j]@ == (#[trigger] all[j])@,
                forall|j: int| 0 <= j < k ==> versions@[j]@ == all[j].version@,
            decreases found.len() - k,
        {
            assert(found@[k as int]@ == all[k as int]@);
            versions.push(found[k].version.clone());
            k = k + 1;
        }
        assert(versions.deep_view() =~= versions_of(all));
        Err(Error::AmbiguousSelection(versions))
    }
}

/// Place `i` is the first of `summaries` whose version is `version`.
pub open spec fn first_of_version(summaries: Seq<PackageId>, version: Seq<char>, i: int) -> bool {
    &&& 0 <= i < summaries.len()
    &&& version_same(summaries[i].version@, version) == Some(true)
    &&& forall|j: int|
        0 <= j < i ==> version_same((#[trigger] summaries[j]).version@, version) != Some(true)
}

/// The place of the latest of `summaries`, which is not empty: going
/// through them in order, a package takes the lead from the one that has it
/// where its version is the same or later.
pub open spec fn latest(summaries: Seq<PackageId>) -> int
    decreases summaries.len(),
{
    if summaries.len() <= 1 {
        0
    } else {
        let lead = latest(summaries.drop_last());
        if version_at_most(summaries[lead].version@, summaries.last().version@) == Some(true) {
            summaries.len() - 1
        } else {
            lead
        }
    }
}

/// What selecting among the packages of a registry comes to: with a
/// version, the first package of that version; without, the latest.
pub open spec fn independent_selection(
    summaries: Seq<PackageId>,
    version: Option<Seq<char>>,
    res: Option<PackageId>,
) -> bool {
    match version {
        Some(v) => match res {
            Some(id) => exists|i: int|
                #[trigger] first_of_version(summaries, v, i) && id@ == summaries[i]@,
            None => forall|i: int|
                0 <= i < summaries.len() ==> version_same(
                    (#[trigger] summaries[i]).version@,
                    v,
                ) != Some(true),
        },
        None => match res {
            Some(id) => summaries.len() > 0 && id@ == summaries[latest(summaries)]@,
            None => summaries.len() == 0,
        },
    }
}

/// Whether a package takes the lead, given the verdict on whether the
/// version that leads is at most its own.
pub fn takes_lead(verdict: Option<bool>) -> (res: bool)
    ensures
        res == (verdict == Some(true)),
{
    match verdict {
        Some(at_most) => at_most,
        None => false,
    }
}

/// Selects among the packages that a registry has under one name: the
/// first of the version asked for or, where none is asked for, the latest.
pub fn select_independent(summaries: &[PackageId], version: Option<&String>) -> (res: Option<
    PackageId,
>)
    ensures
        independent_selection(summaries@, wanted(version), res),
{
    match version {
        Some(v) => {
            let mut i: usize = 0;
            while i < summaries.len()
                invariant
                    i <= summaries.len(),
                    wanted(version) == Some(v@),
                    forall|j: int|
                        0 <= j < i ==> version_same((#[trigger] summaries@[j]).version@, v@)
                            != Some(true),
                decreases summaries.len() - i,
            {
                let verdict = versions_equal(summaries[i].version.as_str(), v.as_str());
                if takes_lead(verdict) {
                    let picked = summaries[i].clone();
                    assert(first_of_version(summaries@, v@, i as int) && picked@
                        == summaries@[i as int]@);
                    return Some(picked);
                }
                i = i + 1;
            }
            None
        },
        None => {
            if summaries.len() == 0 {
                return None;
            }
            let mut lead: usize = 0;
            let mut i: usize = 1;
            assert(summaries@.take(1).len() == 1);
            while i < summaries.len()
                invariant
                    1 <= i <= summaries.len(),
                    lead < i,
                    lead == latest(summaries@.take(i as int)),
                decreases summaries.len() - i,
            {
                proof {
                    assert(summaries@.take(i + 1).drop_last() =~= summaries@.take(i as int));
                    assert(summaries@.take(i + 1).last() == summaries@[i as int]);
                    assert(summaries@.take(i + 1)[lead as int] == summaries@[lead as int]);
                }
                let verdict = version_not_above(
                    summaries[lead].version.as_str(),
                    summaries[i].version.as_str(),
                );
                if takes_lead(verdict) {
                    lead = i;
                }
                i = i + 1;
            }
            assert(summaries@.take(summaries@.len() as int) =~= summaries@);
            Some(summaries[lead].clone())
        },
    }
}

/// Turns a selection that found nothing into a failure, which keeps
/// whether packages other than the project's dependencies were looked at.
pub fn require_found(found: Option<PackageId>, unrelated: bool) -> (res: Result<PackageId, Error>)
    ensures
        match found {
            Some(id) => res == Ok::<PackageId, Error>(id),
            None => res == Err::<PackageId, Error>(Error::CrateNotFound { unrelated }),
        },
{
    match found {
        Some(id) => Ok(id),
        None => Err(Error::CrateNotFound { unrelated }),
    }
}

} // verus!
