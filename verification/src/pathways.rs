use vstd::prelude::*;

use crate::issue::{Issue, IssueType, IssueView, Severity, issues_view};
use crate::stops::{LocationType, Pathway, Stop, StopMap};

verus! {

// ---------------------------------------------------------------------------
// The model
// ---------------------------------------------------------------------------

/// The stop under `key`, if there is one.
pub open spec fn lookup(m: Map<Seq<char>, Stop>, key: Seq<char>) -> Option<Stop> {
    if m.contains_key(key) {
        Some(m[key])
    } else {
        None
    }
}

/// The stop under the key that `stop` names as its parent station, if both exist.
pub open spec fn parent_of(stop: Stop, m: Map<Seq<char>, Stop>) -> Option<Stop> {
    match stop.parent_station {
        Some(p) => lookup(m, p@),
        None => None,
    }
}

/// The station that `stop` belongs to: a station is its own (looked up under
/// its id), an entrance, platform or generic node has its parent, a boarding
/// area has the parent of its parent, and a location of unknown type has none.
pub open spec fn oldest_ancestor(stop: Stop, m: Map<Seq<char>, Stop>) -> Option<Stop> {
    match stop.location_type {
        LocationType::StopArea => lookup(m, stop.id@),
        LocationType::StationEntrance | LocationType::StopPoint | LocationType::GenericNode => {
            parent_of(stop, m)
        },
        LocationType::BoardingArea => match parent_of(stop, m) {
            Some(parent) => parent_of(parent, m),
            None => None,
        },
        LocationType::Unknown(_) => None,
    }
}

/// The two stops that a pathway links, if both exist.
pub open spec fn endpoints(p: Pathway, m: Map<Seq<char>, Stop>) -> Option<(Stop, Stop)> {
    match (lookup(m, p.from_stop_id@), lookup(m, p.to_stop_id@)) {
        (Some(a), Some(b)) => Some((a, b)),
        _ => None,
    }
}

/// Both stops of the pathway exist, both have an oldest ancestor, and the two
/// ancestors have the same id.
pub open spec fn same_ancestor(p: Pathway, m: Map<Seq<char>, Stop>) -> bool {
    match endpoints(p, m) {
        Some((a, b)) => match (oldest_ancestor(a, m), oldest_ancestor(b, m)) {
            (Some(x), Some(y)) => x.id@ == y.id@,
            _ => false,
        },
        None => false,
    }
}

/// All the pathways of the stops, stop after stop, each stop's in its order.
pub open spec fn all_pathways(stops: Seq<Stop>) -> Seq<Pathway>
    decreases stops.len(),
{
    if stops.len() == 0 {
        Seq::empty()
    } else {
        all_pathways(stops.drop_last()) + stops.last().pathways@
    }
}

/// The explanation of an issue about a pathway whose stops have different ancestors.
pub open spec fn ancestor_message(p: Pathway) -> Seq<char> {
    "the pathway with id "@ + p.id@ + "   connects stops "@ + p.from_stop_id@ + " to stop "@
        + p.to_stop_id@ + " having different ancestor "@
}

/// The issue about a pathway whose stops have different ancestors.
pub open spec fn ancestor_issue(p: Pathway) -> IssueView {
    IssueView {
        severity: Severity::Error,
        issue_type: IssueType::PathwayIncompatibleAncestor,
        object_id: p.id@,
        details: Some(ancestor_message(p)),
    }
}

/// The explanation of an issue about a pathway that spans more than `threshold` meters.
pub open spec fn distance_message(p: Pathway, threshold: Seq<char>) -> Seq<char> {
    "the pathway with id "@ + p.id@ + "   connects stops "@ + p.from_stop_id@ + " to stop "@
        + p.to_stop_id@ + " spans a distance more than the user provided threshold "@ + threshold
        + " meters"@
}

/// The issue about a pathway that spans more than `threshold` meters.
pub open spec fn distance_issue(p: Pathway, threshold: Seq<char>) -> IssueView {
    IssueView {
        severity: Severity::Error,
        issue_type: IssueType::PathwayConnectingStopsTooFar,
        object_id: p.id@,
        details: Some(distance_message(p, threshold)),
    }
}

/// One issue for each pathway, in order, that does not link stops with the same ancestor.
pub open spec fn ancestor_issues(ps: Seq<Pathway>, m: Map<Seq<char>, Stop>) -> Seq<IssueView>
    decreases ps.len(),
{
    if ps.len() == 0 {
        Seq::empty()
    } else if same_ancestor(ps.last(), m) {
        ancestor_issues(ps.drop_last(), m)
    } else {
        ancestor_issues(ps.drop_last(), m).push(ancestor_issue(ps.last()))
    }
}

/// One issue for each pathway, in order, whose verdict is that it spans too far.
pub open spec fn distance_issues(ps: Seq<Pathway>, verdicts: Seq<bool>, threshold: Seq<char>) -> Seq<
    IssueView,
>
    decreases ps.len(),
{
    if ps.len() == 0 {
        Seq::empty()
    } else if verdicts[ps.len() - 1] {
        distance_issues(ps.drop_last(), verdicts, threshold).push(
            distance_issue(ps.last(), threshold),
        )
    } else {
        distance_issues(ps.drop_last(), verdicts, threshold)
    }
}

/// `v` is what the distance test answers for the pathway: the answer of
/// `too_far` on its two stops when both exist, and no otherwise.
pub open spec fn verdict_fits<F: Fn(&Stop, &Stop) -> bool>(
    too_far: F,
    p: Pathway,
    m: Map<Seq<char>, Stop>,
    v: bool,
) -> bool {
    match endpoints(p, m) {
        Some((a, b)) => too_far.ensures((&a, &b), v),
        None => !v,
    }
}

/// `verdicts` holds, pathway by pathway, what the distance test answers.
pub open spec fn verdicts_fit<F: Fn(&Stop, &Stop) -> bool>(
    too_far: F,
    ps: Seq<Pathway>,
    m: Map<Seq<char>, Stop>,
    verdicts: Seq<bool>,
) -> bool {
    &&& verdicts.len() == ps.len()
    &&& forall|i: int| 0 <= i < ps.len() ==> #[trigger] verdict_fits(too_far, ps[i], m, verdicts[i])
}

/// `too_far` can be asked about any two stops.
pub open spec fn callable_on_all_stops<F: Fn(&Stop, &Stop) -> bool>(too_far: F) -> bool {
    forall|a: &Stop, b: &Stop| #[trigger] too_far.requires((a, b))
}

/// The stop that an optional reference points to.
pub open spec fn opt_deref(o: Option<&Stop>) -> Option<Stop> {
    match o {
        Some(s) => Some(*s),
        None => None,
    }
}

// ---------------------------------------------------------------------------
// Ancestors
// ---------------------------------------------------------------------------

/// The station that `stop` belongs to, found in `all_stops`.
pub fn get_oldest_ancestor<'a>(stop: &Stop, all_stops: &'a StopMap) -> (r: Option<&'a Stop>)
    ensures
        opt_deref(r) == oldest_ancestor(*stop, all_stops@),
{
    match stop.location_type {
        LocationType::StopArea => all_stops.get(&stop.id),
        LocationType::StationEntrance | LocationType::StopPoint | LocationType::GenericNode => {
            match &stop.parent_station {
                Some(p) => all_stops.get(p),
                None => None,
            }
        },
        LocationType::BoardingArea => {
            let immediate_parent = match &stop.parent_station {
                Some(p) => all_stops.get(p),
                None => None,
            };
            match immediate_parent {
                Some(parent) => match &parent.parent_station {
                    Some(p) => all_stops.get(p),
                    None => None,
                },
                None => None,
            }
        },
        LocationType::Unknown(_) => None,
    }
}

/// Whether the pathway links two stops of the same station.
pub fn pathway_connecting_stops_with_same_ancestor(pathway: &Pathway, all_stops: &StopMap) -> (r:
    bool)
    ensures
        r == same_ancestor(*pathway, all_stops@),
{
    let (from_stop, to_stop) = match (
        all_stops.get(&pathway.from_stop_id),
        all_stops.get(&pathway.to_stop_id),
    ) {
        (Some(a), Some(b)) => (a, b),
        _ => {
            return false;
        },
    };
    let ancestor_of_origin = get_oldest_ancestor(from_stop, all_stops);
    let ancestor_of_source = get_oldest_ancestor(to_stop, all_stops);
    match (ancestor_of_origin, ancestor_of_source) {
        (Some(x), Some(y)) => x.id == y.id,
        _ => false,
    }
}

/// Whether the pathway links two stops that `too_far` judges too far apart;
/// a pathway whose stops are not both known spans no distance.
pub fn pathway_spanning_distance_above_threshold<F: Fn(&Stop, &Stop) -> bool>(
    pathway: &Pathway,
    all_stops: &StopMap,
    too_far: &F,
) -> (r: bool)
    requires
        callable_on_all_stops(*too_far),
    ensures
        verdict_fits(*too_far, *pathway, all_stops@, r),
{
    let from_stop = all_stops.get(&pathway.from_stop_id);
    let to_stop = all_stops.get(&pathway.to_stop_id);
    match (from_stop, to_stop) {
        (Some(a), Some(b)) => too_far(a, b),
        _ => false,
    }
}

// ---------------------------------------------------------------------------
// Issues
// ---------------------------------------------------------------------------

/// The issue about a pathway whose stops have different ancestors.
pub fn make_no_common_ancestor_for_pathway_issue(pathway: &Pathway) -> (issue: Issue)
    ensures
        issue@ == ancestor_issue(*pathway),
{
    let base_issue = Issue::new(
        Severity::Error,
        IssueType::PathwayIncompatibleAncestor,
        pathway.id.as_str(),
    );
    let mut message = String::from_str("the pathway with id ");
    message.append(pathway.id.as_str());
    message.append("   connects stops ");
    message.append(pathway.from_stop_id.as_str());
    message.append(" to stop ");
    message.append(pathway.to_stop_id.as_str());
    message.append(" having different ancestor ");
    base_issue.details(message.as_str())
}

/// The issue about a pathway that spans more than `threshold` meters; the
/// threshold is given as it is to be written in the explanation.
pub fn make_pathways_connecting_stops_too_far_issue(pathway: &Pathway, threshold: &str) -> (issue:
    Issue)
    ensures
        issue@ == distance_issue(*pathway, threshold@),
{
    let base_issue = Issue::new(
        Severity::Error,
        IssueType::PathwayConnectingStopsTooFar,
        pathway.id.as_str(),
    );
    let mut message = String::from_str("the pathway with id ");
    message.append(pathway.id.as_str());
    message.append("   connects stops ");
    message.append(pathway.from_stop_id.as_str());
    message.append(" to stop ");
    message.append(pathway.to_stop_id.as_str());
    message.append(" spans a distance more than the user provided threshold ");
    message.append(threshold);
    message.append(" meters");
    base_issue.details(message.as_str())
}

// ---------------------------------------------------------------------------
// Unfolding the model one pathway or one stop at a time
// ---------------------------------------------------------------------------

proof fn lemma_issues_view_push(s: Seq<Issue>, x: Issue)
    ensures
        issues_view(s.push(x)) == issues_view(s).push(x@),
{
    assert(issues_view(s.push(x)) =~= issues_view(s).push(x@));
}

proof fn lemma_all_pathways_step(stops: Seq<Stop>, i: int)
    requires
        0 <= i < stops.len(),
    ensures
        all_pathways(stops.take(i + 1)) == all_pathways(stops.take(i)) + stops[i].pathways@,
{
    assert(stops.take(i + 1).drop_last() =~= stops.take(i));
}

proof fn lemma_ancestor_issues_push(ps: Seq<Pathway>, p: Pathway, m: Map<Seq<char>, Stop>)
    ensures
        ancestor_issues(ps.push(p), m) == if same_ancestor(p, m) {
            ancestor_issues(ps, m)
        } else {
            ancestor_issues(ps, m).push(ancestor_issue(p))
        },
{
    assert(ps.push(p).drop_last() =~= ps);
}

proof fn lemma_distance_issues_push(
    ps: Seq<Pathway>,
    p: Pathway,
    verdicts: Seq<bool>,
    v: bool,
    threshold: Seq<char>,
)
    requires
        verdicts.len() == ps.len(),
    ensures
        distance_issues(ps.push(p), verdicts.push(v), threshold) == if v {
            distance_issues(ps, verdicts, threshold).push(distance_issue(p, threshold))
        } else {
            distance_issues(ps, verdicts, threshold)
        },
{
    assert(ps.push(p).drop_last() =~= ps);
    lemma_distance_issues_prefix(ps, verdicts, verdicts.push(v), threshold);
}

/// Only the verdicts of the pathways themselves matter.
pub(crate) proof fn lemma_distance_issues_prefix(
    ps: Seq<Pathway>,
    v1: Seq<bool>,
    v2: Seq<bool>,
    threshold: Seq<char>,
)
    requires
        ps.len() <= v1.len(),
        ps.len() <= v2.len(),
        forall|i: int| 0 <= i < ps.len() ==> v1[i] == v2[i],
    ensures
        distance_issues(ps, v1, threshold) == distance_issues(ps, v2, threshold),
    decreases ps.len(),
{
    if ps.len() > 0 {
        lemma_distance_issues_prefix(ps.drop_last(), v1, v2, threshold);
    }
}

// ---------------------------------------------------------------------------
// Validators
// ---------------------------------------------------------------------------

/// One issue for each pathway, over all the stops in order, whose two stops
/// do not share their oldest ancestor.
pub fn validate_ancestor_of_pathways(all_stops: &StopMap) -> (issues: Vec<Issue>)
    ensures
        issues_view(issues@) == ancestor_issues(all_pathways(all_stops.stops()), all_stops@),
{
    let ghost stops = all_stops.stops();
    let ghost m = all_stops@;
    let mut issues: Vec<Issue> = Vec::new();
    let n: usize = all_stops.len();
    let mut i: usize = 0;
    assert(issues_view(issues@) =~= Seq::<IssueView>::empty());
    assert(stops.take(0) =~= Seq::<Stop>::empty());
    while i < n
        invariant
            stops == all_stops.stops(),
            m == all_stops@,
            n == stops.len(),
            i <= n,
            issues_view(issues@) == ancestor_issues(all_pathways(stops.take(i as int)), m),
        decreases n - i,
    {
        let stop = all_stops.stop_at(i);
        assert(*stop == stops[i as int]);
        let ghost before = all_pathways(stops.take(i as int));
        let k: usize = stop.pathways.len();
        let mut j: usize = 0;
        assert(stop.pathways@.take(0) =~= Seq::<Pathway>::empty());
        assert(before + stop.pathways@.take(0) =~= before);
        while j < k
            invariant
                m == all_stops@,
                k == stop.pathways@.len(),
                j <= k,
                issues_view(issues@) == ancestor_issues(
                    before + stop.pathways@.take(j as int),
                    m,
                ),
            decreases k - j,
        {
            let pathway = &stop.pathways[j];
            let ghost ps = before + stop.pathways@.take(j as int);
            proof {
                assert(ps.push(*pathway) =~= before + stop.pathways@.take(j + 1));
                lemma_ancestor_issues_push(ps, *pathway, m);
            }
            if !pathway_connecting_stops_with_same_ancestor(pathway, all_stops) {
                let issue = make_no_common_ancestor_for_pathway_issue(pathway);
                proof {
                    lemma_issues_view_push(issues@, issue);
                }
                issues.push(issue);
            }
            j = j + 1;
        }
        proof {
            assert(stop.pathways@.take(k as int) =~= stop.pathways@);
            lemma_all_pathways_step(stops, i as int);
        }
        i = i + 1;
    }
    assert(stops.take(n as int) =~= stops);
    issues
}

/// When a threshold is given, one issue for each pathway, over all the stops
/// in order, whose two stops are both known and judged too far apart by
/// `too_far`; when none is given, no issue. The threshold is given as it is to
/// be written in the explanations.
pub fn validate_distance_spanned_by_pathway<F: Fn(&Stop, &Stop) -> bool>(
    all_stops: &StopMap,
    threshold: Option<&str>,
    too_far: &F,
) -> (issues: Vec<Issue>)
    requires
        callable_on_all_stops(*too_far),
    ensures
        match threshold {
            None => issues@.len() == 0,
            Some(t) => exists|verdicts: Seq<bool>|
                {
                    &&& verdicts_fit(*too_far, all_pathways(all_stops.stops()), all_stops@, verdicts)
                    &&& issues_view(issues@) == distance_issues(
                        all_pathways(all_stops.stops()),
                        verdicts,
                        t@,
                    )
                },
        },
{
    let threshold = match threshold {
        Some(t) => t,
        None => {
            return Vec::new();
        },
    };
    let ghost stops = all_stops.stops();
    let ghost m = all_stops@;
    let ghost mut verdicts: Seq<bool> = Seq::empty();
    let mut issues: Vec<Issue> = Vec::new();
    let n: usize = all_stops.len();
    let mut i: usize = 0;
    assert(issues_view(issues@) =~= Seq::<IssueView>::empty());
    assert(stops.take(0) =~= Seq::<Stop>::empty());
    while i < n
        invariant
            stops == all_stops.stops(),
            m == all_stops@,
            callable_on_all_stops(*too_far),
            n == stops.len(),
            i <= n,
            verdicts_fit(*too_far, all_pathways(stops.take(i as int)), m, verdicts),
            issues_view(issues@) == distance_issues(
                all_pathways(stops.take(i as int)),
                verdicts,
                threshold@,
            ),
        decreases n - i,
    {
        let stop = all_stops.stop_at(i);
        assert(*stop == stops[i as int]);
        let ghost before = all_pathways(stops.take(i as int));
        let k: usize = stop.pathways.len();
        let mut j: usize = 0;
        assert(stop.pathways@.take(0) =~= Seq::<Pathway>::empty());
        assert(before + stop.pathways@.take(0) =~= before);
        while j < k
            invariant
                m == all_stops@,
                callable_on_all_stops(*too_far),
                k == stop.pathways@.len(),
                j <= k,
                verdicts_fit(*too_far, before + stop.pathways@.take(j as int), m, verdicts),
                issues_view(issues@) == distance_issues(
                    before + stop.pathways@.take(j as int),
                    verdicts,
                    threshold@,
                ),
            decreases k - j,
        {
            let pathway = &stop.pathways[j];
            let ghost ps = before + stop.pathways@.take(j as int);
            let far = pathway_spanning_distance_above_threshold(pathway, all_stops, too_far);
            proof {
                assert(ps.push(*pathway) =~= before + stop.pathways@.take(j + 1));
                lemma_distance_issues_push(ps, *pathway, verdicts, far, threshold@);
                let vs = verdicts.push(far);
                assert forall|q: int| 0 <= q < ps.len() + 1 implies #[trigger] verdict_fits(
                    *too_far,
                    ps.push(*pathway)[q],
                    m,
                    vs[q],
                ) by {
                    if q < ps.len() {
                        assert(ps.push(*pathway)[q] == ps[q]);
                        assert(verdict_fits(*too_far, ps[q], m, verdicts[q]));
                    }
                }
                verdicts = vs;
            }
            if far {
                let issue = make_pathways_connecting_stops_too_far_issue(pathway, threshold);
                proof {
                    lemma_issues_view_push(issues@, issue);
                }
                issues.push(issue);
            }
            j = j + 1;
        }
        proof {
            assert(stop.pathways@.take(k as int) =~= stop.pathways@);
            lemma_all_pathways_step(stops, i as int);
        }
        i = i + 1;
    }
    assert(stops.take(n as int) =~= stops);
    issues
}

/// The distance issues followed by the ancestor issues.
pub fn validate<F: Fn(&Stop, &Stop) -> bool>(
    all_stops: &StopMap,
    threshold: Option<&str>,
    too_far: &F,
) -> (issues: Vec<Issue>)
    requires
        callable_on_all_stops(*too_far),
    ensures
        threshold is None ==> issues_view(issues@) == ancestor_issues(
            all_pathways(all_stops.stops()),
            all_stops@,
        ),
        exists|distance: Seq<IssueView>|
            {
                &&& issues_view(issues@) == distance + ancestor_issues(
                    all_pathways(all_stops.stops()),
                    all_stops@,
                )
                &&& match threshold {
                    None => distance.len() == 0,
                    Some(t) => exists|verdicts: Seq<bool>|
                        {
                            &&& verdicts_fit(
                                *too_far,
                                all_pathways(all_stops.stops()),
                                all_stops@,
                                verdicts,
                            )
                            &&& distance == distance_issues(
                                all_pathways(all_stops.stops()),
                                verdicts,
                                t@,
                            )
                        },
                }
            },
{
    let mut issues = validate_distance_spanned_by_pathway(all_stops, threshold, too_far);
    let mut ancestors = validate_ancestor_of_pathways(all_stops);
    let ghost distance = issues_view(issues@);
    let ghost rest = issues_view(ancestors@);
    issues.append(&mut ancestors);
    assert(issues_view(issues@) =~= distance + rest);
    assert(threshold is None ==> distance + rest =~= rest);
    issues
}

} // verus!
