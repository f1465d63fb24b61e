use vstd::prelude::*;

use crate::issue::IssueView;
use crate::pathways::{
    all_pathways, ancestor_issue, ancestor_issues, distance_issue, distance_issues, endpoints, oldest_ancestor,
    lemma_distance_issues_prefix, same_ancestor, verdict_fits, verdicts_fit,
};
use crate::stops::{LocationType, Pathway, Stop};

verus! {

/// The ancestor issues are, in order, exactly the issues of the pathways whose
/// stops do not share their oldest ancestor: one issue per such pathway and no
/// other.
pub proof fn lemma_ancestor_issues_are_the_failing_pathways(
    ps: Seq<Pathway>,
    m: Map<Seq<char>, Stop>,
)
    ensures
        ancestor_issues(ps, m) == ps.filter(|p: Pathway| !same_ancestor(p, m)).map_values(
            |p: Pathway| ancestor_issue(p),
        ),
    decreases ps.len(),
{
    reveal(Seq::filter);
    if ps.len() > 0 {
        lemma_ancestor_issues_are_the_failing_pathways(ps.drop_last(), m);
        let f = ps.drop_last().filter(|p: Pathway| !same_ancestor(p, m));
        if !same_ancestor(ps.last(), m) {
            assert(f.push(ps.last()).map_values(|p: Pathway| ancestor_issue(p)) =~= f.map_values(
                |p: Pathway| ancestor_issue(p),
            ).push(ancestor_issue(ps.last())));
        }
    }
}

/// No ancestor issue is reported exactly when every pathway links two stops
/// that share their oldest ancestor.
pub proof fn lemma_no_ancestor_issue_iff_all_consistent(ps: Seq<Pathway>, m: Map<Seq<char>, Stop>)
    ensures
        ancestor_issues(ps, m).len() == 0 <==> forall|i: int|
            0 <= i < ps.len() ==> #[trigger] same_ancestor(ps[i], m),
    decreases ps.len(),
{
    if ps.len() > 0 {
        let init = ps.drop_last();
        lemma_no_ancestor_issue_iff_all_consistent(init, m);
        if forall|i: int| 0 <= i < ps.len() ==> #[trigger] same_ancestor(ps[i], m) {
            assert forall|i: int| 0 <= i < init.len() implies #[trigger] same_ancestor(init[i], m) by {
                assert(init[i] == ps[i]);
            }
            assert(same_ancestor(ps[ps.len() - 1], m));
        }
        if ancestor_issues(ps, m).len() == 0 {
            assert forall|i: int| 0 <= i < ps.len() implies #[trigger] same_ancestor(ps[i], m) by {
                if i < ps.len() - 1 {
                    assert(init[i] == ps[i]);
                    assert(same_ancestor(init[i], m));
                }
            }
        }
    }
}

/// Whether a pathway links stops of the same station does not depend on its
/// direction.
pub proof fn lemma_same_ancestor_symmetric(p: Pathway, q: Pathway, m: Map<Seq<char>, Stop>)
    requires
        p.from_stop_id@ == q.to_stop_id@,
        p.to_stop_id@ == q.from_stop_id@,
    ensures
        same_ancestor(p, m) == same_ancestor(q, m),
{
}

/// A pathway one of whose stops is unknown is always reported.
pub proof fn lemma_unknown_stop_is_reported(p: Pathway, m: Map<Seq<char>, Stop>)
    requires
        !m.contains_key(p.from_stop_id@) || !m.contains_key(p.to_stop_id@),
    ensures
        !same_ancestor(p, m),
        ancestor_issues(seq![p], m) == seq![ancestor_issue(p)],
{
    assert(seq![p].drop_last() =~= Seq::<Pathway>::empty());
    assert(ancestor_issues(Seq::<Pathway>::empty(), m) == Seq::<IssueView>::empty());
    assert(seq![p].last() == p);
    assert(Seq::<IssueView>::empty().push(ancestor_issue(p)) =~= seq![ancestor_issue(p)]);
}

/// A pathway from or to a location of unknown type is always reported.
pub proof fn lemma_unknown_location_type_is_reported(p: Pathway, m: Map<Seq<char>, Stop>)
    requires
        (m.contains_key(p.from_stop_id@) && m[p.from_stop_id@].location_type is Unknown) || (
        m.contains_key(p.to_stop_id@) && m[p.to_stop_id@].location_type is Unknown),
    ensures
        !same_ancestor(p, m),
{
}

/// A station that is stored under its own id is its own oldest ancestor, and
/// so is it of each platform, entrance and generic node whose parent station
/// it is, and of each boarding area on such a platform.
pub proof fn lemma_station_is_ancestor_of_its_members(
    m: Map<Seq<char>, Stop>,
    station: Seq<char>,
    member: Seq<char>,
    boarding: Seq<char>,
)
    requires
        m.contains_key(station),
        m[station].location_type == LocationType::StopArea,
        m[station].id@ == station,
    ensures
        oldest_ancestor(m[station], m) == Some(m[station]),
        m.contains_key(member) && (m[member].location_type == LocationType::StopPoint
            || m[member].location_type == LocationType::StationEntrance
            || m[member].location_type == LocationType::GenericNode) && (
        m[member].parent_station matches Some(s) && s@ == station) ==> oldest_ancestor(
            m[member],
            m,
        ) == Some(m[station]),
        m.contains_key(member) && (m[member].parent_station matches Some(s) && s@ == station)
            && m.contains_key(boarding) && m[boarding].location_type == LocationType::BoardingArea
            && (m[boarding].parent_station matches Some(s) && s@ == member) ==> oldest_ancestor(
            m[boarding],
            m,
        ) == Some(m[station]),
{
}

/// A pathway between two members of a station stored under its own id (the
/// station itself, its platforms, entrances and generic nodes, and the
/// boarding areas of its platforms) links stops with the same ancestor, and
/// so gives no ancestor issue.
pub proof fn lemma_pathway_within_a_station_is_consistent(
    p: Pathway,
    m: Map<Seq<char>, Stop>,
    station: Seq<char>,
)
    requires
        m.contains_key(station),
        m[station].location_type == LocationType::StopArea,
        m[station].id@ == station,
        m.contains_key(p.from_stop_id@),
        m.contains_key(p.to_stop_id@),
        oldest_ancestor(m[p.from_stop_id@], m) == Some(m[station]),
        oldest_ancestor(m[p.to_stop_id@], m) == Some(m[station]),
    ensures
        same_ancestor(p, m),
        ancestor_issues(seq![p], m) == Seq::<IssueView>::empty(),
{
    assert(seq![p].drop_last() =~= Seq::<Pathway>::empty());
    assert(ancestor_issues(Seq::<Pathway>::empty(), m) == Seq::<IssueView>::empty());
    assert(seq![p].last() == p);
    assert(Seq::<IssueView>::empty().push(ancestor_issue(p)) =~= seq![ancestor_issue(p)]);
}

/// Each distance issue is the issue of a pathway whose two stops are known and
/// were judged too far apart; each pathway so judged has its issue.
pub proof fn lemma_distance_issues_are_the_far_pathways<F: Fn(&Stop, &Stop) -> bool>(
    too_far: F,
    ps: Seq<Pathway>,
    m: Map<Seq<char>, Stop>,
    verdicts: Seq<bool>,
    threshold: Seq<char>,
)
    requires
        verdicts_fit(too_far, ps, m, verdicts),
    ensures
        forall|j: int|
            0 <= j < distance_issues(ps, verdicts, threshold).len() ==> exists|i: int|
                0 <= i < ps.len() && verdicts[i] && endpoints(ps[i], m) is Some
                    && #[trigger] distance_issues(ps, verdicts, threshold)[j] == distance_issue(
                    ps[i],
                    threshold,
                ),
        forall|i: int|
            0 <= i < ps.len() && #[trigger] verdicts[i] ==> distance_issues(
                ps,
                verdicts,
                threshold,
            ).contains(distance_issue(ps[i], threshold)),
    decreases ps.len(),
{
    if ps.len() > 0 {
        let init = ps.drop_last();
        let vi = verdicts.take(init.len() as int);
        assert forall|i: int| 0 <= i < init.len() implies #[trigger] verdict_fits(
            too_far,
            init[i],
            m,
            vi[i],
        ) by {
            assert(verdict_fits(too_far, ps[i], m, verdicts[i]));
        }
        lemma_distance_issues_are_the_far_pathways(too_far, init, m, vi, threshold);
        lemma_distance_issues_prefix(init, vi, verdicts, threshold);
        let d = distance_issues(ps, verdicts, threshold);
        let di = distance_issues(init, verdicts, threshold);
        let last: int = ps.len() - 1;
        assert(verdict_fits(too_far, ps[last], m, verdicts[last]));
        assert forall|j: int| 0 <= j < d.len() implies exists|i: int|
            0 <= i < ps.len() && verdicts[i] && endpoints(ps[i], m) is Some && #[trigger] d[j]
                == distance_issue(ps[i], threshold) by {
            if j < di.len() {
                let i: int = choose|i: int|
                    0 <= i < init.len() && vi[i] && endpoints(init[i], m) is Some
                        && #[trigger] di[j] == distance_issue(init[i], threshold);
                assert(ps[i] == init[i] && verdicts[i] == vi[i]);
                assert(d[j] == di[j]);
            } else {
                assert(d[j] == distance_issue(ps[last], threshold));
            }
        }
        assert forall|i: int| 0 <= i < ps.len() && #[trigger] verdicts[i] implies d.contains(
            distance_issue(ps[i], threshold),
        ) by {
            if i < last {
                assert(ps[i] == init[i] && verdicts[i] == vi[i]);
                assert(di.contains(distance_issue(init[i], threshold)));
                let k: int = choose|k: int| 0 <= k < di.len() && di[k] == distance_issue(init[i], threshold);
                assert(d[k] == di[k]);
            } else {
                assert(d[d.len() - 1] == distance_issue(ps[last], threshold));
            }
        }
    }
}

/// The stop names the key `key` as its parent station.
pub open spec fn parent_is(stop: Stop, key: Seq<char>) -> bool {
    stop.parent_station matches Some(x) && x@ == key
}

/// The key `k` names a stop of the station stored under its own id `s`: the
/// station itself, a platform, entrance or generic node whose parent station
/// is `s`, or a boarding area whose parent is stored and has `s` as its parent
/// station.
pub open spec fn in_station(m: Map<Seq<char>, Stop>, k: Seq<char>, s: Seq<char>) -> bool {
    &&& m.contains_key(k)
    &&& m.contains_key(s)
    &&& m[s].location_type == LocationType::StopArea
    &&& m[s].id@ == s
    &&& {
        ||| k == s
        ||| (m[k].location_type == LocationType::StopPoint || m[k].location_type
            == LocationType::StationEntrance || m[k].location_type == LocationType::GenericNode)
            && parent_is(m[k], s)
        ||| m[k].location_type == LocationType::BoardingArea && exists|q: Seq<char>|
            #[trigger] m.contains_key(q) && parent_is(m[k], q) && parent_is(m[q], s)
    }
}

/// The key `k` names a stop that belongs to no station: its type is unknown,
/// or the chain of parents that its type calls for is broken (a station not
/// stored under its own id, a platform, entrance or generic node without a
/// stored parent, a boarding area without a stored parent or grandparent).
pub open spec fn in_no_station(m: Map<Seq<char>, Stop>, k: Seq<char>) -> bool {
    let stop = m[k];
    &&& m.contains_key(k)
    &&& match stop.location_type {
        LocationType::Unknown(_) => true,
        LocationType::StopArea => !m.contains_key(stop.id@),
        LocationType::BoardingArea => match stop.parent_station {
            None => true,
            Some(q) => !m.contains_key(q@) || match m[q@].parent_station {
                None => true,
                Some(g) => !m.contains_key(g@),
            },
        },
        _ => match stop.parent_station {
            None => true,
            Some(q) => !m.contains_key(q@),
        },
    }
}

proof fn lemma_ancestor_of_station_member(m: Map<Seq<char>, Stop>, k: Seq<char>, s: Seq<char>)
    requires
        in_station(m, k, s),
    ensures
        oldest_ancestor(m[k], m) == Some(m[s]),
{
    if m[k].location_type == LocationType::BoardingArea && k != s {
        let q = choose|q: Seq<char>|
            #[trigger] m.contains_key(q) && parent_is(m[k], q) && parent_is(m[q], s);
    }
}

/// A pathway between stops of stations stored under their own ids links stops
/// of the same station exactly when the two stations are one: stops of two
/// stations with different ids never share an ancestor, however alike the ids.
pub proof fn lemma_same_ancestor_iff_same_station(
    p: Pathway,
    m: Map<Seq<char>, Stop>,
    s1: Seq<char>,
    s2: Seq<char>,
)
    requires
        in_station(m, p.from_stop_id@, s1),
        in_station(m, p.to_stop_id@, s2),
    ensures
        same_ancestor(p, m) <==> s1 == s2,
        same_ancestor(p, m) <==> m[s1].id@ == m[s2].id@,
{
    lemma_ancestor_of_station_member(m, p.from_stop_id@, s1);
    lemma_ancestor_of_station_member(m, p.to_stop_id@, s2);
}

/// Two stops share an ancestor only when both stops exist, both have an
/// oldest ancestor, and the two ancestors' ids are equal.
pub proof fn lemma_shared_ancestor_has_equal_ids(p: Pathway, m: Map<Seq<char>, Stop>)
    ensures
        same_ancestor(p, m) ==> {
            &&& m.contains_key(p.from_stop_id@)
            &&& m.contains_key(p.to_stop_id@)
            &&& oldest_ancestor(m[p.from_stop_id@], m) is Some
            &&& oldest_ancestor(m[p.to_stop_id@], m) is Some
            &&& oldest_ancestor(m[p.from_stop_id@], m).unwrap().id@ == oldest_ancestor(
                m[p.to_stop_id@],
                m,
            ).unwrap().id@
        },
        m.contains_key(p.from_stop_id@) && m.contains_key(p.to_stop_id@) && (oldest_ancestor(
            m[p.from_stop_id@],
            m,
        ) matches Some(x) && oldest_ancestor(m[p.to_stop_id@], m) matches Some(y) && x.id@
            == y.id@) ==> same_ancestor(p, m),
{
}

/// A pathway one of whose stops belongs to no station, or has no oldest
/// ancestor, never links stops of the same station, and so is reported.
pub proof fn lemma_stop_without_station_is_reported(p: Pathway, m: Map<Seq<char>, Stop>)
    ensures
        in_no_station(m, p.from_stop_id@) || in_no_station(m, p.to_stop_id@) ==> !same_ancestor(
            p,
            m,
        ),
        (m.contains_key(p.from_stop_id@) && oldest_ancestor(m[p.from_stop_id@], m) is None) || (
        m.contains_key(p.to_stop_id@) && oldest_ancestor(m[p.to_stop_id@], m) is None)
            ==> !same_ancestor(p, m),
        !same_ancestor(p, m) ==> ancestor_issues(seq![p], m) == seq![ancestor_issue(p)],
{
    assert(seq![p].drop_last() =~= Seq::<Pathway>::empty());
    assert(ancestor_issues(Seq::<Pathway>::empty(), m) == Seq::<IssueView>::empty());
    assert(seq![p].last() == p);
    assert(Seq::<IssueView>::empty().push(ancestor_issue(p)) =~= seq![ancestor_issue(p)]);
}

/// The distance verdict on a pathway whose two stops both exist is exactly an
/// answer of `too_far` on those two stops, whatever their location types; a
/// pathway with a missing stop is the only one judged not too far without
/// asking.
pub proof fn lemma_distance_verdict_is_the_answer_of_too_far<F: Fn(&Stop, &Stop) -> bool>(
    too_far: F,
    p: Pathway,
    m: Map<Seq<char>, Stop>,
    v: bool,
)
    ensures
        m.contains_key(p.from_stop_id@) && m.contains_key(p.to_stop_id@) ==> (verdict_fits(
            too_far,
            p,
            m,
            v,
        ) <==> too_far.ensures((&m[p.from_stop_id@], &m[p.to_stop_id@]), v)),
        !(m.contains_key(p.from_stop_id@) && m.contains_key(p.to_stop_id@)) ==> (verdict_fits(
            too_far,
            p,
            m,
            v,
        ) <==> !v),
{
}

/// With a threshold, each pathway whose two stops exist and that `too_far`
/// can only judge too far gets its distance issue, whatever the types of its
/// stops; one that `too_far` can only judge near gets a verdict of no.
pub proof fn lemma_far_pathway_is_reported<F: Fn(&Stop, &Stop) -> bool>(
    too_far: F,
    ps: Seq<Pathway>,
    m: Map<Seq<char>, Stop>,
    verdicts: Seq<bool>,
    threshold: Seq<char>,
    i: int,
)
    requires
        verdicts_fit(too_far, ps, m, verdicts),
        0 <= i < ps.len(),
        m.contains_key(ps[i].from_stop_id@),
        m.contains_key(ps[i].to_stop_id@),
    ensures
        (forall|r: bool|
            #[trigger] too_far.ensures((&m[ps[i].from_stop_id@], &m[ps[i].to_stop_id@]), r) ==> r)
            ==> verdicts[i] && distance_issues(ps, verdicts, threshold).contains(
            distance_issue(ps[i], threshold),
        ),
        (forall|r: bool|
            #[trigger] too_far.ensures((&m[ps[i].from_stop_id@], &m[ps[i].to_stop_id@]), r) ==> !r)
            ==> !verdicts[i],
{
    assert(verdict_fits(too_far, ps[i], m, verdicts[i]));
    lemma_distance_issues_are_the_far_pathways(too_far, ps, m, verdicts, threshold);
}

/// The pathways that the validators go through are those of the stops, stop
/// after stop: adding a stop adds its pathways, in their order, at the end.
pub proof fn lemma_all_pathways_push(stops: Seq<Stop>, stop: Stop)
    ensures
        all_pathways(stops.push(stop)) == all_pathways(stops) + stop.pathways@,
        all_pathways(Seq::<Stop>::empty()) == Seq::<Pathway>::empty(),
{
    assert(stops.push(stop).drop_last() =~= stops);
}

/// A pathway is gone through exactly when some stop declares it.
pub proof fn lemma_all_pathways_are_the_declared_ones(stops: Seq<Stop>)
    ensures
        forall|p: Pathway|
            #[trigger] all_pathways(stops).contains(p) <==> exists|i: int|
                0 <= i < stops.len() && stops[i].pathways@.contains(p),
    decreases stops.len(),
{
    if stops.len() > 0 {
        let init = stops.drop_last();
        let last = stops.last();
        lemma_all_pathways_are_the_declared_ones(init);
        let all = all_pathways(stops);
        let head = all_pathways(init);
        assert(all == head + last.pathways@);
        assert forall|p: Pathway| #[trigger] all.contains(p) <==> exists|i: int|
            0 <= i < stops.len() && stops[i].pathways@.contains(p) by {
            if all.contains(p) {
                let k = choose|k: int| 0 <= k < all.len() && all[k] == p;
                if k < head.len() {
                    assert(head[k] == p);
                    assert(head.contains(p));
                    let i = choose|i: int| 0 <= i < init.len() && init[i].pathways@.contains(p);
                    assert(stops[i] == init[i]);
                } else {
                    assert(last.pathways@[k - head.len()] == p);
                    assert(stops[stops.len() - 1] == last);
                }
            }
            if exists|i: int| 0 <= i < stops.len() && stops[i].pathways@.contains(p) {
                let i = choose|i: int| 0 <= i < stops.len() && stops[i].pathways@.contains(p);
                if i < stops.len() - 1 {
                    assert(init[i] == stops[i]);
                    assert(head.contains(p));
                    let k = choose|k: int| 0 <= k < head.len() && head[k] == p;
                    assert(all[k] == p);
                } else {
                    let k = choose|k: int| 0 <= k < last.pathways@.len() && last.pathways@[k] == p;
                    assert(all[head.len() + k] == p);
                }
            }
        }
    }
}

} // verus!
