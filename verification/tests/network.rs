use std::cell::Cell;

use transport_validator::{
    get_oldest_ancestor, make_no_common_ancestor_for_pathway_issue,
    make_pathways_connecting_stops_too_far_issue, pathway_connecting_stops_with_same_ancestor,
    pathway_spanning_distance_above_threshold, validate, validate_ancestor_of_pathways,
    validate_distance_spanned_by_pathway, Issue, IssueType, LocationType, Pathway, Severity, Stop,
    StopMap,
};

fn stop_with(id: &str, parent: Option<&str>, location_type: LocationType, pathways: Vec<Pathway>) -> Stop {
    Stop {
        id: id.to_string(),
        parent_station: parent.map(|p| p.to_string()),
        location_type,
        pathways,
    }
}

fn stop(id: &str, parent: Option<&str>, location_type: LocationType) -> Stop {
    stop_with(id, parent, location_type, Vec::new())
}

fn pw(id: &str, from: &str, to: &str) -> Pathway {
    Pathway { id: id.to_string(), from_stop_id: from.to_string(), to_stop_id: to.to_string() }
}

/// Two stations, with members of several kinds, and pathways of which three
/// do not stay within one station.
fn network() -> StopMap {
    let mut m = StopMap::new();
    let entries = vec![
        stop("st_a", None, LocationType::StopArea),
        stop("st_b", None, LocationType::StopArea),
        stop_with(
            "pf_a1",
            Some("st_a"),
            LocationType::StopPoint,
            vec![pw("pw_ok", "pf_a1", "ent_a"), pw("pw_broken", "pf_a1", "pf_b1")],
        ),
        stop("ent_a", Some("st_a"), LocationType::StationEntrance),
        stop("node_a", Some("st_a"), LocationType::GenericNode),
        stop_with("ba_a1", Some("pf_a1"), LocationType::BoardingArea, vec![pw("pw_ba", "ba_a1", "node_a")]),
        stop_with("pf_b1", Some("st_b"), LocationType::StopPoint, vec![pw("pw_missing", "pf_b1", "nowhere")]),
        stop_with("weird", None, LocationType::Unknown(7), vec![pw("pw_weird", "weird", "pf_a1")]),
    ];
    for s in entries {
        let key = s.id.clone();
        m.insert(key, s);
    }
    m
}

fn ids(issues: &[Issue]) -> Vec<String> {
    issues.iter().map(|i| i.object_id.clone()).collect()
}

#[test]
fn issue_new_and_details() {
    let issue = Issue::new(Severity::Warning, IssueType::PathwayConnectingStopsTooFar, "x1");
    assert_eq!(issue.severity, Severity::Warning);
    assert_eq!(issue.issue_type, IssueType::PathwayConnectingStopsTooFar);
    assert_eq!(issue.object_id, "x1");
    assert_eq!(issue.details, None);
    let issue = issue.details("why");
    assert_eq!(issue.details.as_deref(), Some("why"));
    assert_eq!(issue.object_id, "x1");
}

#[test]
fn stop_map_insert_get_and_replace() {
    let mut m = StopMap::new();
    assert_eq!(m.len(), 0);
    assert!(m.get(&"a".to_string()).is_none());
    m.insert("a".to_string(), stop("first", None, LocationType::StopArea));
    m.insert("b".to_string(), stop("second", None, LocationType::StopArea));
    m.insert("a".to_string(), stop("third", None, LocationType::StopPoint));
    assert_eq!(m.len(), 2);
    assert_eq!(m.get(&"a".to_string()).unwrap().id, "third");
    assert_eq!(m.get(&"b".to_string()).unwrap().id, "second");
    assert_eq!(m.stop_at(0).id, "third");
    assert_eq!(m.stop_at(1).id, "second");
    assert!(m.get(&"c".to_string()).is_none());
}

#[test]
fn ancestors_of_every_location_type() {
    let m = network();
    let anc = |key: &str| get_oldest_ancestor(m.get(&key.to_string()).unwrap(), &m).map(|s| s.id.clone());
    assert_eq!(anc("st_a").as_deref(), Some("st_a"));
    assert_eq!(anc("pf_a1").as_deref(), Some("st_a"));
    assert_eq!(anc("ent_a").as_deref(), Some("st_a"));
    assert_eq!(anc("node_a").as_deref(), Some("st_a"));
    assert_eq!(anc("ba_a1").as_deref(), Some("st_a"));
    assert_eq!(anc("pf_b1").as_deref(), Some("st_b"));
    assert_eq!(anc("weird"), None);
}

#[test]
fn ancestors_missing_when_parents_are_missing() {
    let m = network();
    assert!(get_oldest_ancestor(&stop("orphan", None, LocationType::StopPoint), &m).is_none());
    assert!(get_oldest_ancestor(&stop("lost", Some("nowhere"), LocationType::GenericNode), &m).is_none());
    assert!(get_oldest_ancestor(&stop("ba", Some("nowhere"), LocationType::BoardingArea), &m).is_none());
    // A boarding area whose platform has no parent station has no ancestor.
    assert!(get_oldest_ancestor(&stop("ba", Some("st_a"), LocationType::BoardingArea), &m).is_none());
    // A station that is not stored under its own id has none either.
    assert!(get_oldest_ancestor(&stop("st_c", None, LocationType::StopArea), &m).is_none());
}

#[test]
fn same_ancestor_in_both_directions() {
    let m = network();
    assert!(pathway_connecting_stops_with_same_ancestor(&pw("p", "pf_a1", "ba_a1"), &m));
    assert!(pathway_connecting_stops_with_same_ancestor(&pw("p", "ba_a1", "pf_a1"), &m));
    assert!(pathway_connecting_stops_with_same_ancestor(&pw("p", "st_a", "node_a"), &m));
    assert!(!pathway_connecting_stops_with_same_ancestor(&pw("p", "pf_a1", "pf_b1"), &m));
    assert!(!pathway_connecting_stops_with_same_ancestor(&pw("p", "pf_b1", "pf_a1"), &m));
}

#[test]
fn unknown_stops_and_types_never_share_an_ancestor() {
    let m = network();
    assert!(!pathway_connecting_stops_with_same_ancestor(&pw("p", "pf_a1", "nowhere"), &m));
    assert!(!pathway_connecting_stops_with_same_ancestor(&pw("p", "nowhere", "pf_a1"), &m));
    assert!(!pathway_connecting_stops_with_same_ancestor(&pw("p", "weird", "weird"), &m));
}

#[test]
fn ancestor_issue_text() {
    let issue = make_no_common_ancestor_for_pathway_issue(&pw("pw1", "s1", "s2"));
    assert_eq!(issue.severity, Severity::Error);
    assert_eq!(issue.issue_type, IssueType::PathwayIncompatibleAncestor);
    assert_eq!(issue.object_id, "pw1");
    assert_eq!(
        issue.details.as_deref(),
        Some("the pathway with id pw1   connects stops s1 to stop s2 having different ancestor ")
    );
}

#[test]
fn distance_issue_text() {
    let issue = make_pathways_connecting_stops_too_far_issue(&pw("pw1", "s1", "s2"), "500");
    assert_eq!(issue.severity, Severity::Error);
    assert_eq!(issue.issue_type, IssueType::PathwayConnectingStopsTooFar);
    assert_eq!(issue.object_id, "pw1");
    assert_eq!(
        issue.details.as_deref(),
        Some("the pathway with id pw1   connects stops s1 to stop s2 spans a distance more than the user provided threshold 500 meters")
    );
}

#[test]
fn validating_pathways_with_no_shared_ancestor_reports_each_once_in_order() {
    let m = network();
    let issues = validate_ancestor_of_pathways(&m);
    assert_eq!(ids(&issues), vec!["pw_broken", "pw_missing", "pw_weird"]);
    assert!(issues.iter().all(|i| i.issue_type == IssueType::PathwayIncompatibleAncestor
        && i.severity == Severity::Error));
}

#[test]
fn validating_consistent_pathways_reports_nothing() {
    let mut m = StopMap::new();
    m.insert("st".to_string(), stop("st", None, LocationType::StopArea));
    m.insert(
        "pf".to_string(),
        stop_with("pf", Some("st"), LocationType::StopPoint, vec![pw("a", "pf", "st"), pw("b", "st", "pf")]),
    );
    assert!(validate_ancestor_of_pathways(&m).is_empty());
    assert!(validate_ancestor_of_pathways(&StopMap::new()).is_empty());
}

#[test]
fn distance_test_asks_only_about_known_stops() {
    let m = network();
    let calls = Cell::new(0);
    let too_far = |a: &Stop, b: &Stop| {
        calls.set(calls.get() + 1);
        a.id == "pf_a1" && b.id == "pf_b1"
    };
    assert!(pathway_spanning_distance_above_threshold(&pw("p", "pf_a1", "pf_b1"), &m, &too_far));
    assert!(!pathway_spanning_distance_above_threshold(&pw("p", "pf_b1", "pf_a1"), &m, &too_far));
    assert_eq!(calls.get(), 2);
    assert!(!pathway_spanning_distance_above_threshold(&pw("p", "pf_a1", "nowhere"), &m, &too_far));
    assert_eq!(calls.get(), 2);
}

#[test]
fn distance_validation_with_and_without_threshold() {
    let m = network();
    let calls = Cell::new(0);
    let too_far = |a: &Stop, b: &Stop| {
        calls.set(calls.get() + 1);
        a.id == "pf_a1" && b.id == "pf_b1"
    };
    assert!(validate_distance_spanned_by_pathway(&m, None, &too_far).is_empty());
    assert_eq!(calls.get(), 0);
    let issues = validate_distance_spanned_by_pathway(&m, Some("40"), &too_far);
    assert_eq!(ids(&issues), vec!["pw_broken"]);
    assert_eq!(calls.get(), 4);
    assert_eq!(
        issues[0].details.as_deref(),
        Some("the pathway with id pw_broken   connects stops pf_a1 to stop pf_b1 spans a distance more than the user provided threshold 40 meters")
    );
}

#[test]
fn validate_puts_distance_issues_first() {
    let m = network();
    let too_far = |a: &Stop, _b: &Stop| a.id == "ba_a1";
    let issues = validate(&m, Some("10"), &too_far);
    assert_eq!(ids(&issues), vec!["pw_ba", "pw_broken", "pw_missing", "pw_weird"]);
    assert_eq!(issues[0].issue_type, IssueType::PathwayConnectingStopsTooFar);
    assert_eq!(issues[1].issue_type, IssueType::PathwayIncompatibleAncestor);
    let without = validate(&m, None, &too_far);
    assert_eq!(ids(&without), vec!["pw_broken", "pw_missing", "pw_weird"]);
}
