//! Validation of the pathways of a public-transit network: every pathway must
//! link two stops that belong to the same station, and, when a maximum span is
//! configured, must not link stops that lie farther apart than that span.
//!
//! `stops` holds the network (stops under their keys, each with the pathways
//! declared from it), `issue` the problems reported, `pathways` the two
//! validators and their model, and `laws` what holds of them on every input.

pub mod issue;
pub mod laws;
pub mod pathways;
pub mod stops;

pub use issue::{Issue, IssueType, IssueView, Severity};
pub use pathways::{
    get_oldest_ancestor, make_no_common_ancestor_for_pathway_issue,
    make_pathways_connecting_stops_too_far_issue, pathway_connecting_stops_with_same_ancestor,
    pathway_spanning_distance_above_threshold, validate, validate_ancestor_of_pathways,
    validate_distance_spanned_by_pathway,
};
pub use stops::{LocationType, Pathway, Stop, StopMap};
