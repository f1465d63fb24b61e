use vstd::prelude::*;

verus! {

/// How serious a reported problem is.
#[derive(Clone, Copy, Debug, PartialEq, Eq, Structural)]
pub enum Severity {
    Fatal,
    Error,
    Warning,
    Information,
}

/// The kinds of problems that the pathway validators report.
#[derive(Clone, Copy, Debug, PartialEq, Eq, Structural)]
pub enum IssueType {
    /// A pathway links two stops whose oldest ancestors differ (or cannot be found).
    PathwayIncompatibleAncestor,
    /// A pathway links two stops that lie farther apart than the configured span.
    PathwayConnectingStopsTooFar,
}

/// A problem found in the data, attached to the object it concerns.
#[derive(Debug)]
pub struct Issue {
    pub severity: Severity,
    pub issue_type: IssueType,
    pub object_id: String,
    pub details: Option<String>,
}

/// The mathematical content of an [`Issue`].
pub struct IssueView {
    pub severity: Severity,
    pub issue_type: IssueType,
    pub object_id: Seq<char>,
    pub details: Option<Seq<char>>,
}

/// The text of an optional string.
pub open spec fn opt_string_view(s: Option<String>) -> Option<Seq<char>> {
    match s {
        Some(t) => Some(t@),
        None => None,
    }
}

impl View for Issue {
    type V = IssueView;

    open spec fn view(&self) -> IssueView {
        IssueView {
            severity: self.severity,
            issue_type: self.issue_type,
            object_id: self.object_id@,
            details: opt_string_view(self.details),
        }
    }
}

/// The views of a sequence of issues, in order.
pub open spec fn issues_view(issues: Seq<Issue>) -> Seq<IssueView> {
    issues.map_values(|i: Issue| i@)
}

impl Issue {
    /// An issue of the given severity and kind about the object `id`, without details.
    pub fn new(severity: Severity, issue_type: IssueType, id: &str) -> (issue: Issue)
        ensures
            issue@ == (IssueView {
                severity,
                issue_type,
                object_id: id@,
                details: None,
            }),
    {
        Issue { severity, issue_type, object_id: String::from_str(id), details: None }
    }

    /// The same issue with `details` as its explanation.
    pub fn details(self, details: &str) -> (issue: Issue)
        ensures
            issue@ == (IssueView { details: Some(details@), ..self@ }),
    {
        Issue { details: Some(String::from_str(details)), ..self }
    }
}

} // verus!
