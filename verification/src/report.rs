//! What a poll reports: change events and target errors, and the change
//! detector that decides between a change and silence.

use crate::extractor::ExtractionError;
use crate::target::{Target, TargetView};
use vstd::prelude::*;

verus! {

/// Why a target's content could not be fetched.
#[derive(Clone, Copy, Debug, PartialEq, Eq, Structural)]
pub enum FetchError {
    /// The transport failed: no response came, or its body could not be read
    /// whole.
    NetworkFailure,
    /// A response came with a status that is no success.
    NonSuccessStatus(u16),
    /// No response came in time.
    Timeout,
}

/// Why a target has no signal in this cycle.
#[derive(Clone, Copy, Debug, PartialEq, Eq, Structural)]
pub enum FailureCause {
    /// The content could not be fetched.
    Fetch(FetchError),
    /// The content was fetched and no signal could be extracted from it.
    Extraction(ExtractionError),
}

/// A change event as a mathematical value.
pub struct ChangeEventView {
    pub group_label: Seq<char>,
    pub target_label: Seq<char>,
    pub locator: Seq<char>,
    pub baseline_signal: nat,
    pub observed_signal: nat,
}

/// The report that a target's signal differs from its baseline.
#[derive(Clone, Debug, PartialEq, Eq)]
pub struct ChangeEvent {
    pub group_label: String,
    pub target_label: String,
    pub locator: String,
    pub baseline_signal: usize,
    pub observed_signal: usize,
}

impl View for ChangeEvent {
    type V = ChangeEventView;

    open spec fn view(&self) -> ChangeEventView {
        ChangeEventView {
            group_label: self.group_label@,
            target_label: self.target_label@,
            locator: self.locator@,
            baseline_signal: self.baseline_signal as nat,
            observed_signal: self.observed_signal as nat,
        }
    }
}

/// A target error as a mathematical value.
pub struct TargetErrorView {
    pub group_label: Seq<char>,
    pub target_label: Seq<char>,
    pub locator: Seq<char>,
    pub cause: FailureCause,
}

/// The report that a target has no signal in this cycle, and why.
#[derive(Clone, Debug, PartialEq, Eq)]
pub struct TargetError {
    pub group_label: String,
    pub target_label: String,
    pub locator: String,
    pub cause: FailureCause,
}

impl View for TargetError {
    type V = TargetErrorView;

    open spec fn view(&self) -> TargetErrorView {
        TargetErrorView {
            group_label: self.group_label@,
            target_label: self.target_label@,
            locator: self.locator@,
            cause: self.cause,
        }
    }
}

/// An extraction outcome as a mathematical value.
pub struct ExtractionOutcomeView {
    pub target: TargetView,
    pub result: Result<nat, FailureCause>,
}

/// What became of one target in this cycle: the signal that was extracted
/// from its content, or the cause for which there is none.
///
/// An outcome lives within one cycle: it is made when the target's fetch
/// has ended, and is used up when the target is judged.
#[derive(Clone, Copy, Debug, PartialEq, Eq)]
pub struct ExtractionOutcome<'a> {
    pub target: &'a Target,
    pub result: Result<usize, FailureCause>,
}

impl<'a> View for ExtractionOutcome<'a> {
    type V = ExtractionOutcomeView;

    open spec fn view(&self) -> ExtractionOutcomeView {
        ExtractionOutcomeView {
            target: self.target@,
            result: match self.result {
                Ok(signal) => Ok(signal as nat),
                Err(cause) => Err(cause),
            },
        }
    }
}

/// A report as a mathematical value.
pub enum ReportView {
    Change(ChangeEventView),
    Failure(TargetErrorView),
}

/// What a cycle hands to its caller about one target. A target whose signal
/// is at its baseline is passed over in silence: there is no report of it.
#[derive(Clone, Debug, PartialEq, Eq)]
pub enum Report {
    Change(ChangeEvent),
    Failure(TargetError),
}

impl View for Report {
    type V = ReportView;

    open spec fn view(&self) -> ReportView {
        match self {
            Report::Change(event) => ReportView::Change(event@),
            Report::Failure(error) => ReportView::Failure(error@),
        }
    }
}

/// A report that may be missing, as a mathematical value.
pub open spec fn report_view(report: Option<Report>) -> Option<ReportView> {
    match report {
        Some(r) => Some(r@),
        None => None,
    }
}

/// Whether the report is a target error that blames the group's rule.
pub open spec fn blames_configuration(report: ReportView) -> bool {
    report matches ReportView::Failure(error) && error.cause == FailureCause::Extraction(
        ExtractionError::InvalidConfiguration,
    )
}

/// The reports of a sequence as mathematical values, in the same order.
pub open spec fn report_views(reports: Seq<Report>) -> Seq<ReportView> {
    Seq::new(reports.len(), |i: int| reports[i]@)
}

/// The change event that an observed signal calls for, if any: none where the
/// signal is the baseline, else the event that names the target and both
/// signals.
pub open spec fn detection(group_label: Seq<char>, target: TargetView, observed: nat) -> Option<
    ChangeEventView,
> {
    if observed == target.baseline_signal {
        None
    } else {
        Some(
            ChangeEventView {
                group_label,
                target_label: target.label,
                locator: target.locator,
                baseline_signal: target.baseline_signal,
                observed_signal: observed,
            },
        )
    }
}

/// The target error that reports `cause` for `target`.
pub open spec fn failure(group_label: Seq<char>, target: TargetView, cause: FailureCause)
    -> TargetErrorView {
    TargetErrorView { group_label, target_label: target.label, locator: target.locator, cause }
}

/// The report that a target's result calls for, if any.
pub open spec fn judgement(
    group_label: Seq<char>,
    target: TargetView,
    result: Result<nat, FailureCause>,
) -> Option<ReportView> {
    match result {
        Ok(observed) => match detection(group_label, target, observed) {
            Some(event) => Some(ReportView::Change(event)),
            None => None,
        },
        Err(cause) => Some(ReportView::Failure(failure(group_label, target, cause))),
    }
}

/// The change detector: compares `observed` with the target's baseline.
///
/// The comparison is exact. Nothing is reported where the two are equal.
pub fn detect(group_label: &str, target: &Target, observed: usize) -> (event: Option<ChangeEvent>)
    ensures
        event is None <==> observed as nat == target@.baseline_signal,
        event matches Some(e) ==> e@ == (ChangeEventView {
            group_label: group_label@,
            target_label: target@.label,
            locator: target@.locator,
            baseline_signal: target@.baseline_signal,
            observed_signal: observed as nat,
        }),
{
    if observed == target.baseline_signal() {
        None
    } else {
        Some(
            ChangeEvent {
                group_label: group_label.to_owned(),
                target_label: target.label().to_owned(),
                locator: target.locator().to_owned(),
                baseline_signal: target.baseline_signal(),
                observed_signal: observed,
            },
        )
    }
}

/// Turns a target's outcome into its report: a change event where a signal
/// was had and differs from the baseline, a target error where none was had,
/// and nothing where the signal is the baseline.
pub fn judge(group_label: &str, outcome: &ExtractionOutcome) -> (report: Option<Report>)
    ensures
        report_view(report) == judgement(group_label@, outcome@.target, outcome@.result),
{
    match outcome.result {
        Ok(observed) => match detect(group_label, outcome.target, observed) {
            Some(event) => Some(Report::Change(event)),
            None => None,
        },
        Err(cause) => Some(
            Report::Failure(
                TargetError {
                    group_label: group_label.to_owned(),
                    target_label: outcome.target.label().to_owned(),
                    locator: outcome.target.locator().to_owned(),
                    cause,
                },
            ),
        ),
    }
}

/// The detector is silent exactly at the baseline, and what it reports
/// otherwise carries the target's identity, its baseline and the observed
/// signal.
pub proof fn detection_is_silent_only_at_baseline(
    group_label: Seq<char>,
    target: TargetView,
    observed: nat,
)
    ensures
        detection(group_label, target, observed) is None <==> observed == target.baseline_signal,
        detection(group_label, target, target.baseline_signal) is None,
        detection(group_label, target, observed) matches Some(event) ==> {
            &&& event.group_label == group_label
            &&& event.target_label == target.label
            &&& event.locator == target.locator
            &&& event.baseline_signal == target.baseline_signal
            &&& event.observed_signal == observed
            &&& event.observed_signal != event.baseline_signal
        },
{
}

} // verus!
