//! Targets and tracking groups: what is watched, and by which rule.

use crate::extractor::{ExtractionRule, SignalExtractor};
use vstd::prelude::*;

verus! {

/// A target as a mathematical value.
pub struct TargetView {
    pub label: Seq<char>,
    pub locator: Seq<char>,
    pub baseline_signal: nat,
}

/// One page under observation: a label for reports, the locator by which the
/// page is fetched, and the signal that the page is expected to show.
///
/// A target does not change once it is made.
#[derive(Clone, Debug, PartialEq, Eq)]
pub struct Target {
    label: String,
    locator: String,
    baseline_signal: usize,
}

impl View for Target {
    type V = TargetView;

    closed spec fn view(&self) -> TargetView {
        TargetView {
            label: self.label@,
            locator: self.locator@,
            baseline_signal: self.baseline_signal as nat,
        }
    }
}

impl Target {
    /// Makes a target.
    pub fn new(label: &str, locator: &str, baseline_signal: usize) -> (target: Target)
        ensures
            target@ == (TargetView {
                label: label@,
                locator: locator@,
                baseline_signal: baseline_signal as nat,
            }),
    {
        Target { label: label.to_owned(), locator: locator.to_owned(), baseline_signal }
    }

    /// The label under which the target is reported.
    pub fn label(&self) -> (label: &str)
        ensures
            label@ == self@.label,
    {
        self.label.as_str()
    }

    /// The locator by which the target's content is fetched.
    pub fn locator(&self) -> (locator: &str)
        ensures
            locator@ == self@.locator,
    {
        self.locator.as_str()
    }

    /// The signal that the target shows while nothing has changed.
    pub fn baseline_signal(&self) -> (baseline: usize)
        ensures
            baseline as nat == self@.baseline_signal,
    {
        self.baseline_signal
    }

    /// Whether `other` is the same target: whether label and locator agree.
    pub fn is_same_target(&self, other: &Target) -> (same: bool)
        ensures
            same == (self@.label == other@.label && self@.locator == other@.locator),
    {
        self.label == other.label && self.locator == other.locator
    }
}

/// The targets of a sequence as mathematical values, in the same order.
pub open spec fn target_views(targets: Seq<Target>) -> Seq<TargetView> {
    Seq::new(targets.len(), |i: int| targets[i]@)
}

/// A tracking group as a mathematical value.
pub struct GroupView {
    pub label: Seq<char>,
    pub rule: ExtractionRule,
    pub targets: Seq<TargetView>,
}

/// Targets that are judged by one extraction rule, under a common label.
///
/// The group owns its targets and keeps them in the order in which they
/// were given. Nothing in a group changes once it is made.
#[derive(Debug, PartialEq, Eq)]
pub struct TrackingGroup {
    label: String,
    extractor: SignalExtractor,
    targets: Vec<Target>,
}

impl View for TrackingGroup {
    type V = GroupView;

    closed spec fn view(&self) -> GroupView {
        GroupView {
            label: self.label@,
            rule: self.extractor@,
            targets: target_views(self.targets@),
        }
    }
}

impl TrackingGroup {
    /// Makes a group of `targets` that are all judged by `extractor`.
    pub fn new(label: &str, extractor: SignalExtractor, targets: Vec<Target>) -> (group:
        TrackingGroup)
        ensures
            group@ == (GroupView {
                label: label@,
                rule: extractor@,
                targets: target_views(targets@),
            }),
    {
        TrackingGroup { label: label.to_owned(), extractor, targets }
    }

    /// The label under which the group's targets are reported.
    pub fn label(&self) -> (label: &str)
        ensures
            label@ == self@.label,
    {
        self.label.as_str()
    }

    /// The rule by which the group's targets are judged.
    pub fn extractor(&self) -> (extractor: &SignalExtractor)
        ensures
            extractor@ == self@.rule,
    {
        &self.extractor
    }

    /// The group's targets, in the order in which they were given.
    pub fn targets(&self) -> (targets: &[Target])
        ensures
            target_views(targets@) == self@.targets,
    {
        self.targets.as_slice()
    }
}

/// The groups of a sequence as mathematical values, in the same order.
pub open spec fn group_views(groups: Seq<TrackingGroup>) -> Seq<GroupView> {
    Seq::new(groups.len(), |i: int| groups[i]@)
}

} // verus!
