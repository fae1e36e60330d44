//! The poll cycle: every target of every group is fetched once, in order, and
//! judged on what came back.
//!
//! Reports come out in the order of the groups, and within a group in the
//! order of its targets.

use crate::extractor::{ExtractionError, ExtractionRule, SignalExtractor};
use crate::report::{
    blames_configuration, failure, judge, judgement, report_view, report_views,
    ExtractionOutcome, FailureCause, FetchError, Report, ReportView,
};
use crate::target::{group_views, target_views, GroupView, Target, TargetView, TrackingGroup};
use vstd::prelude::*;

verus! {

/// What a fetch handed back, as a mathematical value.
pub open spec fn response_view(fetched: Result<Vec<u8>, FetchError>) -> Result<Seq<u8>, FetchError> {
    match fetched {
        Ok(content) => Ok(content@),
        Err(error) => Err(error),
    }
}

/// What the fetches of a sequence handed back, in the same order.
pub open spec fn response_views(fetched: Seq<Result<Vec<u8>, FetchError>>) -> Seq<
    Result<Seq<u8>, FetchError>,
> {
    Seq::new(fetched.len(), |i: int| response_view(fetched[i]))
}

/// The result that a target has once its fetch has ended: the signal that the
/// rule extracts from the content, or the cause for which there is none.
pub open spec fn observation(rule: ExtractionRule, fetched: Result<Seq<u8>, FetchError>) -> Result<
    nat,
    FailureCause,
> {
    match fetched {
        Err(error) => Err(FailureCause::Fetch(error)),
        Ok(content) => match rule.signal(content) {
            Ok(signal) => Ok(signal),
            Err(error) => Err(FailureCause::Extraction(error)),
        },
    }
}

/// One unit of a cycle's work: a target together with the label and the rule
/// of its group.
pub struct WorkItem {
    pub group_label: Seq<char>,
    pub rule: ExtractionRule,
    pub target: TargetView,
}

/// The work that a group asks for: one item for each target, in order.
pub open spec fn group_items(group: GroupView) -> Seq<WorkItem> {
    Seq::new(
        group.targets.len(),
        |i: int| WorkItem { group_label: group.label, rule: group.rule, target: group.targets[i] },
    )
}

/// The work of a whole cycle: the items of the first group, then those of
/// the second, and so on.
pub open spec fn cycle_items(groups: Seq<GroupView>) -> Seq<WorkItem>
    decreases groups.len(),
{
    if groups.len() == 0 {
        Seq::empty()
    } else {
        cycle_items(groups.drop_last()) + group_items(groups.last())
    }
}

/// What is reported of an item, given what its fetch handed back. It is
/// decided by the item and its own response, and by nothing else.
pub open spec fn item_report(item: WorkItem, fetched: Result<Seq<u8>, FetchError>) -> Option<
    ReportView,
> {
    judgement(item.group_label, item.target, observation(item.rule, fetched))
}

/// The outcome of each item: its report, or `None` where it is passed over
/// in silence. `responses` holds what the fetch of each item handed back.
pub open spec fn outcomes(items: Seq<WorkItem>, responses: Seq<Result<Seq<u8>, FetchError>>) -> Seq<
    Option<ReportView>,
> {
    Seq::new(items.len(), |i: int| item_report(items[i], responses[i]))
}

/// The reports among `outcomes`, in the same order.
pub open spec fn emitted(outcomes: Seq<Option<ReportView>>) -> Seq<ReportView>
    decreases outcomes.len(),
{
    if outcomes.len() == 0 {
        Seq::empty()
    } else {
        match outcomes.last() {
            Some(report) => emitted(outcomes.drop_last()).push(report),
            None => emitted(outcomes.drop_last()),
        }
    }
}

/// What a cycle over `items` reports, given what each fetch handed back.
pub open spec fn reports(items: Seq<WorkItem>, responses: Seq<Result<Seq<u8>, FetchError>>) -> Seq<
    ReportView,
> {
    emitted(outcomes(items, responses))
}

/// Applies the extractor to what the fetch of `target` handed back.
pub fn observe<'a>(
    extractor: &SignalExtractor,
    target: &'a Target,
    fetched: &Result<Vec<u8>, FetchError>,
) -> (outcome: ExtractionOutcome<'a>)
    ensures
        outcome@.target == target@,
        outcome@.result == observation(extractor@, response_view(*fetched)),
        outcome.result != Err::<usize, FailureCause>(
            FailureCause::Extraction(ExtractionError::InvalidConfiguration),
        ),
{
    let result = match fetched {
        Err(error) => Err(FailureCause::Fetch(*error)),
        Ok(content) => match extractor.extract(content.as_slice()) {
            Ok(signal) => Ok(signal),
            Err(error) => Err(FailureCause::Extraction(error)),
        },
    };
    ExtractionOutcome { target, result }
}

/// Judges one target of `group` on what its fetch handed back: extraction,
/// comparison with the baseline and the making of the report, as one step
/// that touches nothing but its arguments.
pub fn assess(group: &TrackingGroup, target: &Target, fetched: &Result<Vec<u8>, FetchError>) -> (report:
    Option<Report>)
    ensures
        report_view(report) == item_report(
            WorkItem { group_label: group@.label, rule: group@.rule, target: target@ },
            response_view(*fetched),
        ),
        report matches Some(r) ==> !blames_configuration(r@),
{
    let outcome = observe(group.extractor(), target, fetched);
    judge(group.label(), &outcome)
}

/// The items of the first `count` groups, as many as they are.
pub open spec fn items_before(groups: Seq<GroupView>, count: int) -> nat {
    cycle_items(groups.take(count)).len()
}

proof fn lemma_items_of_one_more(groups: Seq<GroupView>, count: int)
    requires
        0 <= count < groups.len(),
    ensures
        cycle_items(groups.take(count + 1)) == cycle_items(groups.take(count)) + group_items(
            groups[count],
        ),
{
    let longer = groups.take(count + 1);
    assert(longer.drop_last() =~= groups.take(count));
    assert(longer.last() == groups[count]);
}

proof fn lemma_items_prefix(groups: Seq<GroupView>, count: int)
    requires
        0 <= count <= groups.len(),
    ensures
        items_before(groups, count) <= cycle_items(groups).len(),
        forall|i: int|
            0 <= i < items_before(groups, count) ==> cycle_items(groups)[i] == cycle_items(
                groups.take(count),
            )[i],
    decreases groups.len() - count,
{
    if count == groups.len() {
        assert(groups.take(count) =~= groups);
    } else {
        lemma_items_of_one_more(groups, count);
        lemma_items_prefix(groups, count + 1);
    }
}

/// Every target has its one place in the cycle: the target at index
/// `target` of the group at index `group` is the item that comes behind all
/// items of the earlier groups and behind the earlier targets of its own.
pub proof fn every_target_has_its_turn(groups: Seq<GroupView>, group: int, target: int)
    requires
        0 <= group < groups.len(),
        0 <= target < groups[group].targets.len(),
    ensures
        items_before(groups, group) + target < cycle_items(groups).len(),
        cycle_items(groups)[items_before(groups, group) + target] == (WorkItem {
            group_label: groups[group].label,
            rule: groups[group].rule,
            target: groups[group].targets[target],
        }),
{
    lemma_items_of_one_more(groups, group);
    lemma_items_prefix(groups, group + 1);
}

/// A cycle in progress.
///
/// The cycle decides which target is fetched next and what is reported of
/// each response; its caller does the fetching. It goes through the groups
/// in order, through each group's targets in order, and asks for each target
/// once:
///
/// 1. [`PollCycle::pending`] names the locator to fetch, or tells that the
///    cycle is over;
/// 2. the caller fetches it;
/// 3. [`PollCycle::record`] takes what came back and hands out the report.
pub struct PollCycle<'a> {
    groups: &'a [TrackingGroup],
    group: usize,
    target: usize,
}

impl<'a> PollCycle<'a> {
    #[verifier::type_invariant]
    spec fn positioned(&self) -> bool {
        &&& self.group <= self.groups@.len()
        &&& self.group < self.groups@.len() ==> self.target < self.groups@[self.group as int]@.targets.len()
        &&& self.group == self.groups@.len() ==> self.target == 0
    }

    /// The groups that the cycle goes through.
    pub closed spec fn groups(&self) -> Seq<GroupView> {
        group_views(self.groups@)
    }

    /// The number of targets whose response has been recorded.
    pub closed spec fn polled(&self) -> nat {
        items_before(group_views(self.groups@), self.group as int) + self.target as nat
    }

    /// The work of the whole cycle.
    pub open spec fn items(&self) -> Seq<WorkItem> {
        cycle_items(self.groups())
    }

    /// Begins a cycle over `groups`.
    pub fn begin(groups: &'a [TrackingGroup]) -> (cycle: PollCycle<'a>)
        ensures
            cycle.groups() == group_views(groups@),
            cycle.polled() == 0,
    {
        let group: usize = first_with_targets(groups, 0);
        proof {
            assert(group_views(groups@).take(0) =~= Seq::<GroupView>::empty());
        }
        PollCycle { groups, group, target: 0 }
    }

    /// The locator that is to be fetched next, or `None` when every target
    /// has had its turn.
    pub fn pending(&self) -> (locator: Option<&'a str>)
        ensures
            locator is Some <==> self.polled() < self.items().len(),
            locator matches Some(l) ==> l@ == self.items()[self.polled() as int].target.locator,
    {
        proof {
            use_type_invariant(self);
        }
        let ghost views = group_views(self.groups@);
        if self.group < self.groups.len() {
            let targets = self.groups[self.group].targets();
            proof {
                every_target_has_its_turn(views, self.group as int, self.target as int);
            }
            Some(targets[self.target].locator())
        } else {
            proof {
                assert(views.take(self.group as int) =~= views);
            }
            None
        }
    }

    /// Records what the pending fetch handed back, and hands out what is to
    /// be reported of its target. The cycle then stands at the next target.
    pub fn record(&mut self, fetched: &Result<Vec<u8>, FetchError>) -> (report: Option<Report>)
        requires
            old(self).polled() < old(self).items().len(),
        ensures
            final(self).groups() == old(self).groups(),
            final(self).polled() == old(self).polled() + 1,
            report_view(report) == item_report(
                old(self).items()[old(self).polled() as int],
                response_view(*fetched),
            ),
            report matches Some(r) ==> !blames_configuration(r@),
    {
        proof {
            use_type_invariant(&*self);
        }
        let ghost views = group_views(self.groups@);
        proof {
            if self.group == self.groups@.len() {
                assert(views.take(self.group as int) =~= views);
            }
        }
        let group = &self.groups[self.group];
        let targets = group.targets();
        proof {
            every_target_has_its_turn(views, self.group as int, self.target as int);
            lemma_items_of_one_more(views, self.group as int);
        }
        let report = assess(group, &targets[self.target], fetched);
        if self.target + 1 < targets.len() {
            self.target = self.target + 1;
        } else {
            let next: usize = first_with_targets(self.groups, self.group + 1);
            self.target = 0;
            self.group = next;
        }
        report
    }
}

/// The first group at or behind index `from` that has a target, or the
/// number of groups where there is none.
fn first_with_targets(groups: &[TrackingGroup], from: usize) -> (found: usize)
    requires
        from <= groups@.len(),
    ensures
        from <= found <= groups@.len(),
        found < groups@.len() ==> groups@[found as int]@.targets.len() > 0,
        items_before(group_views(groups@), found as int) == items_before(
            group_views(groups@),
            from as int,
        ),
{
    let mut found: usize = from;
    while found < groups.len() && groups[found].targets().len() == 0
        invariant
            from <= found <= groups@.len(),
            items_before(group_views(groups@), found as int) == items_before(
                group_views(groups@),
                from as int,
            ),
        decreases groups@.len() - found,
    {
        proof {
            lemma_items_of_one_more(group_views(groups@), found as int);
        }
        found = found + 1;
    }
    found
}

/// Whether `locator` is the locator of one of the items.
pub open spec fn is_asked_for(items: Seq<WorkItem>, locator: Seq<char>) -> bool {
    exists|i: int| 0 <= i < items.len() && (#[trigger] items[i]).target.locator == locator
}

/// Whether `fetch` can be called for the locator of each of the items.
pub open spec fn can_fetch<F: Fn(&str) -> Result<Vec<u8>, FetchError>>(
    fetch: &F,
    items: Seq<WorkItem>,
) -> bool {
    forall|locator: &str|
        is_asked_for(items, locator@) ==> #[trigger] call_requires(fetch, (locator,))
}

/// Whether `response` is something that `fetch` hands back for `locator`.
pub open spec fn answer_of<F: Fn(&str) -> Result<Vec<u8>, FetchError>>(
    fetch: &F,
    locator: Seq<char>,
    response: Result<Vec<u8>, FetchError>,
) -> bool {
    exists|asked: &str| asked@ == locator && #[trigger] call_ensures(fetch, (asked,), response)
}

/// Whether `responses` holds, item by item, something that `fetch` hands
/// back for the item's locator.
pub open spec fn answers<F: Fn(&str) -> Result<Vec<u8>, FetchError>>(
    fetch: &F,
    items: Seq<WorkItem>,
    responses: Seq<Result<Vec<u8>, FetchError>>,
) -> bool {
    &&& responses.len() == items.len()
    &&& forall|i: int|
        0 <= i < items.len() ==> #[trigger] answer_of(
            fetch,
            items[i].target.locator,
            responses[i],
        )
}

proof fn lemma_emitted_push(before: Seq<Option<ReportView>>, outcome: Option<ReportView>)
    ensures
        emitted(before.push(outcome)) == match outcome {
            Some(report) => emitted(before).push(report),
            None => emitted(before),
        },
{
    assert(before.push(outcome).drop_last() =~= before);
}

proof fn lemma_one_more_response(
    items: Seq<WorkItem>,
    responses: Seq<Result<Vec<u8>, FetchError>>,
    fetched: Result<Vec<u8>, FetchError>,
)
    requires
        responses.len() < items.len(),
    ensures
        reports(
            items.take(responses.len() as int + 1),
            response_views(responses.push(fetched)),
        ) == match item_report(items[responses.len() as int], response_view(fetched)) {
            Some(report) => reports(
                items.take(responses.len() as int),
                response_views(responses),
            ).push(report),
            None => reports(items.take(responses.len() as int), response_views(responses)),
        },
{
    let done = responses.len() as int;
    let before = outcomes(items.take(done), response_views(responses));
    let outcome = item_report(items[done], response_view(fetched));
    assert(outcomes(items.take(done + 1), response_views(responses.push(fetched)))
        =~= before.push(outcome));
    lemma_emitted_push(before, outcome);
}

proof fn lemma_one_more_answer<F: Fn(&str) -> Result<Vec<u8>, FetchError>>(
    fetch: &F,
    items: Seq<WorkItem>,
    responses: Seq<Result<Vec<u8>, FetchError>>,
    asked: &str,
    fetched: Result<Vec<u8>, FetchError>,
)
    requires
        responses.len() < items.len(),
        answers(fetch, items.take(responses.len() as int), responses),
        asked@ == items[responses.len() as int].target.locator,
        call_ensures(fetch, (asked,), fetched),
    ensures
        answers(fetch, items.take(responses.len() as int + 1), responses.push(fetched)),
{
    let done = responses.len() as int;
    let longer = responses.push(fetched);
    assert forall|i: int| 0 <= i < done + 1 implies #[trigger] answer_of(
        fetch,
        items.take(done + 1)[i].target.locator,
        longer[i],
    ) by {
        if i < done {
            assert(answer_of(fetch, items.take(done)[i].target.locator, responses[i]));
        }
    }
}

/// Runs one cycle over `groups`: fetches every target once, in order, and
/// returns what is to be reported, in that order.
///
/// A fetch that fails, or content from which no signal can be had, is
/// reported for its target and the cycle goes on.
pub fn poll_cycle<F: Fn(&str) -> Result<Vec<u8>, FetchError>>(
    groups: &[TrackingGroup],
    fetch: &F,
) -> (out: Vec<Report>)
    requires
        can_fetch(fetch, cycle_items(group_views(groups@))),
    ensures
        exists|responses: Seq<Result<Vec<u8>, FetchError>>|
            #[trigger] answers(fetch, cycle_items(group_views(groups@)), responses)
                && report_views(out@) == reports(
                cycle_items(group_views(groups@)),
                response_views(responses),
            ),
        forall|i: int| 0 <= i < out@.len() ==> !blames_configuration(#[trigger] out@[i]@),
{
    let ghost items = cycle_items(group_views(groups@));
    let ghost mut responses: Seq<Result<Vec<u8>, FetchError>> = Seq::empty();
    let mut cycle = PollCycle::begin(groups);
    let mut out: Vec<Report> = Vec::new();
    proof {
        assert(report_views(out@) =~= reports(items.take(0), response_views(responses)));
    }
    loop
        invariant
            can_fetch(fetch, items),
            items == cycle_items(group_views(groups@)),
            cycle.groups() == group_views(groups@),
            cycle.polled() == responses.len(),
            responses.len() <= items.len(),
            answers(fetch, items.take(responses.len() as int), responses),
            report_views(out@) == reports(
                items.take(responses.len() as int),
                response_views(responses),
            ),
            forall|i: int| 0 <= i < out@.len() ==> !blames_configuration(#[trigger] out@[i]@),
        ensures
            answers(fetch, items, responses),
            report_views(out@) == reports(items, response_views(responses)),
            forall|i: int| 0 <= i < out@.len() ==> !blames_configuration(#[trigger] out@[i]@),
        decreases items.len() - responses.len(),
    {
        match cycle.pending() {
            None => {
                proof {
                    assert(items.take(responses.len() as int) =~= items);
                }
                break ;
            },
            Some(locator) => {
                proof {
                    assert(items[responses.len() as int].target.locator == locator@);
                    assert(is_asked_for(items, locator@));
                }
                let fetched = fetch(locator);
                let report = cycle.record(&fetched);
                let ghost earlier = report_views(out@);
                proof {
                    lemma_one_more_response(items, responses, fetched);
                    lemma_one_more_answer(fetch, items, responses, locator, fetched);
                    responses = responses.push(fetched);
                }
                match report {
                    Some(r) => {
                        out.push(r);
                        proof {
                            assert(report_views(out@) =~= earlier.push(r@));
                        }
                    },
                    None => {},
                }
            },
        }
    }
    out
}

impl TrackingGroup {
    /// Polls the targets of this group alone: fetches each once, in order,
    /// and returns what is to be reported, in that order.
    ///
    /// A fetch that fails, or content from which no signal can be had, is
    /// reported for its target and the next target has its turn.
    pub fn poll<F: Fn(&str) -> Result<Vec<u8>, FetchError>>(&self, fetch: &F) -> (out: Vec<Report>)
        requires
            can_fetch(fetch, group_items(self@)),
        ensures
            exists|responses: Seq<Result<Vec<u8>, FetchError>>|
                #[trigger] answers(fetch, group_items(self@), responses) && report_views(out@)
                    == reports(group_items(self@), response_views(responses)),
            forall|i: int| 0 <= i < out@.len() ==> !blames_configuration(#[trigger] out@[i]@),
    {
        let ghost items = group_items(self@);
        let ghost mut responses: Seq<Result<Vec<u8>, FetchError>> = Seq::empty();
        let targets = self.targets();
        let mut out: Vec<Report> = Vec::new();
        let mut at: usize = 0;
        proof {
            assert(report_views(out@) =~= reports(items.take(0), response_views(responses)));
        }
        while at < targets.len()
            invariant
                can_fetch(fetch, items),
                items == group_items(self@),
                target_views(targets@) == self@.targets,
                at == responses.len(),
                at <= targets@.len(),
                answers(fetch, items.take(at as int), responses),
                report_views(out@) == reports(items.take(at as int), response_views(responses)),
                forall|i: int| 0 <= i < out@.len() ==> !blames_configuration(#[trigger] out@[i]@),
            decreases targets@.len() - at,
        {
            let target = &targets[at];
            let locator = target.locator();
            proof {
                assert(self@.targets[at as int] == target@);
                assert(items[at as int].target.locator == locator@);
                assert(is_asked_for(items, locator@));
            }
            let fetched = fetch(locator);
            let report = assess(self, target, &fetched);
            let ghost earlier = report_views(out@);
            proof {
                lemma_one_more_response(items, responses, fetched);
                lemma_one_more_answer(fetch, items, responses, locator, fetched);
                responses = responses.push(fetched);
            }
            match report {
                Some(r) => {
                    out.push(r);
                    proof {
                        assert(report_views(out@) =~= earlier.push(r@));
                    }
                },
                None => {},
            }
            at = at + 1;
        }
        proof {
            assert(items.len() == target_views(targets@).len());
            assert(items.take(at as int) =~= items);
        }
        out
    }
}

/// The locators that a cycle over `groups` fetches, in the order of the
/// cycle: one for each target.
///
/// Together with [`report_cycle`] this serves a caller that fetches all
/// targets before any is judged, in whatever order or all at once.
pub fn cycle_locators<'a>(groups: &'a [TrackingGroup]) -> (locators: Vec<&'a str>)
    ensures
        locators@.len() == cycle_items(group_views(groups@)).len(),
        forall|i: int|
            0 <= i < locators@.len() ==> (#[trigger] locators@[i])@ == cycle_items(
                group_views(groups@),
            )[i].target.locator,
{
    let ghost views = group_views(groups@);
    let mut locators: Vec<&'a str> = Vec::new();
    let mut group: usize = 0;
    proof {
        assert(views.take(0) =~= Seq::<GroupView>::empty());
    }
    while group < groups.len()
        invariant
            views == group_views(groups@),
            group <= groups@.len(),
            locators@.len() == items_before(views, group as int),
            forall|i: int|
                0 <= i < locators@.len() ==> (#[trigger] locators@[i])@ == cycle_items(
                    views.take(group as int),
                )[i].target.locator,
        decreases groups@.len() - group,
    {
        let targets = groups[group].targets();
        let ghost earlier = cycle_items(views.take(group as int));
        let ghost added = group_items(views[group as int]);
        proof {
            lemma_items_of_one_more(views, group as int);
        }
        let mut target: usize = 0;
        while target < targets.len()
            invariant
                target <= targets@.len(),
                target_views(targets@) == views[group as int].targets,
                added == group_items(views[group as int]),
                locators@.len() == earlier.len() + target,
                forall|i: int|
                    0 <= i < locators@.len() ==> (#[trigger] locators@[i])@ == (earlier
                        + added)[i].target.locator,
            decreases targets@.len() - target,
        {
            let locator = targets[target].locator();
            proof {
                assert(views[group as int].targets[target as int] == targets@[target as int]@);
            }
            locators.push(locator);
            target = target + 1;
        }
        group = group + 1;
    }
    proof {
        assert(views.take(group as int) =~= views);
    }
    locators
}

/// Judges a whole cycle at once, from what the fetch of each target handed
/// back: `responses` holds one response for each locator of
/// [`cycle_locators`], in that order.
///
/// The reports are decided by the groups and the responses alone, so the
/// same responses give the same reports. Where the number of responses is
/// not the number of targets, nothing is judged and `None` is returned.
pub fn report_cycle(groups: &[TrackingGroup], responses: &[Result<Vec<u8>, FetchError>]) -> (out:
    Option<Vec<Report>>)
    ensures
        out is Some <==> responses@.len() == cycle_items(group_views(groups@)).len(),
        out matches Some(found) ==> {
            &&& report_views(found@) == reports(
                cycle_items(group_views(groups@)),
                response_views(responses@),
            )
            &&& forall|i: int|
                0 <= i < found@.len() ==> !blames_configuration(#[trigger] found@[i]@)
        },
{
    let ghost items = cycle_items(group_views(groups@));
    let mut cycle = PollCycle::begin(groups);
    let mut found: Vec<Report> = Vec::new();
    let mut at: usize = 0;
    proof {
        assert(report_views(found@) =~= reports(
            items.take(0),
            response_views(responses@.take(0)),
        ));
    }
    loop
        invariant
            items == cycle_items(group_views(groups@)),
            cycle.groups() == group_views(groups@),
            cycle.polled() == at,
            at <= items.len(),
            at <= responses@.len(),
            report_views(found@) == reports(
                items.take(at as int),
                response_views(responses@.take(at as int)),
            ),
            forall|i: int| 0 <= i < found@.len() ==> !blames_configuration(#[trigger] found@[i]@),
        decreases items.len() - at,
    {
        match cycle.pending() {
            None => {
                proof {
                    assert(items.take(at as int) =~= items);
                    if at == responses@.len() {
                        assert(responses@.take(at as int) =~= responses@);
                    }
                }
                return if at == responses.len() {
                    Some(found)
                } else {
                    None
                };
            },
            Some(_) => {
                if at >= responses.len() {
                    return None;
                }
                let report = cycle.record(&responses[at]);
                let ghost earlier = report_views(found@);
                proof {
                    lemma_one_more_response(items, responses@.take(at as int), responses@[at as int]);
                    assert(responses@.take(at as int).push(responses@[at as int])
                        =~= responses@.take(at as int + 1));
                }
                match report {
                    Some(r) => {
                        found.push(r);
                        proof {
                            assert(report_views(found@) =~= earlier.push(r@));
                        }
                    },
                    None => {},
                }
                at = at + 1;
            },
        }
    }
}

/// A cycle has exactly one outcome for each item, and no more reports than
/// outcomes.
pub proof fn one_outcome_per_item(items: Seq<WorkItem>, responses: Seq<Result<Seq<u8>, FetchError>>)
    ensures
        outcomes(items, responses).len() == items.len(),
        reports(items, responses).len() <= items.len(),
{
    lemma_emitted_is_no_longer(outcomes(items, responses));
}

proof fn lemma_emitted_is_no_longer(outcomes: Seq<Option<ReportView>>)
    ensures
        emitted(outcomes).len() <= outcomes.len(),
    decreases outcomes.len(),
{
    if outcomes.len() > 0 {
        lemma_emitted_is_no_longer(outcomes.drop_last());
    }
}

/// Failure isolation. Whatever comes back for the item at index `at`, be it
/// a failure, the outcome of every other item stays what it is.
pub proof fn outcomes_elsewhere_are_untouched(
    items: Seq<WorkItem>,
    responses: Seq<Result<Seq<u8>, FetchError>>,
    at: int,
    other: Result<Seq<u8>, FetchError>,
)
    requires
        0 <= at < items.len(),
        responses.len() == items.len(),
    ensures
        forall|i: int|
            0 <= i < items.len() && i != at ==> #[trigger] outcomes(
                items,
                responses.update(at, other),
            )[i] == outcomes(items, responses)[i],
{
}

/// A fetch that fails is reported as a target error that names the item's
/// group and target and gives the fetch error as its cause.
pub proof fn failed_fetch_is_reported(item: WorkItem, error: FetchError)
    ensures
        item_report(item, Err(error)) == Some(
            ReportView::Failure(
                failure(item.group_label, item.target, FailureCause::Fetch(error)),
            ),
        ),
{
}

/// What is called for by one item is among the cycle's reports, whatever
/// the other items came to.
pub proof fn report_is_emitted(
    items: Seq<WorkItem>,
    responses: Seq<Result<Seq<u8>, FetchError>>,
    at: int,
)
    requires
        0 <= at < items.len(),
        item_report(items[at], responses[at]) is Some,
    ensures
        reports(items, responses).contains(item_report(items[at], responses[at])->0),
{
    lemma_emitted_holds(outcomes(items, responses), at);
}

proof fn lemma_emitted_holds(outcomes: Seq<Option<ReportView>>, at: int)
    requires
        0 <= at < outcomes.len(),
        outcomes[at] is Some,
    ensures
        emitted(outcomes).contains(outcomes[at]->0),
    decreases outcomes.len(),
{
    let before = emitted(outcomes.drop_last());
    if at == outcomes.len() - 1 {
        let all = before.push(outcomes[at]->0);
        assert(all[all.len() - 1] == outcomes[at]->0);
    } else {
        lemma_emitted_holds(outcomes.drop_last(), at);
        let witness = choose|k: int| 0 <= k < before.len() && before[k] == outcomes[at]->0;
        match outcomes.last() {
            Some(report) => {
                assert(before.push(report)[witness] == outcomes[at]->0);
            },
            None => {},
        }
    }
}

/// Nothing is reported that no item called for.
pub proof fn emitted_report_has_an_item(
    items: Seq<WorkItem>,
    responses: Seq<Result<Seq<u8>, FetchError>>,
    report: ReportView,
)
    requires
        reports(items, responses).contains(report),
    ensures
        exists|at: int|
            0 <= at < items.len() && #[trigger] item_report(items[at], responses[at]) == Some(
                report,
            ),
{
    lemma_emitted_stems(outcomes(items, responses), report);
    let at = choose|at: int|
        0 <= at < items.len() && #[trigger] outcomes(items, responses)[at] == Some(report);
    assert(item_report(items[at], responses[at]) == Some(report));
}

proof fn lemma_emitted_stems(outcomes: Seq<Option<ReportView>>, report: ReportView)
    requires
        emitted(outcomes).contains(report),
    ensures
        exists|at: int| 0 <= at < outcomes.len() && #[trigger] outcomes[at] == Some(report),
    decreases outcomes.len(),
{
    if outcomes.len() > 0 {
        let last = outcomes.len() - 1;
        let before = emitted(outcomes.drop_last());
        if outcomes[last] == Some(report) {
        } else {
            let k = choose|k: int| 0 <= k < emitted(outcomes).len() && emitted(outcomes)[k] == report;
            match outcomes.last() {
                Some(other) => {
                    assert(before.push(other)[k] == report);
                    assert(k < before.len());
                    assert(before[k] == report);
                },
                None => {},
            }
            assert(before.contains(report));
            lemma_emitted_stems(outcomes.drop_last(), report);
            let at = choose|at: int|
                0 <= at < outcomes.drop_last().len() && #[trigger] outcomes.drop_last()[at] == Some(
                    report,
                );
            assert(outcomes[at] == Some(report));
        }
    }
}

proof fn lemma_emitted_of_both(first: Seq<Option<ReportView>>, second: Seq<Option<ReportView>>)
    ensures
        emitted(first + second) == emitted(first) + emitted(second),
    decreases second.len(),
{
    if second.len() == 0 {
        assert(first + second =~= first);
        assert(emitted(first) + emitted(second) =~= emitted(first));
    } else {
        let both = first + second;
        assert(both.drop_last() =~= first + second.drop_last());
        assert(both.last() == second.last());
        lemma_emitted_of_both(first, second.drop_last());
        match second.last() {
            Some(report) => {
                assert(emitted(first + second.drop_last()).push(report) =~= emitted(first)
                    + emitted(second.drop_last()).push(report));
            },
            None => {},
        }
    }
}

/// The order of the reports. A cycle reports group by group: what it
/// reports over `groups` and one more `group` is what it reports over
/// `groups`, followed by what it reports over `group` alone.
pub proof fn cycle_reports_group_by_group(
    groups: Seq<GroupView>,
    group: GroupView,
    responses: Seq<Result<Seq<u8>, FetchError>>,
)
    requires
        responses.len() == cycle_items(groups).len() + group.targets.len(),
    ensures
        cycle_items(groups.push(group)) == cycle_items(groups) + group_items(group),
        reports(cycle_items(groups.push(group)), responses) == reports(
            cycle_items(groups),
            responses.take(cycle_items(groups).len() as int),
        ) + reports(group_items(group), responses.skip(cycle_items(groups).len() as int)),
{
    let earlier = cycle_items(groups);
    let added = group_items(group);
    let split = earlier.len() as int;
    assert(groups.push(group).drop_last() =~= groups);
    assert(outcomes(earlier + added, responses) =~= outcomes(earlier, responses.take(split))
        + outcomes(added, responses.skip(split)));
    lemma_emitted_of_both(
        outcomes(earlier, responses.take(split)),
        outcomes(added, responses.skip(split)),
    );
}

/// A cycle over one group is the poll of that group.
pub proof fn cycle_over_one_group(group: GroupView)
    ensures
        cycle_items(seq![group]) == group_items(group),
{
    let alone = seq![group];
    assert(alone.drop_last() =~= Seq::<GroupView>::empty());
    assert(alone.last() == group);
    assert(cycle_items(alone.drop_last()) =~= Seq::<WorkItem>::empty());
    assert(cycle_items(alone) =~= group_items(group));
}

/// A cycle can be repeated: over the same items, responses that agree one by
/// one give the same reports in the same order.
pub proof fn cycle_is_repeatable(
    items: Seq<WorkItem>,
    first: Seq<Result<Seq<u8>, FetchError>>,
    second: Seq<Result<Seq<u8>, FetchError>>,
)
    requires
        forall|i: int| 0 <= i < items.len() ==> first[i] == second[i],
    ensures
        reports(items, first) == reports(items, second),
{
    assert(outcomes(items, first) =~= outcomes(items, second));
}

/// Whether `fetch` hands back the same content, or the same error, whenever
/// it is asked for the same locator.
pub open spec fn answers_alike<F: Fn(&str) -> Result<Vec<u8>, FetchError>>(fetch: &F) -> bool {
    forall|asked: &str, again: &str, first: Result<Vec<u8>, FetchError>, second: Result<
        Vec<u8>,
        FetchError,
    >|
        asked@ == again@ && #[trigger] call_ensures(fetch, (asked,), first) && #[trigger] call_ensures(
            fetch,
            (again,),
            second,
        ) ==> response_view(first) == response_view(second)
}

/// Idempotence. Two cycles over the same items, with a fetch that answers
/// alike both times, report the same, in the same order.
pub proof fn repeated_cycles_agree<F: Fn(&str) -> Result<Vec<u8>, FetchError>>(
    fetch: &F,
    items: Seq<WorkItem>,
    first: Seq<Result<Vec<u8>, FetchError>>,
    second: Seq<Result<Vec<u8>, FetchError>>,
)
    requires
        answers_alike(fetch),
        answers(fetch, items, first),
        answers(fetch, items, second),
    ensures
        reports(items, response_views(first)) == reports(items, response_views(second)),
{
    assert forall|i: int| 0 <= i < items.len() implies response_views(first)[i] == response_views(
        second,
    )[i] by {
        assert(answer_of(fetch, items[i].target.locator, first[i]));
        assert(answer_of(fetch, items[i].target.locator, second[i]));
        let asked = choose|asked: &str|
            asked@ == items[i].target.locator && #[trigger] call_ensures(
                fetch,
                (asked,),
                first[i],
            );
        let again = choose|again: &str|
            again@ == items[i].target.locator && #[trigger] call_ensures(
                fetch,
                (again,),
                second[i],
            );
        assert(response_view(first[i]) == response_view(second[i]));
    }
    cycle_is_repeatable(items, response_views(first), response_views(second));
}

} // verus!
