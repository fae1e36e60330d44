use stock_watch::cycle::{
    assess, cycle_locators, observe, poll_cycle, report_cycle, PollCycle,
};
use stock_watch::extractor::{ExtractionError, SignalExtractor};
use stock_watch::report::{ChangeEvent, FailureCause, FetchError, Report, TargetError};
use stock_watch::target::{Target, TrackingGroup};

fn retailer_x(baseline: usize) -> TrackingGroup {
    TrackingGroup::new(
        "Retailer X",
        SignalExtractor::substring_count("OUT_OF_STOCK").unwrap(),
        vec![Target::new("Console", "https://x.example/console", baseline)],
    )
}

fn three_targets() -> TrackingGroup {
    TrackingGroup::new(
        "Shop",
        SignalExtractor::substring_count("sold out").unwrap(),
        vec![
            Target::new("Drive", "https://shop.example/drive", 1),
            Target::new("Digital", "https://shop.example/digital", 1),
            Target::new("Index", "https://shop.example/index", 2),
        ],
    )
}

fn change(group: &str, target: &str, locator: &str, baseline: usize, observed: usize) -> Report {
    Report::Change(ChangeEvent {
        group_label: group.to_string(),
        target_label: target.to_string(),
        locator: locator.to_string(),
        baseline_signal: baseline,
        observed_signal: observed,
    })
}

fn failure(group: &str, target: &str, locator: &str, cause: FailureCause) -> Report {
    Report::Failure(TargetError {
        group_label: group.to_string(),
        target_label: target.to_string(),
        locator: locator.to_string(),
        cause,
    })
}

#[test]
fn pattern_twice_against_baseline_one_emits_a_change() {
    let groups = vec![retailer_x(1)];
    let fetch = |_locator: &str| -> Result<Vec<u8>, FetchError> {
        Ok(b"<p>OUT_OF_STOCK</p><p>OUT_OF_STOCK</p>".to_vec())
    };
    let reports = poll_cycle(&groups, &fetch);
    assert_eq!(
        reports,
        vec![change("Retailer X", "Console", "https://x.example/console", 1, 2)]
    );
}

#[test]
fn pattern_once_against_baseline_one_emits_nothing() {
    let groups = vec![retailer_x(1)];
    let fetch =
        |_locator: &str| -> Result<Vec<u8>, FetchError> { Ok(b"<p>OUT_OF_STOCK</p>".to_vec()) };
    assert_eq!(poll_cycle(&groups, &fetch), vec![]);
}

#[test]
fn failure_of_one_target_leaves_the_others_their_outcome() {
    let groups = vec![three_targets()];
    let fetch = |locator: &str| -> Result<Vec<u8>, FetchError> {
        match locator {
            "https://shop.example/drive" => Ok(b"in stock".to_vec()),
            "https://shop.example/digital" => Err(FetchError::NetworkFailure),
            _ => Ok(b"sold out, sold out, sold out".to_vec()),
        }
    };
    assert_eq!(
        poll_cycle(&groups, &fetch),
        vec![
            change("Shop", "Drive", "https://shop.example/drive", 1, 0),
            failure(
                "Shop",
                "Digital",
                "https://shop.example/digital",
                FailureCause::Fetch(FetchError::NetworkFailure)
            ),
            change("Shop", "Index", "https://shop.example/index", 2, 3),
        ]
    );
}

#[test]
fn failure_of_one_target_does_not_break_the_silence_of_the_others() {
    let groups = vec![three_targets()];
    let fetch = |locator: &str| -> Result<Vec<u8>, FetchError> {
        match locator {
            "https://shop.example/drive" => Ok(b"sold out".to_vec()),
            "https://shop.example/digital" => Err(FetchError::Timeout),
            _ => Ok(b"sold out / sold out".to_vec()),
        }
    };
    assert_eq!(
        poll_cycle(&groups, &fetch),
        vec![failure(
            "Shop",
            "Digital",
            "https://shop.example/digital",
            FailureCause::Fetch(FetchError::Timeout)
        )]
    );
}

#[test]
fn two_cycles_over_the_same_responses_report_the_same() {
    let groups = vec![
        three_targets(),
        TrackingGroup::new(
            "Categories",
            SignalExtractor::element_count("ul > li").unwrap(),
            vec![
                Target::new("Index", "https://cat.example/", 7),
                Target::new("Broken", "https://cat.example/raw", 0),
            ],
        ),
    ];
    let fetch = |locator: &str| -> Result<Vec<u8>, FetchError> {
        match locator {
            "https://shop.example/digital" => Err(FetchError::NonSuccessStatus(404)),
            "https://cat.example/" => Ok(b"<ul><li>a</li><li>b</li></ul>".to_vec()),
            "https://cat.example/raw" => Ok(vec![0xff, 0xff]),
            _ => Ok(b"sold out".to_vec()),
        }
    };
    let first = poll_cycle(&groups, &fetch);
    let second = poll_cycle(&groups, &fetch);
    assert_eq!(first, second);
    assert_eq!(
        first,
        vec![
            failure(
                "Shop",
                "Digital",
                "https://shop.example/digital",
                FailureCause::Fetch(FetchError::NonSuccessStatus(404))
            ),
            change("Shop", "Index", "https://shop.example/index", 2, 1),
            change("Categories", "Index", "https://cat.example/", 7, 2),
            failure(
                "Categories",
                "Broken",
                "https://cat.example/raw",
                FailureCause::Extraction(ExtractionError::ParseFailed)
            ),
        ]
    );
}

#[test]
fn cycle_without_groups_or_targets_reports_nothing() {
    let fetch = |_locator: &str| -> Result<Vec<u8>, FetchError> { Err(FetchError::Timeout) };
    assert_eq!(poll_cycle(&[], &fetch), vec![]);
    let empty = vec![TrackingGroup::new(
        "Empty",
        SignalExtractor::substring_count("x").unwrap(),
        vec![],
    )];
    assert_eq!(poll_cycle(&empty, &fetch), vec![]);
}

#[test]
fn each_target_is_fetched_once_in_declaration_order() {
    let groups = vec![
        three_targets(),
        TrackingGroup::new("Empty", SignalExtractor::substring_count("x").unwrap(), vec![]),
        retailer_x(1),
    ];
    let asked = std::cell::RefCell::new(Vec::new());
    let fetch = |locator: &str| -> Result<Vec<u8>, FetchError> {
        asked.borrow_mut().push(locator.to_string());
        Err(FetchError::Timeout)
    };
    let reports = poll_cycle(&groups, &fetch);
    assert_eq!(reports.len(), 4);
    assert_eq!(
        asked.into_inner(),
        vec![
            "https://shop.example/drive",
            "https://shop.example/digital",
            "https://shop.example/index",
            "https://x.example/console",
        ]
    );
}

#[test]
fn group_poll_reports_its_own_targets() {
    let group = three_targets();
    let fetch = |locator: &str| -> Result<Vec<u8>, FetchError> {
        if locator.ends_with("index") {
            Ok(b"sold out".to_vec())
        } else if locator.ends_with("digital") {
            Err(FetchError::NonSuccessStatus(404))
        } else {
            Ok(b"sold out, sold out, sold out".to_vec())
        }
    };
    assert_eq!(
        group.poll(&fetch),
        vec![
            change("Shop", "Drive", "https://shop.example/drive", 1, 3),
            failure(
                "Shop",
                "Digital",
                "https://shop.example/digital",
                FailureCause::Fetch(FetchError::NonSuccessStatus(404))
            ),
            change("Shop", "Index", "https://shop.example/index", 2, 1),
        ]
    );
    let all_at_baseline = |locator: &str| -> Result<Vec<u8>, FetchError> {
        if locator.ends_with("index") {
            Ok(b"sold out, sold out".to_vec())
        } else {
            Ok(b"sold out".to_vec())
        }
    };
    assert_eq!(group.poll(&all_at_baseline), vec![]);
    assert_eq!(group.label(), "Shop");
    assert_eq!(group.targets().len(), 3);
    assert_eq!(group.extractor().extract(b"sold out"), Ok(1));
}

#[test]
fn cycle_in_steps_asks_for_each_target_and_then_ends() {
    let groups = vec![
        TrackingGroup::new("Empty", SignalExtractor::substring_count("x").unwrap(), vec![]),
        three_targets(),
        TrackingGroup::new("Empty too", SignalExtractor::substring_count("x").unwrap(), vec![]),
        retailer_x(0),
    ];
    let mut cycle = PollCycle::begin(&groups);

    assert_eq!(cycle.pending(), Some("https://shop.example/drive"));
    // Asking again changes nothing.
    assert_eq!(cycle.pending(), Some("https://shop.example/drive"));
    assert_eq!(cycle.record(&Ok(b"sold out".to_vec())), None);

    assert_eq!(cycle.pending(), Some("https://shop.example/digital"));
    assert_eq!(
        cycle.record(&Err(FetchError::NonSuccessStatus(500))),
        Some(failure(
            "Shop",
            "Digital",
            "https://shop.example/digital",
            FailureCause::Fetch(FetchError::NonSuccessStatus(500))
        ))
    );

    assert_eq!(cycle.pending(), Some("https://shop.example/index"));
    assert_eq!(
        cycle.record(&Ok(b"nothing".to_vec())),
        Some(change("Shop", "Index", "https://shop.example/index", 2, 0))
    );

    assert_eq!(cycle.pending(), Some("https://x.example/console"));
    assert_eq!(
        cycle.record(&Ok(b"OUT_OF_STOCK".to_vec())),
        Some(change("Retailer X", "Console", "https://x.example/console", 0, 1))
    );

    assert_eq!(cycle.pending(), None);
    assert_eq!(cycle.pending(), None);
}

#[test]
fn cycle_in_steps_over_nothing_ends_at_once() {
    let groups: Vec<TrackingGroup> = vec![];
    assert_eq!(PollCycle::begin(&groups).pending(), None);
    let empty = vec![TrackingGroup::new(
        "Empty",
        SignalExtractor::substring_count("x").unwrap(),
        vec![],
    )];
    assert_eq!(PollCycle::begin(&empty).pending(), None);
}

#[test]
fn observe_gives_the_signal_or_the_cause() {
    let by_text = SignalExtractor::substring_count("ab").unwrap();
    let by_element = SignalExtractor::element_count("p").unwrap();
    let target = Target::new("Drive", "https://shop.example/drive", 1);
    assert_eq!(observe(&by_text, &target, &Ok(b"abcab".to_vec())).result, Ok(2));
    assert_eq!(observe(&by_element, &target, &Ok(b"<p>ab</p>".to_vec())).result, Ok(1));
    assert_eq!(
        observe(&by_text, &target, &Err(FetchError::Timeout)).result,
        Err(FailureCause::Fetch(FetchError::Timeout))
    );
    assert_eq!(
        observe(&by_element, &target, &Ok(vec![0x80])).result,
        Err(FailureCause::Extraction(ExtractionError::ParseFailed))
    );
    assert_eq!(observe(&by_text, &target, &Ok(vec![])).target, &target);
}

#[test]
fn assess_judges_one_target_by_the_rule_of_the_group() {
    let group = retailer_x(1);
    let target = &group.targets()[0];
    assert_eq!(assess(&group, target, &Ok(b"OUT_OF_STOCK".to_vec())), None);
    assert_eq!(
        assess(&group, target, &Ok(b"".to_vec())),
        Some(change("Retailer X", "Console", "https://x.example/console", 1, 0))
    );
    assert_eq!(
        assess(&group, target, &Err(FetchError::NetworkFailure)),
        Some(failure(
            "Retailer X",
            "Console",
            "https://x.example/console",
            FailureCause::Fetch(FetchError::NetworkFailure)
        ))
    );
}

#[test]
fn cycle_locators_name_every_target_in_order() {
    let groups = vec![
        TrackingGroup::new("Empty", SignalExtractor::substring_count("x").unwrap(), vec![]),
        three_targets(),
        retailer_x(1),
    ];
    assert_eq!(
        cycle_locators(&groups),
        vec![
            "https://shop.example/drive",
            "https://shop.example/digital",
            "https://shop.example/index",
            "https://x.example/console",
        ]
    );
    assert_eq!(cycle_locators(&[]), Vec::<&str>::new());
}

#[test]
fn cycle_judged_at_once_reports_as_the_cycle_in_steps() {
    let groups = vec![three_targets(), retailer_x(1)];
    let responses = vec![
        Ok(b"sold out".to_vec()),
        Err(FetchError::NetworkFailure),
        Ok(b"sold out".to_vec()),
        Ok(b"OUT_OF_STOCK OUT_OF_STOCK".to_vec()),
    ];
    let expected = vec![
        failure(
            "Shop",
            "Digital",
            "https://shop.example/digital",
            FailureCause::Fetch(FetchError::NetworkFailure),
        ),
        change("Shop", "Index", "https://shop.example/index", 2, 1),
        change("Retailer X", "Console", "https://x.example/console", 1, 2),
    ];
    assert_eq!(report_cycle(&groups, &responses), Some(expected.clone()));
    // The same responses give the same reports.
    assert_eq!(report_cycle(&groups, &responses), Some(expected.clone()));

    let mut cycle = PollCycle::begin(&groups);
    let mut in_steps = Vec::new();
    for response in &responses {
        assert!(cycle.pending().is_some());
        in_steps.extend(cycle.record(response));
    }
    assert_eq!(cycle.pending(), None);
    assert_eq!(in_steps, expected);
}

#[test]
fn cycle_judged_at_once_wants_one_response_for_each_target() {
    let groups = vec![three_targets()];
    let two = vec![Ok(b"sold out".to_vec()), Ok(b"sold out".to_vec())];
    assert_eq!(report_cycle(&groups, &two), None);
    let four = vec![
        Ok(b"sold out".to_vec()),
        Ok(b"sold out".to_vec()),
        Ok(b"sold out, sold out".to_vec()),
        Ok(b"sold out".to_vec()),
    ];
    assert_eq!(report_cycle(&groups, &four), None);
    assert_eq!(report_cycle(&groups, &four[..3]), Some(vec![]));
    assert_eq!(report_cycle(&[], &[]), Some(vec![]));
}
