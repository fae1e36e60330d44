use stock_watch::report::{
    detect, judge, ChangeEvent, ExtractionOutcome, FailureCause, FetchError, Report, TargetError,
};
use stock_watch::extractor::ExtractionError;
use stock_watch::target::Target;

#[test]
fn detector_is_silent_at_the_baseline() {
    let target = Target::new("Drive", "https://shop.example/ps5", 3);
    assert_eq!(detect("Shop", &target, 3), None);
    let zero = Target::new("Index", "https://shop.example/", 0);
    assert_eq!(detect("Shop", &zero, 0), None);
}

#[test]
fn detector_reports_any_other_signal() {
    let target = Target::new("Drive", "https://shop.example/ps5", 3);
    for observed in [0usize, 1, 2, 4, 5, 1000, usize::MAX] {
        assert_eq!(
            detect("Shop", &target, observed),
            Some(ChangeEvent {
                group_label: "Shop".to_string(),
                target_label: "Drive".to_string(),
                locator: "https://shop.example/ps5".to_string(),
                baseline_signal: 3,
                observed_signal: observed,
            })
        );
    }
}

#[test]
fn detector_has_no_tolerance() {
    let target = Target::new("Index", "https://shop.example/", 1000);
    assert!(detect("Shop", &target, 999).is_some());
    assert!(detect("Shop", &target, 1001).is_some());
    assert!(detect("Shop", &target, 1000).is_none());
}

#[test]
fn judge_turns_a_signal_into_a_change_or_silence() {
    let target = Target::new("Digital", "https://shop.example/d", 1);
    assert_eq!(judge("Shop", &ExtractionOutcome { target: &target, result: Ok(1) }), None);
    assert_eq!(
        judge("Shop", &ExtractionOutcome { target: &target, result: Ok(0) }),
        Some(Report::Change(ChangeEvent {
            group_label: "Shop".to_string(),
            target_label: "Digital".to_string(),
            locator: "https://shop.example/d".to_string(),
            baseline_signal: 1,
            observed_signal: 0,
        }))
    );
}

#[test]
fn judge_turns_every_cause_into_a_target_error() {
    let target = Target::new("Digital", "https://shop.example/d", 1);
    let causes = [
        FailureCause::Fetch(FetchError::NetworkFailure),
        FailureCause::Fetch(FetchError::NonSuccessStatus(503)),
        FailureCause::Fetch(FetchError::Timeout),
        FailureCause::Extraction(ExtractionError::ParseFailed),
        FailureCause::Extraction(ExtractionError::InvalidConfiguration),
    ];
    for cause in causes {
        assert_eq!(
            judge("Shop", &ExtractionOutcome { target: &target, result: Err(cause) }),
            Some(Report::Failure(TargetError {
                group_label: "Shop".to_string(),
                target_label: "Digital".to_string(),
                locator: "https://shop.example/d".to_string(),
                cause,
            }))
        );
    }
}

#[test]
fn target_keeps_what_it_was_made_with() {
    let target = Target::new("Drive", "https://shop.example/ps5", 7);
    assert_eq!(target.label(), "Drive");
    assert_eq!(target.locator(), "https://shop.example/ps5");
    assert_eq!(target.baseline_signal(), 7);
}

#[test]
fn target_identity_is_label_and_locator() {
    let target = Target::new("Drive", "https://shop.example/ps5", 7);
    assert!(target.is_same_target(&Target::new("Drive", "https://shop.example/ps5", 1)));
    assert!(!target.is_same_target(&Target::new("Digital", "https://shop.example/ps5", 7)));
    assert!(!target.is_same_target(&Target::new("Drive", "https://shop.example/other", 7)));
}
