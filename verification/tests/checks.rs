use prdash::checks::{counts_fit, CheckRollup, CheckRun, CheckState, RawCheck};

fn run(status: Option<&str>, conclusion: Option<&str>) -> RawCheck {
    RawCheck {
        name: Some("job".into()),
        context: None,
        status: status.map(|s| s.into()),
        conclusion: conclusion.map(|s| s.into()),
        state: None,
    }
}

fn status(state: &str) -> RawCheck {
    RawCheck { name: None, context: Some("ci/legacy".into()), status: None, conclusion: None, state: Some(state.into()) }
}

#[test]
fn commit_status_states_classify() {
    assert_eq!(status("SUCCESS").classify(), CheckState::Pass);
    assert_eq!(status("FAILURE").classify(), CheckState::Fail);
    assert_eq!(status("ERROR").classify(), CheckState::Fail);
    assert_eq!(status("PENDING").classify(), CheckState::Pending);
    assert_eq!(status("EXPECTED").classify(), CheckState::Pending);
    assert_eq!(status("WHATEVER").classify(), CheckState::Neutral);
}

#[test]
fn state_wins_over_run_fields() {
    let mut c = status("FAILURE");
    c.status = Some("COMPLETED".into());
    c.conclusion = Some("SUCCESS".into());
    assert_eq!(c.classify(), CheckState::Fail);
}

#[test]
fn unfinished_runs_are_pending() {
    assert_eq!(run(Some("IN_PROGRESS"), Some("SUCCESS")).classify(), CheckState::Pending);
    assert_eq!(run(Some("QUEUED"), None).classify(), CheckState::Pending);
}

#[test]
fn finished_run_conclusions_classify() {
    assert_eq!(run(Some("COMPLETED"), Some("SUCCESS")).classify(), CheckState::Pass);
    for c in ["FAILURE", "TIMED_OUT", "ACTION_REQUIRED", "STARTUP_FAILURE", "CANCELLED"] {
        assert_eq!(run(Some("COMPLETED"), Some(c)).classify(), CheckState::Fail, "{}", c);
    }
    for c in ["SKIPPED", "NEUTRAL", "STALE", "SOMETHING_NEW"] {
        assert_eq!(run(Some("COMPLETED"), Some(c)).classify(), CheckState::Neutral, "{}", c);
    }
    assert_eq!(run(Some("COMPLETED"), None).classify(), CheckState::Pending);
    assert_eq!(run(None, None).classify(), CheckState::Pending);
    assert_eq!(run(None, Some("SUCCESS")).classify(), CheckState::Pass);
    assert_eq!(run(Some(""), Some("FAILURE")).classify(), CheckState::Fail);
}

#[test]
fn label_falls_back_to_context_then_default() {
    assert_eq!(run(None, None).label(), "job");
    assert_eq!(status("SUCCESS").label(), "ci/legacy");
    let bare = RawCheck { name: None, context: None, status: None, conclusion: None, state: None };
    assert_eq!(bare.label(), "check");
    let both = RawCheck { name: Some("n".into()), context: Some("c".into()), status: None, conclusion: None, state: None };
    assert_eq!(both.label(), "n");
}

#[test]
fn check_run_takes_label_and_state() {
    let r = CheckRun::from(&status("ERROR"));
    assert_eq!(r.name, "ci/legacy");
    assert_eq!(r.state, CheckState::Fail);
}

#[test]
fn rollup_counts_every_entry_once() {
    let entries = vec![
        run(Some("COMPLETED"), Some("SUCCESS")),
        run(Some("COMPLETED"), Some("SUCCESS")),
        run(Some("COMPLETED"), Some("SKIPPED")),
        run(Some("IN_PROGRESS"), None),
        status("SUCCESS"),
    ];
    let r = CheckRollup::from_raw(&entries);
    assert_eq!((r.passing, r.failing, r.pending, r.skipped), (3, 0, 1, 1));
    assert_eq!(r.passing + r.failing + r.pending + r.skipped, entries.len() as u16);
    assert_eq!(r.overall, Some(CheckState::Pending));
}

#[test]
fn rollup_verdicts_by_precedence() {
    let pass = vec![run(Some("COMPLETED"), Some("SUCCESS")), run(Some("COMPLETED"), Some("NEUTRAL"))];
    assert_eq!(CheckRollup::from_raw(&pass).overall, Some(CheckState::Pass));
    let skipped = vec![run(Some("COMPLETED"), Some("SKIPPED"))];
    assert_eq!(CheckRollup::from_raw(&skipped).overall, Some(CheckState::Neutral));
    let fail = vec![status("PENDING"), status("ERROR"), status("SUCCESS")];
    assert_eq!(CheckRollup::from_raw(&fail).overall, Some(CheckState::Fail));
}

#[test]
fn counts_fit_detects_counter_overflow() {
    let few = vec![status("SUCCESS"); 3];
    assert!(counts_fit(&few));
    let at_limit = vec![status("SUCCESS"); 65535];
    assert!(counts_fit(&at_limit));
    assert_eq!(CheckRollup::from_raw(&at_limit).passing, 65535);
    let over = vec![status("SUCCESS"); 65536];
    assert!(!counts_fit(&over));
    let mixed: Vec<RawCheck> = vec![status("SUCCESS"); 65535].into_iter().chain(vec![status("ERROR"); 10]).collect();
    assert!(counts_fit(&mixed));
}
