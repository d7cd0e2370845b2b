use chrono::{DateTime, Utc};

use prdash::checks::{CheckRollup, CheckState, RawCheck};
use prdash::grouping::group_stacks;
use prdash::pr::{
    Mergeable, MyReviewState, PrDetail, PrSummary, RawAuthor, RawPr, RawReview, RawReviewer,
    ReviewState, ReviewerState, Timestamp, summarize_prs,
};

fn at(s: &str) -> Option<Timestamp> {
    let t: DateTime<Utc> = s.parse().unwrap();
    Some(Timestamp { secs: t.timestamp(), nanos: t.timestamp_subsec_nanos() })
}

fn pr(number: u32, title: &str, head: &str, base: &str, updated: &str) -> RawPr {
    RawPr {
        number,
        title: title.to_string(),
        author: RawAuthor { login: String::new() },
        head_ref: head.to_string(),
        base_ref: base.to_string(),
        is_draft: false,
        mergeable: String::new(),
        updated_at: if updated.is_empty() { None } else { at(updated) },
        url: format!("https://example.com/pull/{}", number),
        review_decision: String::new(),
        status_check_rollup: Vec::new(),
        review_requests: Vec::new(),
        latest_reviews: Vec::new(),
        body: None,
        additions: None,
        deletions: None,
        changed_files: None,
    }
}

fn run(name: &str, status: &str, conclusion: Option<&str>) -> RawCheck {
    RawCheck {
        name: Some(name.into()),
        context: None,
        status: Some(status.into()),
        conclusion: conclusion.map(|c| c.into()),
        state: None,
    }
}

fn review(login: &str, state: &str) -> RawReview {
    RawReview { author: RawAuthor { login: login.into() }, state: state.into() }
}

fn request(login: &str) -> RawReviewer {
    RawReviewer { login: login.into(), name: None }
}

/// Four open pull requests against main, in the shape `gh pr list` reports them.
fn list_fixture() -> Vec<RawPr> {
    let mut p101 = pr(101, "Add caching layer", "cache", "main", "2026-04-21T15:00:00Z");
    p101.author.login = "alice".into();
    p101.mergeable = "MERGEABLE".into();
    p101.review_decision = "APPROVED".into();
    p101.status_check_rollup = vec![
        run("build", "COMPLETED", Some("SUCCESS")),
        run("test", "COMPLETED", Some("SUCCESS")),
    ];
    p101.latest_reviews = vec![review("tim", "APPROVED")];

    let mut p102 = pr(102, "Rework config loading", "config", "main", "2026-04-19T09:00:00Z");
    p102.author.login = "bob".into();
    p102.mergeable = "MERGEABLE".into();
    p102.review_decision = "CHANGES_REQUESTED".into();
    p102.status_check_rollup = vec![
        run("build", "COMPLETED", Some("SUCCESS")),
        run("test", "COMPLETED", Some("FAILURE")),
    ];
    p102.latest_reviews = vec![review("tim", "CHANGES_REQUESTED")];

    let mut p103 = pr(103, "Speed up startup", "startup", "main", "2026-04-22T11:00:00Z");
    p103.author.login = "carol".into();
    p103.mergeable = "UNKNOWN".into();
    p103.review_decision = "REVIEW_REQUIRED".into();
    p103.status_check_rollup = vec![
        run("build", "COMPLETED", Some("SUCCESS")),
        run("test", "IN_PROGRESS", None),
    ];
    p103.review_requests = vec![request("tim")];

    let mut p104 = pr(104, "WIP: new theme", "theme", "main", "2026-04-20T08:00:00Z");
    p104.author.login = "dave".into();
    p104.is_draft = true;
    p104.mergeable = "CONFLICTING".into();

    vec![p102, p104, p101, p103]
}

/// A stack 201 <- 202 <- 203 plus two standalone pull requests.
fn stacked_fixture() -> Vec<RawPr> {
    let mut p201 = pr(201, "Extract storage trait", "storage-trait", "main", "2026-04-22T10:00:00Z");
    p201.review_decision = "APPROVED".into();
    p201.status_check_rollup = vec![run("ci", "COMPLETED", Some("SUCCESS"))];
    p201.latest_reviews = vec![review("tim", "APPROVED")];

    let mut p202 = pr(202, "Add sqlite backend", "sqlite", "storage-trait", "2026-04-22T12:00:00Z");
    p202.review_decision = "REVIEW_REQUIRED".into();
    p202.status_check_rollup = vec![run("ci", "QUEUED", None)];
    p202.review_requests = vec![request("tim")];

    let p203 = pr(203, "Migrate callers", "migrate", "sqlite", "2026-04-22T11:00:00Z");

    let p204 = pr(204, "Fix typo", "typo", "main", "2026-04-22T13:00:00Z");
    let p205 = pr(205, "Bump deps", "deps", "main", "2026-04-22T09:00:00Z");
    vec![p203, p205, p201, p204, p202]
}

fn view_fixture() -> RawPr {
    let mut p = pr(101, "Add caching layer", "cache", "main", "2026-04-21T15:00:00Z");
    p.author.login = "alice".into();
    p.mergeable = "MERGEABLE".into();
    p.review_decision = "APPROVED".into();
    p.status_check_rollup = vec![
        run("build", "COMPLETED", Some("SUCCESS")),
        run("test", "COMPLETED", Some("SUCCESS")),
    ];
    p.latest_reviews = vec![review("tim", "APPROVED")];
    p.review_requests = vec![request("erin")];
    p.body = Some("Adds an LRU cache in front of the store.".into());
    p.additions = Some(120);
    p.deletions = Some(30);
    p.changed_files = Some(5);
    p
}

fn parse_list(raws: Vec<RawPr>, viewer: Option<&str>) -> Vec<PrSummary> {
    summarize_prs(&raws, viewer)
}

#[test]
fn parses_list_fixture() {
    let prs = parse_list(list_fixture(), Some("tim"));
    assert_eq!(prs.len(), 4);

    assert_eq!(
        prs.iter().map(|p| p.number).collect::<Vec<_>>(),
        vec![103, 101, 104, 102]
    );

    let approved = prs.iter().find(|p| p.number == 101).unwrap();
    assert_eq!(approved.review, ReviewState::Approved);
    assert_eq!(approved.checks.overall, Some(CheckState::Pass));
    assert_eq!(approved.checks.passing, 2);
    assert_eq!(approved.author, "alice");
    assert!(!approved.is_draft);
    assert_eq!(approved.mergeable, Mergeable::Mergeable);
    assert_eq!(approved.my_review, MyReviewState::Approved);

    let changes = prs.iter().find(|p| p.number == 102).unwrap();
    assert_eq!(changes.review, ReviewState::ChangesRequested);
    assert_eq!(changes.checks.overall, Some(CheckState::Fail));
    assert_eq!(changes.checks.failing, 1);
    assert_eq!(changes.checks.passing, 1);
    assert_eq!(changes.my_review, MyReviewState::WaitingOnAuthor);

    let pending = prs.iter().find(|p| p.number == 103).unwrap();
    assert_eq!(pending.review, ReviewState::ReviewRequired);
    assert_eq!(pending.checks.overall, Some(CheckState::Pending));
    assert!(pending.checks.pending >= 1);
    assert_eq!(pending.my_review, MyReviewState::ReviewRequested);

    let draft = prs.iter().find(|p| p.number == 104).unwrap();
    assert!(draft.is_draft);
    assert_eq!(draft.review, ReviewState::NoDecision);
    assert_eq!(draft.checks.overall, None);
    assert_eq!(draft.my_review, MyReviewState::NotInvolved);
}

#[test]
fn my_review_waiting_on_author_is_distinct_from_review_requested() {
    let prs = parse_list(list_fixture(), Some("tim"));
    let waiting = prs.iter().find(|p| p.number == 102).unwrap();
    let requested = prs.iter().find(|p| p.number == 103).unwrap();
    assert_eq!(waiting.my_review, MyReviewState::WaitingOnAuthor);
    assert_eq!(requested.my_review, MyReviewState::ReviewRequested);
}

#[test]
fn no_viewer_means_all_not_involved() {
    let prs = parse_list(list_fixture(), None);
    for pr in &prs {
        assert_eq!(pr.my_review, MyReviewState::NotInvolved);
    }
}

#[test]
fn parses_view_fixture() {
    let detail = PrDetail::from_raw(&view_fixture(), Some("tim"));
    assert_eq!(detail.summary.number, 101);
    assert_eq!(detail.additions, 120);
    assert_eq!(detail.deletions, 30);
    assert_eq!(detail.changed_files, 5);
    assert_eq!(detail.checks.len(), 2);
    let approved_reviewer = detail
        .reviewers
        .iter()
        .find(|r| r.state == ReviewerState::Approved);
    assert!(approved_reviewer.is_some());
    let pending_reviewer = detail
        .reviewers
        .iter()
        .find(|r| r.state == ReviewerState::Pending);
    assert!(pending_reviewer.is_some());
    assert_eq!(detail.summary.my_review, MyReviewState::Approved);
}

#[test]
fn groups_stacked_prs_by_base_branch() {
    let prs = parse_list(stacked_fixture(), Some("tim"));
    let groups = group_stacks(prs);

    assert_eq!(groups.len(), 3);

    let stack = groups.iter().find(|g| g.is_stack()).unwrap();
    assert_eq!(
        stack.prs.iter().map(|p| p.number).collect::<Vec<_>>(),
        vec![201, 202, 203]
    );
    assert_eq!(stack.bottom().number, 201);

    // Groups sort by their newest member: #204 (13:00), stack (12:00), #205 (09:00).
    assert_eq!(groups[0].bottom().number, 204);
    assert!(groups[1].is_stack());
    assert_eq!(groups[2].bottom().number, 205);
}

#[test]
fn stack_rollups_surface_most_urgent_state() {
    let prs = parse_list(stacked_fixture(), Some("tim"));
    let groups = group_stacks(prs);
    let stack = groups.iter().find(|g| g.is_stack()).unwrap();

    // 201 approved, 202 review required, 203 no decision.
    assert_eq!(stack.review_rollup(), ReviewState::ReviewRequired);
    // Review requested from tim on 202 beats tim's approval on 201.
    assert_eq!(stack.my_review_rollup(), MyReviewState::ReviewRequested);
    // 201 passing + 202 pending -> pending overall.
    assert_eq!(stack.checks_rollup().overall, Some(CheckState::Pending));
    assert!(!stack.all_drafts());
}

#[test]
fn tree_shaped_stack_groups_all_descendants() {
    // One parent PR with three siblings based on it, like a feature
    // branch with several follow-ups.
    let raws = vec![
        pr(10, "base", "feat", "main", "2026-04-22T10:00:00Z"),
        pr(12, "b", "feat-b", "feat", "2026-04-22T11:00:00Z"),
        pr(11, "a", "feat-a", "feat", "2026-04-22T12:00:00Z"),
        pr(13, "c", "feat-c", "feat", "2026-04-22T13:00:00Z"),
    ];
    let prs = parse_list(raws, None);
    let groups = group_stacks(prs);
    assert_eq!(groups.len(), 1);
    let stack = &groups[0];
    assert_eq!(stack.bottom().number, 10);
    // Siblings follow the parent in PR-number order.
    assert_eq!(
        stack.prs.iter().map(|p| p.number).collect::<Vec<_>>(),
        vec![10, 11, 12, 13]
    );
}

#[test]
fn base_branch_cycle_falls_back_to_standalone() {
    let raws = vec![
        pr(1, "a", "x", "y", "2026-04-22T10:00:00Z"),
        pr(2, "b", "y", "x", "2026-04-22T11:00:00Z"),
    ];
    let prs = parse_list(raws, None);
    let groups = group_stacks(prs);
    assert_eq!(groups.len(), 2);
    assert!(groups.iter().all(|g| !g.is_stack()));
}

#[test]
fn parses_base_ref_from_list() {
    let prs = parse_list(list_fixture(), None);
    assert!(prs.iter().all(|p| p.base_ref == "main"));
}

#[test]
fn rollup_empty_is_none() {
    let r = CheckRollup::from_raw(&[]);
    assert_eq!(r.overall, None);
}

#[test]
fn rollup_fail_beats_pending() {
    let raws = vec![
        RawCheck {
            name: Some("a".into()),
            context: None,
            status: Some("COMPLETED".into()),
            conclusion: Some("FAILURE".into()),
            state: None,
        },
        RawCheck {
            name: Some("b".into()),
            context: None,
            status: Some("IN_PROGRESS".into()),
            conclusion: None,
            state: None,
        },
    ];
    assert_eq!(CheckRollup::from_raw(&raws).overall, Some(CheckState::Fail));
}

#[test]
fn status_context_shape_is_parsed() {
    let raw = RawCheck {
        name: None,
        context: Some("legacy/ci".into()),
        status: None,
        conclusion: None,
        state: Some("SUCCESS".into()),
    };
    assert_eq!(raw.classify(), CheckState::Pass);
    assert_eq!(raw.label(), "legacy/ci");
}
