use prdash::checks::{CheckRollup, CheckState, RawCheck};
use prdash::display::{pr_row_text, stack_header_text};
use prdash::grouping::group_stacks;
use prdash::pr::{MyReviewState, RawAuthor, RawPr, RawReviewer, ReviewState, Timestamp, summarize_prs};

fn pr(number: u32, head: &str, base: &str, secs: i64, checks: Vec<RawCheck>) -> RawPr {
    RawPr {
        number,
        title: format!("pr {}", number),
        author: RawAuthor { login: format!("dev{}", number) },
        head_ref: head.to_string(),
        base_ref: base.to_string(),
        is_draft: false,
        mergeable: String::new(),
        updated_at: Some(Timestamp { secs, nanos: 0 }),
        url: String::new(),
        review_decision: String::new(),
        status_check_rollup: checks,
        review_requests: Vec::new(),
        latest_reviews: Vec::new(),
        body: None,
        additions: None,
        deletions: None,
        changed_files: None,
    }
}

fn status(state: &str) -> RawCheck {
    RawCheck { name: None, context: Some("ci".into()), status: None, conclusion: None, state: Some(state.into()) }
}

#[test]
fn header_text_shows_bottom_and_rollups() {
    let mut a = pr(1, "a", "main", 10, vec![status("SUCCESS")]);
    a.review_decision = "APPROVED".into();
    a.is_draft = true;
    let mut b = pr(2, "b", "a", 20, vec![status("PENDING")]);
    b.review_decision = "REVIEW_REQUIRED".into();
    b.review_requests = vec![RawReviewer { login: "tim".into(), name: None }];
    let groups = group_stacks(summarize_prs(&[a, b], Some("tim")));
    let h = stack_header_text(&groups[0], false);
    assert_eq!(h.marker, "▸");
    assert!(!h.dim);
    assert_eq!(h.title, "pr 1");
    assert_eq!(h.count, 2);
    assert_eq!(h.author, "dev1");
    assert_eq!(h.head_ref, "a");
    assert_eq!(h.review, ReviewState::ReviewRequired);
    assert_eq!(h.my_review, MyReviewState::ReviewRequested);
    assert_eq!(h.checks.overall, Some(CheckState::Pending));
    assert_eq!(h.newest, Some(Timestamp { secs: 20, nanos: 0 }));
    assert_eq!(stack_header_text(&groups[0], true).marker, "▾");
}

#[test]
fn all_draft_stack_header_is_dimmed() {
    let mut a = pr(1, "a", "main", 10, Vec::new());
    a.is_draft = true;
    let mut b = pr(2, "b", "a", 20, Vec::new());
    b.is_draft = true;
    let groups = group_stacks(summarize_prs(&[a, b], None));
    assert!(stack_header_text(&groups[0], false).dim);
}

#[test]
fn pr_row_text_marks_drafts_and_tree_position() {
    let mut a = pr(7, "a", "main", 1, Vec::new());
    a.is_draft = true;
    let prs = summarize_prs(&[a], None);
    let lone = pr_row_text(&prs[0], false, false);
    assert_eq!(lone.number, 7);
    assert!(lone.draft_mark && lone.dim);
    assert_eq!(lone.glyph, "");
    assert_eq!(lone.title, "pr 7");
    assert_eq!(pr_row_text(&prs[0], true, false).glyph, "├─ ");
    assert_eq!(pr_row_text(&prs[0], true, true).glyph, "└─ ");
}

#[test]
fn stack_rollup_equals_rollup_of_all_member_checks() {
    let ca = vec![status("SUCCESS"), status("ERROR")];
    let cb = vec![status("PENDING"), status("SUCCESS")];
    let cc: Vec<RawCheck> = Vec::new();
    let raws = vec![
        pr(1, "a", "main", 1, ca.clone()),
        pr(2, "b", "a", 2, cb.clone()),
        pr(3, "c", "b", 3, cc.clone()),
    ];
    let groups = group_stacks(summarize_prs(&raws, None));
    let all: Vec<RawCheck> = ca.into_iter().chain(cb).chain(cc).collect();
    let whole = CheckRollup::from_raw(&all);
    let r = groups[0].checks_rollup();
    assert_eq!(
        (r.passing, r.failing, r.pending, r.skipped, r.overall),
        (whole.passing, whole.failing, whole.pending, whole.skipped, whole.overall)
    );
}
