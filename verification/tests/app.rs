use chrono::{DateTime, Utc};

use prdash::app::{App, ListRow, ViewMode};
use prdash::checks::RawCheck;
use prdash::pr::{PrSummary, RawAuthor, RawPr, RawReview, RawReviewer, Timestamp, summarize_prs};

fn at(s: &str) -> Option<Timestamp> {
    let t: DateTime<Utc> = s.parse().unwrap();
    Some(Timestamp { secs: t.timestamp(), nanos: t.timestamp_subsec_nanos() })
}

fn pr(number: u32, title: &str, head: &str, base: &str, updated: &str) -> RawPr {
    RawPr {
        number,
        title: title.to_string(),
        author: RawAuthor { login: String::new() },
        head_ref: head.to_string(),
        base_ref: base.to_string(),
        is_draft: false,
        mergeable: String::new(),
        updated_at: at(updated),
        url: format!("https://example.com/pull/{}", number),
        review_decision: String::new(),
        status_check_rollup: Vec::new(),
        review_requests: Vec::new(),
        latest_reviews: Vec::new(),
        body: None,
        additions: None,
        deletions: None,
        changed_files: None,
    }
}

/// A stack 201 <- 202 <- 203 plus two standalone pull requests.
fn stacked_fixture() -> Vec<PrSummary> {
    let mut p201 = pr(201, "Extract storage trait", "storage-trait", "main", "2026-04-22T10:00:00Z");
    p201.review_decision = "APPROVED".into();
    p201.status_check_rollup = vec![RawCheck {
        name: Some("ci".into()),
        context: None,
        status: Some("COMPLETED".into()),
        conclusion: Some("SUCCESS".into()),
        state: None,
    }];
    p201.latest_reviews = vec![RawReview { author: RawAuthor { login: "tim".into() }, state: "APPROVED".into() }];
    let mut p202 = pr(202, "Add sqlite backend", "sqlite", "storage-trait", "2026-04-22T12:00:00Z");
    p202.review_decision = "REVIEW_REQUIRED".into();
    p202.review_requests = vec![RawReviewer { login: "tim".into(), name: None }];
    let p203 = pr(203, "Migrate callers", "migrate", "sqlite", "2026-04-22T11:00:00Z");
    let p204 = pr(204, "Fix typo", "typo", "main", "2026-04-22T13:00:00Z");
    let p205 = pr(205, "Bump deps", "deps", "main", "2026-04-22T09:00:00Z");
    summarize_prs(&[p203, p205, p201, p204, p202], Some("tim"))
}

fn app_with_fixture() -> App {
    let mut app = App::new("example/repo".into(), 60, true, 100);
    app.apply_prs(stacked_fixture(), 0);
    app
}

#[test]
fn stacks_collapse_to_one_row() {
    let app = app_with_fixture();
    assert_eq!(app.pr_count(), 5);
    // 3-PR stack collapses to a header, plus two standalone PRs.
    assert_eq!(app.rows.len(), 3);
    assert!(
        app.rows
            .iter()
            .any(|r| matches!(r, ListRow::StackHeader(_)))
    );
}

#[test]
fn toggle_expands_and_collapses_stack() {
    let mut app = app_with_fixture();
    let header_idx = app
        .rows
        .iter()
        .position(|r| matches!(r, ListRow::StackHeader(_)))
        .unwrap();
    app.select(Some(header_idx));

    assert!(app.toggle_selected_stack());
    assert_eq!(app.rows.len(), 6);
    // Selection stays on the header.
    assert!(matches!(app.selected_row(), Some(ListRow::StackHeader(_))));
    // Members follow the header, bottom to top.
    let member_numbers: Vec<u32> = app.rows[header_idx + 1..header_idx + 4]
        .iter()
        .map(|r| match *r {
            ListRow::Pr { group, member } => app.groups[group].prs[member].number,
            _ => panic!("expected PR row"),
        })
        .collect();
    assert_eq!(member_numbers, vec![201, 202, 203]);

    assert!(app.toggle_selected_stack());
    assert_eq!(app.rows.len(), 3);
}

#[test]
fn toggle_is_noop_on_pr_row() {
    let mut app = app_with_fixture();
    let pr_idx = app
        .rows
        .iter()
        .position(|r| matches!(r, ListRow::Pr { .. }))
        .unwrap();
    app.select(Some(pr_idx));
    assert!(!app.toggle_selected_stack());
}

#[test]
fn selection_and_expansion_survive_refresh() {
    let mut app = app_with_fixture();
    let header_idx = app
        .rows
        .iter()
        .position(|r| matches!(r, ListRow::StackHeader(_)))
        .unwrap();
    app.select(Some(header_idx));
    app.toggle_selected_stack();

    // Select a member inside the expanded stack, then refresh.
    app.select(Some(header_idx + 2));
    let selected = app.selected_pr().unwrap().number;
    app.apply_prs(stacked_fixture(), 1);

    assert_eq!(app.rows.len(), 6); // still expanded
    assert_eq!(app.selected_pr().unwrap().number, selected);
}

#[test]
fn header_selection_falls_back_after_member_collapses() {
    let mut app = app_with_fixture();
    let header_idx = app
        .rows
        .iter()
        .position(|r| matches!(r, ListRow::StackHeader(_)))
        .unwrap();
    app.select(Some(header_idx));
    assert!(app.selected_pr().is_none());
    assert!(app.selected_url().is_some());
}

#[test]
fn collapsing_keeps_selection_on_header_row() {
    let mut app = app_with_fixture();
    let header_idx = app.rows.iter().position(|r| matches!(r, ListRow::StackHeader(_))).unwrap();
    app.select(Some(header_idx));
    assert!(app.toggle_selected_stack());
    let rows_expanded = app.rows.clone();
    assert!(app.toggle_selected_stack());
    assert_eq!(app.selected(), Some(header_idx));
    assert!(app.toggle_selected_stack());
    assert_eq!(app.rows, rows_expanded);
}

#[test]
fn collapsed_stack_selection_lands_on_header_after_refresh() {
    // With the stack collapsed, its bottom PR shows only through the header;
    // a refresh finds the header again.
    let mut app = app_with_fixture();
    let header_idx = app.rows.iter().position(|r| matches!(r, ListRow::StackHeader(_))).unwrap();
    app.select(Some(header_idx));
    assert_eq!(app.selected_number(), Some(201));
    app.select(Some(2));
    app.apply_prs(stacked_fixture(), 2);
    assert_eq!(app.selected_number(), Some(205));
    app.select(Some(header_idx));
    app.apply_prs(stacked_fixture(), 3);
    assert_eq!(app.selected(), Some(header_idx));
    assert!(matches!(app.selected_row(), Some(ListRow::StackHeader(_))));
}

#[test]
fn refresh_of_empty_list_clears_selection() {
    let mut app = app_with_fixture();
    app.apply_prs(Vec::new(), 5);
    assert!(app.rows.is_empty());
    assert_eq!(app.selected(), None);
    assert!(!app.loading_list);
    assert_eq!(app.last_refresh, Some(5));
}

#[test]
fn navigation_stays_within_rows() {
    let mut app = app_with_fixture();
    app.select_last();
    assert_eq!(app.selected(), Some(2));
    app.select_next();
    assert_eq!(app.selected(), Some(2));
    app.select_first();
    assert_eq!(app.selected(), Some(0));
    app.select_prev();
    assert_eq!(app.selected(), Some(0));
    app.select(None);
    app.select_next();
    assert_eq!(app.selected(), Some(0));
    app.select(None);
    app.select_prev();
    assert_eq!(app.selected(), Some(0));
}

#[test]
fn navigation_on_empty_list_keeps_selection() {
    let mut app = App::new("example/repo".into(), 60, true, 100);
    app.select_next();
    assert_eq!(app.selected(), Some(0));
    app.select_last();
    assert_eq!(app.selected(), Some(0));
    assert_eq!(app.selected_row(), None);
}

#[test]
fn detail_mode_round_trip() {
    let mut app = app_with_fixture();
    // Row 0 is the standalone #204.
    app.select(Some(0));
    app.enter_detail();
    assert_eq!(app.mode, ViewMode::Detail(204));
    assert!(app.loading_detail);
    assert!(app.detail.is_none());
    app.apply_detail_error("boom".into());
    assert!(!app.loading_detail);
    assert_eq!(app.last_error.as_deref(), Some("boom"));
    app.back_to_list();
    assert_eq!(app.mode, ViewMode::List);
    assert!(app.detail.is_none());
}

#[test]
fn enter_detail_on_header_does_nothing() {
    let mut app = app_with_fixture();
    let header_idx = app.rows.iter().position(|r| matches!(r, ListRow::StackHeader(_))).unwrap();
    app.select(Some(header_idx));
    app.enter_detail();
    assert_eq!(app.mode, ViewMode::List);
    assert!(!app.loading_detail);
}

#[test]
fn auto_refresh_waits_for_interval() {
    let mut app = App::new("example/repo".into(), 60, true, 100);
    assert!(!app.needs_auto_refresh(1_000_000_000_000));
    app.apply_prs(stacked_fixture(), 10_000_000_000);
    assert!(!app.needs_auto_refresh(69_999_999_999));
    assert!(app.needs_auto_refresh(70_000_000_000));
    // A clock reading before the last refresh counts as no time passed.
    assert!(!app.needs_auto_refresh(0));
    app.auto_refresh = false;
    assert!(!app.needs_auto_refresh(70_000_000_000));
    app.auto_refresh = true;
    app.loading_list = true;
    assert!(!app.needs_auto_refresh(70_000_000_000));
}

#[test]
fn list_error_stops_loading() {
    let mut app = App::new("example/repo".into(), 60, true, 100);
    assert!(app.loading_list);
    app.apply_list_error("network down".into());
    assert!(!app.loading_list);
    assert_eq!(app.last_error.as_deref(), Some("network down"));
}

#[test]
fn is_expanded_reports_stack_state() {
    let mut app = app_with_fixture();
    let header_idx = app.rows.iter().position(|r| matches!(r, ListRow::StackHeader(_))).unwrap();
    let g = match app.rows[header_idx] {
        ListRow::StackHeader(g) => g,
        _ => unreachable!(),
    };
    assert!(!app.is_expanded(g));
    app.select(Some(header_idx));
    app.toggle_selected_stack();
    assert!(app.is_expanded(g));
    assert!(!app.is_expanded(99));
}

#[test]
fn toggle_on_stale_pr_row_returns_false() {
    let mut app = app_with_fixture();
    app.rows.push(ListRow::Pr { group: 99, member: 5 });
    let stale = app.rows.len() - 1;
    app.select(Some(stale));
    let rows = app.rows.clone();
    assert!(!app.toggle_selected_stack());
    assert_eq!(app.rows, rows);
    assert_eq!(app.selected(), Some(stale));
    app.select(None);
    assert!(!app.toggle_selected_stack());
    assert_eq!(app.selected(), None);
}
