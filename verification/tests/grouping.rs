use prdash::checks::{CheckState, RawCheck};
use prdash::grouping::group_stacks;
use prdash::pr::{RawAuthor, RawPr, Timestamp, summarize_prs, PrSummary};

fn pr(number: u32, head: &str, base: &str, secs: Option<i64>) -> RawPr {
    RawPr {
        number,
        title: format!("pr {}", number),
        author: RawAuthor { login: "dev".into() },
        head_ref: head.to_string(),
        base_ref: base.to_string(),
        is_draft: false,
        mergeable: String::new(),
        updated_at: secs.map(|s| Timestamp { secs: s, nanos: 0 }),
        url: String::new(),
        review_decision: String::new(),
        status_check_rollup: Vec::new(),
        review_requests: Vec::new(),
        latest_reviews: Vec::new(),
        body: None,
        additions: None,
        deletions: None,
        changed_files: None,
    }
}

fn numbers(groups: &[prdash::stack::PrStack]) -> Vec<Vec<u32>> {
    groups.iter().map(|g| g.prs.iter().map(|p| p.number).collect()).collect()
}

fn summaries(raws: Vec<RawPr>) -> Vec<PrSummary> {
    summarize_prs(&raws, None)
}

#[test]
fn list_is_sorted_newest_first_with_ties_in_input_order() {
    let prs = summaries(vec![
        pr(1, "a", "main", Some(10)),
        pr(2, "b", "main", None),
        pr(3, "c", "main", Some(30)),
        pr(4, "d", "main", Some(10)),
        pr(5, "e", "main", None),
    ]);
    assert_eq!(prs.iter().map(|p| p.number).collect::<Vec<_>>(), vec![3, 1, 4, 2, 5]);
}

#[test]
fn every_pr_lands_in_exactly_one_group() {
    let prs = summaries(vec![
        pr(1, "a", "main", Some(1)),
        pr(2, "b", "a", Some(2)),
        pr(3, "c", "b", Some(3)),
        pr(4, "x", "y", Some(4)),
        pr(5, "y", "x", Some(5)),
        pr(6, "d", "a", Some(6)),
        pr(7, "e", "", Some(7)),
    ]);
    let groups = group_stacks(prs);
    let mut all: Vec<u32> = numbers(&groups).into_iter().flatten().collect();
    all.sort();
    assert_eq!(all, vec![1, 2, 3, 4, 5, 6, 7]);
    assert_eq!(numbers(&groups), vec![vec![7], vec![1, 2, 3, 6], vec![5], vec![4]]);
}

#[test]
fn first_pr_with_a_head_branch_is_the_parent() {
    // Two open PRs share head branch "dup"; the one listed first (after the
    // newest-first sort) is the parent.
    let prs = summaries(vec![
        pr(1, "dup", "main", Some(5)),
        pr(2, "dup", "main", Some(4)),
        pr(3, "top", "dup", Some(3)),
    ]);
    let groups = group_stacks(prs);
    assert_eq!(numbers(&groups), vec![vec![1, 3], vec![2]]);
}

#[test]
fn pr_based_on_its_own_head_stands_alone() {
    let prs = summaries(vec![pr(1, "self", "self", Some(1)), pr(2, "other", "self", Some(2))]);
    let groups = group_stacks(prs);
    assert_eq!(numbers(&groups), vec![vec![1, 2]]);
}

#[test]
fn empty_base_never_stacks() {
    let prs = summaries(vec![pr(1, "", "main", Some(1)), pr(2, "b", "", Some(2))]);
    let groups = group_stacks(prs);
    assert_eq!(numbers(&groups), vec![vec![2], vec![1]]);
}

#[test]
fn deep_stack_is_walked_depth_first() {
    // 1 <- 2 <- 4, 1 <- 3; children by number: 2 before 3.
    let prs = summaries(vec![
        pr(3, "c", "a", Some(1)),
        pr(4, "d", "b", Some(1)),
        pr(1, "a", "main", Some(1)),
        pr(2, "b", "a", Some(1)),
    ]);
    let groups = group_stacks(prs);
    assert_eq!(numbers(&groups), vec![vec![1, 2, 4, 3]]);
    assert_eq!(groups[0].newest_update(), Some(Timestamp { secs: 1, nanos: 0 }));
}

#[test]
fn groups_without_times_come_last() {
    let prs = summaries(vec![pr(1, "a", "main", None), pr(2, "b", "main", Some(-100))]);
    let groups = group_stacks(prs);
    assert_eq!(numbers(&groups), vec![vec![2], vec![1]]);
    assert_eq!(groups[1].newest_update(), None);
}

#[test]
fn grouping_nothing_gives_nothing() {
    assert!(group_stacks(Vec::new()).is_empty());
}

#[test]
fn stack_check_rollup_sums_members() {
    let ok = RawCheck { name: None, context: Some("ci".into()), status: None, conclusion: None, state: Some("SUCCESS".into()) };
    let bad = RawCheck { name: None, context: Some("ci".into()), status: None, conclusion: None, state: Some("FAILURE".into()) };
    let mut a = pr(1, "a", "main", Some(1));
    a.status_check_rollup = vec![ok.clone(), ok.clone()];
    let mut b = pr(2, "b", "a", Some(2));
    b.status_check_rollup = vec![bad];
    let c = pr(3, "c", "b", Some(3));
    let groups = group_stacks(summaries(vec![a, b, c]));
    let r = groups[0].checks_rollup();
    assert_eq!((r.passing, r.failing, r.pending, r.skipped), (2, 1, 0, 0));
    assert_eq!(r.overall, Some(CheckState::Fail));
    let lone = group_stacks(summaries(vec![pr(9, "z", "main", Some(1))]));
    assert_eq!(lone[0].checks_rollup().overall, None);
    assert!(!lone[0].is_stack());
}
