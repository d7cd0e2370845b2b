use prdash::pr::{
    Mergeable, MyReviewState, PrDetail, PrSummary, RawAuthor, RawPr, RawReview, RawReviewer,
    ReviewState, ReviewerState,
};

fn base() -> RawPr {
    RawPr {
        number: 7,
        title: "t".into(),
        author: RawAuthor { login: "alice".into() },
        head_ref: "h".into(),
        base_ref: "main".into(),
        is_draft: true,
        mergeable: "CONFLICTING".into(),
        updated_at: None,
        url: "u".into(),
        review_decision: "SOMETHING".into(),
        status_check_rollup: Vec::new(),
        review_requests: Vec::new(),
        latest_reviews: Vec::new(),
        body: None,
        additions: None,
        deletions: None,
        changed_files: None,
    }
}

fn review(login: &str, state: &str) -> RawReview {
    RawReview { author: RawAuthor { login: login.into() }, state: state.into() }
}

#[test]
fn decisions_and_mergeability_map() {
    assert_eq!(ReviewState::from_decision("APPROVED"), ReviewState::Approved);
    assert_eq!(ReviewState::from_decision("CHANGES_REQUESTED"), ReviewState::ChangesRequested);
    assert_eq!(ReviewState::from_decision("REVIEW_REQUIRED"), ReviewState::ReviewRequired);
    assert_eq!(ReviewState::from_decision(""), ReviewState::NoDecision);
    assert_eq!(ReviewState::from_decision("COMMENTED"), ReviewState::Reviewed);
    assert_eq!(Mergeable::from_str("MERGEABLE"), Mergeable::Mergeable);
    assert_eq!(Mergeable::from_str("CONFLICTING"), Mergeable::Conflicting);
    assert_eq!(Mergeable::from_str("mergeable"), Mergeable::Unknown);
    assert_eq!(ReviewState::ChangesRequested.urgency(), 4);
    assert_eq!(ReviewState::Approved.urgency(), 0);
    assert_eq!(MyReviewState::ReviewRequested.urgency(), 4);
    assert_eq!(MyReviewState::NotInvolved.urgency(), 0);
}

#[test]
fn summary_copies_and_interprets_fields() {
    let s = PrSummary::from_raw(&base(), Some("tim"));
    assert_eq!(s.number, 7);
    assert_eq!(s.author, "alice");
    assert!(s.is_draft);
    assert_eq!(s.mergeable, Mergeable::Conflicting);
    assert_eq!(s.review, ReviewState::Reviewed);
    assert_eq!(s.my_review, MyReviewState::NotInvolved);
    assert_eq!(s.checks.overall, None);
}

#[test]
fn own_first_review_decides_where_viewer_stands() {
    let mut r = base();
    r.latest_reviews = vec![review("bob", "APPROVED"), review("tim", "COMMENTED"), review("tim", "APPROVED")];
    assert_eq!(MyReviewState::resolve(&r, Some("tim")), MyReviewState::Commented);
    r.latest_reviews = vec![review("tim", "DISMISSED")];
    assert_eq!(MyReviewState::resolve(&r, Some("tim")), MyReviewState::NotInvolved);
    r.review_requests = vec![RawReviewer { login: "tim".into(), name: None }];
    assert_eq!(MyReviewState::resolve(&r, Some("tim")), MyReviewState::ReviewRequested);
    assert_eq!(MyReviewState::resolve(&r, None), MyReviewState::NotInvolved);
}

#[test]
fn detail_lists_reviews_then_new_requests() {
    let mut r = base();
    r.latest_reviews = vec![
        review("bob", "APPROVED"),
        review("carol", "DISMISSED"),
        review("dave", "CHANGES_REQUESTED"),
        review("erin", "COMMENTED"),
    ];
    r.review_requests = vec![
        RawReviewer { login: "bob".into(), name: None },
        RawReviewer { login: String::new(), name: Some("core-team".into()) },
        RawReviewer { login: String::new(), name: None },
        RawReviewer { login: "frank".into(), name: None },
        RawReviewer { login: "frank".into(), name: None },
    ];
    r.body = Some("hello".into());
    r.additions = Some(3);
    let d = PrDetail::from_raw(&r, None);
    let listed: Vec<(&str, ReviewerState)> = d.reviewers.iter().map(|x| (x.login.as_str(), x.state)).collect();
    assert_eq!(
        listed,
        vec![
            ("bob", ReviewerState::Approved),
            ("dave", ReviewerState::ChangesRequested),
            ("erin", ReviewerState::Commented),
            ("core-team", ReviewerState::Pending),
            ("frank", ReviewerState::Pending),
        ]
    );
    assert_eq!(d.body, "hello");
    assert_eq!((d.additions, d.deletions, d.changed_files), (3, 0, 0));
    assert!(d.checks.is_empty());
}
