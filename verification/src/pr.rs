use vstd::prelude::*;
use crate::text::{str_eq, opt_str_view};
use crate::order::{desc_order, stable_order_desc, is_desc_order, goes_before};
use crate::checks::{
    CheckRollup, CheckRun, CheckRunView, RawCheck, RawCheckView, checks_view, classify_spec,
    label_spec, or_empty, rollup_spec, tallies_fit,
};

verus! {

/// The review decision a pull request carries.
#[derive(Debug, Clone, Copy, PartialEq, Eq, Structural)]
pub enum ReviewState {
    Approved,
    ChangesRequested,
    ReviewRequired,
    Reviewed,
    NoDecision,
}

/// What a `reviewDecision` string means; an empty one means no decision,
/// an unknown one means the pull request was reviewed.
pub open spec fn review_decision_meaning(s: Seq<char>) -> ReviewState {
    if s == "APPROVED"@ {
        ReviewState::Approved
    } else if s == "CHANGES_REQUESTED"@ {
        ReviewState::ChangesRequested
    } else if s == "REVIEW_REQUIRED"@ {
        ReviewState::ReviewRequired
    } else if s.len() == 0 {
        ReviewState::NoDecision
    } else {
        ReviewState::Reviewed
    }
}

/// How much a review decision asks for attention; larger is more urgent.
pub open spec fn review_urgency(s: ReviewState) -> u8 {
    match s {
        ReviewState::ChangesRequested => 4,
        ReviewState::ReviewRequired => 3,
        ReviewState::Reviewed => 2,
        ReviewState::NoDecision => 1,
        ReviewState::Approved => 0,
    }
}

impl ReviewState {
    pub fn from_decision(s: &str) -> (r: ReviewState)
        ensures
            r == review_decision_meaning(s@),
    {
        if str_eq(s, "APPROVED") {
            ReviewState::Approved
        } else if str_eq(s, "CHANGES_REQUESTED") {
            ReviewState::ChangesRequested
        } else if str_eq(s, "REVIEW_REQUIRED") {
            ReviewState::ReviewRequired
        } else if s.is_empty() {
            ReviewState::NoDecision
        } else {
            ReviewState::Reviewed
        }
    }

    pub fn urgency(self) -> (r: u8)
        ensures
            r == review_urgency(self),
    {
        match self {
            ReviewState::ChangesRequested => 4,
            ReviewState::ReviewRequired => 3,
            ReviewState::Reviewed => 2,
            ReviewState::NoDecision => 1,
            ReviewState::Approved => 0,
        }
    }
}

/// Whether a pull request can be merged as it stands.
#[derive(Debug, Clone, Copy, PartialEq, Eq, Structural)]
pub enum Mergeable {
    Mergeable,
    Conflicting,
    Unknown,
}

pub open spec fn mergeable_meaning(s: Seq<char>) -> Mergeable {
    if s == "MERGEABLE"@ {
        Mergeable::Mergeable
    } else if s == "CONFLICTING"@ {
        Mergeable::Conflicting
    } else {
        Mergeable::Unknown
    }
}

impl Mergeable {
    pub fn from_str(s: &str) -> (r: Mergeable)
        ensures
            r == mergeable_meaning(s@),
    {
        if str_eq(s, "MERGEABLE") {
            Mergeable::Mergeable
        } else if str_eq(s, "CONFLICTING") {
            Mergeable::Conflicting
        } else {
            Mergeable::Unknown
        }
    }
}

/// Where one person who reviews a pull request stands on it.
#[derive(Debug, Clone, Copy, PartialEq, Eq, Structural)]
pub enum ReviewerState {
    Approved,
    ChangesRequested,
    Commented,
    Pending,
}

/// Where the viewer stands on a pull request.
#[derive(Debug, Clone, Copy, PartialEq, Eq, Structural)]
pub enum MyReviewState {
    NotInvolved,
    ReviewRequested,
    WaitingOnAuthor,
    Approved,
    Commented,
}

pub open spec fn my_review_urgency(s: MyReviewState) -> u8 {
    match s {
        MyReviewState::ReviewRequested => 4,
        MyReviewState::WaitingOnAuthor => 3,
        MyReviewState::Commented => 2,
        MyReviewState::Approved => 1,
        MyReviewState::NotInvolved => 0,
    }
}

/// A point in time: whole seconds since the Unix epoch and the nanoseconds
/// past them (at or above one second inside a leap second).
#[derive(Debug, Clone, Copy, PartialEq, Eq, Structural)]
pub struct Timestamp {
    pub secs: i64,
    pub nanos: u32,
}

/// `a` is strictly earlier than `b`.
pub open spec fn earlier(a: Timestamp, b: Timestamp) -> bool {
    a.secs < b.secs || (a.secs == b.secs && a.nanos < b.nanos)
}

/// Order on optional times: a missing time is older than any time.
pub open spec fn opt_earlier(a: Option<Timestamp>, b: Option<Timestamp>) -> bool {
    match (a, b) {
        (None, Some(_)) => true,
        (Some(x), Some(y)) => earlier(x, y),
        _ => false,
    }
}

/// A number that grows with how recent an optional time is.
pub open spec fn recency(t: Option<Timestamp>) -> int {
    match t {
        None => 0,
        Some(x) => 1 + (x.secs + 0x8000_0000_0000_0000) * 0x1_0000_0000 + x.nanos,
    }
}

/// `recency` orders optional times exactly as `opt_earlier` does.
pub proof fn lemma_recency_orders(a: Option<Timestamp>, b: Option<Timestamp>)
    ensures
        recency(a) < recency(b) <==> opt_earlier(a, b),
        recency(a) == recency(b) <==> a == b,
        0 <= recency(a) < 0x1_0000_0000_0000_0000_0000_0001,
{
}

pub fn recency_key(t: Option<Timestamp>) -> (r: u128)
    ensures
        r == recency(t),
{
    match t {
        None => 0,
        Some(x) => {
            let shifted: u128 = (x.secs as i128 + 0x8000_0000_0000_0000i128) as u128;
            1 + shifted * 0x1_0000_0000 + x.nanos as u128
        },
    }
}

/// A pull request's author.
#[derive(Debug, Clone)]
pub struct RawAuthor {
    pub login: String,
}

/// A pending review request: to a user (`login`) or a team (`name`).
#[derive(Debug, Clone)]
pub struct RawReviewer {
    pub login: String,
    pub name: Option<String>,
}

/// The latest review one person left.
#[derive(Debug, Clone)]
pub struct RawReview {
    pub author: RawAuthor,
    pub state: String,
}

/// A pull request as listed by the hosting service.
#[derive(Debug, Clone)]
pub struct RawPr {
    pub number: u32,
    pub title: String,
    pub author: RawAuthor,
    pub head_ref: String,
    pub base_ref: String,
    pub is_draft: bool,
    pub mergeable: String,
    pub updated_at: Option<Timestamp>,
    pub url: String,
    pub review_decision: String,
    pub status_check_rollup: Vec<RawCheck>,
    pub review_requests: Vec<RawReviewer>,
    pub latest_reviews: Vec<RawReview>,
    pub body: Option<String>,
    pub additions: Option<u32>,
    pub deletions: Option<u32>,
    pub changed_files: Option<u32>,
}

pub ghost struct RawReviewerView {
    pub login: Seq<char>,
    pub name: Option<Seq<char>>,
}

pub ghost struct RawReviewView {
    pub author: Seq<char>,
    pub state: Seq<char>,
}

pub ghost struct RawPrView {
    pub number: u32,
    pub title: Seq<char>,
    pub author: Seq<char>,
    pub head_ref: Seq<char>,
    pub base_ref: Seq<char>,
    pub is_draft: bool,
    pub mergeable: Seq<char>,
    pub updated_at: Option<Timestamp>,
    pub url: Seq<char>,
    pub review_decision: Seq<char>,
    pub checks: Seq<RawCheckView>,
    pub review_requests: Seq<RawReviewerView>,
    pub latest_reviews: Seq<RawReviewView>,
    pub body: Option<Seq<char>>,
    pub additions: Option<u32>,
    pub deletions: Option<u32>,
    pub changed_files: Option<u32>,
}

impl View for RawReviewer {
    type V = RawReviewerView;

    open spec fn view(&self) -> RawReviewerView {
        RawReviewerView { login: self.login@, name: opt_str_view(self.name) }
    }
}

impl View for RawReview {
    type V = RawReviewView;

    open spec fn view(&self) -> RawReviewView {
        RawReviewView { author: self.author.login@, state: self.state@ }
    }
}

impl View for RawPr {
    type V = RawPrView;

    open spec fn view(&self) -> RawPrView {
        RawPrView {
            number: self.number,
            title: self.title@,
            author: self.author.login@,
            head_ref: self.head_ref@,
            base_ref: self.base_ref@,
            is_draft: self.is_draft,
            mergeable: self.mergeable@,
            updated_at: self.updated_at,
            url: self.url@,
            review_decision: self.review_decision@,
            checks: checks_view(self.status_check_rollup@),
            review_requests: self.review_requests@.map_values(|q: RawReviewer| q@),
            latest_reviews: self.latest_reviews@.map_values(|v: RawReview| v@),
            body: opt_str_view(self.body),
            additions: self.additions,
            deletions: self.deletions,
            changed_files: self.changed_files,
        }
    }
}

/// The view of an optional string slice (the viewer's login).
pub open spec fn viewer_view(v: Option<&str>) -> Option<Seq<char>> {
    match v {
        Some(s) => Some(s@),
        None => None,
    }
}

/// `i` is the first of `reviews` written by `who`.
pub open spec fn is_first_review_by(reviews: Seq<RawReviewView>, who: Seq<char>, i: int) -> bool {
    &&& 0 <= i < reviews.len()
    &&& reviews[i].author == who
    &&& forall|j: int| 0 <= j < i ==> #[trigger] reviews[j].author != who
}

/// What the viewer's own latest review says about where they stand.
pub open spec fn own_review_meaning(state: Seq<char>) -> MyReviewState {
    if state == "APPROVED"@ {
        MyReviewState::Approved
    } else if state == "CHANGES_REQUESTED"@ {
        MyReviewState::WaitingOnAuthor
    } else if state == "COMMENTED"@ {
        MyReviewState::Commented
    } else {
        MyReviewState::NotInvolved
    }
}

/// Where the viewer stands on a pull request: a pending review request wins;
/// otherwise the viewer's (first listed) latest review decides.
pub open spec fn my_review_spec(r: RawPrView, viewer: Option<Seq<char>>) -> MyReviewState {
    match viewer {
        None => MyReviewState::NotInvolved,
        Some(v) => {
            if exists|i: int| 0 <= i < r.review_requests.len() && #[trigger] r.review_requests[i].login == v {
                MyReviewState::ReviewRequested
            } else if exists|i: int| is_first_review_by(r.latest_reviews, v, i) {
                let i = choose|i: int| is_first_review_by(r.latest_reviews, v, i);
                own_review_meaning(r.latest_reviews[i].state)
            } else {
                MyReviewState::NotInvolved
            }
        },
    }
}

impl MyReviewState {
    pub fn urgency(self) -> (r: u8)
        ensures
            r == my_review_urgency(self),
    {
        match self {
            MyReviewState::ReviewRequested => 4,
            MyReviewState::WaitingOnAuthor => 3,
            MyReviewState::Commented => 2,
            MyReviewState::Approved => 1,
            MyReviewState::NotInvolved => 0,
        }
    }

    pub fn resolve(r: &RawPr, viewer: Option<&str>) -> (m: MyReviewState)
        ensures
            m == my_review_spec(r@, viewer_view(viewer)),
            viewer is None ==> m == MyReviewState::NotInvolved,
            viewer matches Some(v) && (exists|i: int| 0 <= i < r@.review_requests.len()
                && #[trigger] r@.review_requests[i].login == v@) ==> m == MyReviewState::ReviewRequested,
    {
        let who: &str = match viewer {
            Some(v) => v,
            None => return MyReviewState::NotInvolved,
        };
        let ghost rv = r@;
        assert(viewer_view(viewer) == Some(who@));
        let mut i: usize = 0;
        while i < r.review_requests.len()
            invariant
                0 <= i <= r.review_requests.len(),
                rv == r@,
                viewer_view(viewer) == Some(who@),
                forall|j: int| 0 <= j < i ==> #[trigger] rv.review_requests[j].login != who@,
            decreases r.review_requests.len() - i,
        {
            if str_eq(r.review_requests[i].login.as_str(), who) {
                assert(rv.review_requests[i as int] == r.review_requests@[i as int]@);
                assert(rv.review_requests[i as int].login == who@);
                return MyReviewState::ReviewRequested;
            }
            i = i + 1;
        }
        let mut k: usize = 0;
        while k < r.latest_reviews.len()
            invariant
                0 <= k <= r.latest_reviews.len(),
                rv == r@,
                viewer_view(viewer) == Some(who@),
                !(exists|i: int| 0 <= i < rv.review_requests.len() && #[trigger] rv.review_requests[i].login == who@),
                forall|j: int| 0 <= j < k ==> #[trigger] rv.latest_reviews[j].author != who@,
            decreases r.latest_reviews.len() - k,
        {
            let rev = &r.latest_reviews[k];
            if str_eq(rev.author.login.as_str(), who) {
                proof {
                    assert(rv.latest_reviews[k as int] == r.latest_reviews@[k as int]@);
                    assert(is_first_review_by(rv.latest_reviews, who@, k as int));
                    let c = choose|i: int| is_first_review_by(rv.latest_reviews, who@, i);
                    if c < k {
                        assert(rv.latest_reviews[c].author != who@);
                    }
                    if c > k {
                        assert(rv.latest_reviews[k as int].author != who@);
                    }
                }
                let st = rev.state.as_str();
                return if str_eq(st, "APPROVED") {
                    MyReviewState::Approved
                } else if str_eq(st, "CHANGES_REQUESTED") {
                    MyReviewState::WaitingOnAuthor
                } else if str_eq(st, "COMMENTED") {
                    MyReviewState::Commented
                } else {
                    MyReviewState::NotInvolved
                };
            }
            k = k + 1;
        }
        proof {
            if exists|i: int| is_first_review_by(rv.latest_reviews, who@, i) {
                let c = choose|i: int| is_first_review_by(rv.latest_reviews, who@, i);
                assert(rv.latest_reviews[c].author != who@);
            }
        }
        MyReviewState::NotInvolved
    }
}


/// One pull request as the list shows it.
#[derive(Debug, Clone)]
pub struct PrSummary {
    pub number: u32,
    pub title: String,
    pub author: String,
    pub head_ref: String,
    pub base_ref: String,
    pub is_draft: bool,
    pub mergeable: Mergeable,
    pub updated_at: Option<Timestamp>,
    pub url: String,
    pub review: ReviewState,
    pub my_review: MyReviewState,
    pub checks: CheckRollup,
}

pub ghost struct PrSummaryView {
    pub number: u32,
    pub title: Seq<char>,
    pub author: Seq<char>,
    pub head_ref: Seq<char>,
    pub base_ref: Seq<char>,
    pub is_draft: bool,
    pub mergeable: Mergeable,
    pub updated_at: Option<Timestamp>,
    pub url: Seq<char>,
    pub review: ReviewState,
    pub my_review: MyReviewState,
    pub checks: CheckRollup,
}

impl View for PrSummary {
    type V = PrSummaryView;

    open spec fn view(&self) -> PrSummaryView {
        PrSummaryView {
            number: self.number,
            title: self.title@,
            author: self.author@,
            head_ref: self.head_ref@,
            base_ref: self.base_ref@,
            is_draft: self.is_draft,
            mergeable: self.mergeable,
            updated_at: self.updated_at,
            url: self.url@,
            review: self.review,
            my_review: self.my_review,
            checks: self.checks,
        }
    }
}

pub open spec fn summaries_view(s: Seq<PrSummary>) -> Seq<PrSummaryView> {
    s.map_values(|p: PrSummary| p@)
}

/// The list entry a raw pull request becomes for the given viewer.
pub open spec fn summary_spec(r: RawPrView, viewer: Option<Seq<char>>) -> PrSummaryView {
    PrSummaryView {
        number: r.number,
        title: r.title,
        author: r.author,
        head_ref: r.head_ref,
        base_ref: r.base_ref,
        is_draft: r.is_draft,
        mergeable: mergeable_meaning(r.mergeable),
        updated_at: r.updated_at,
        url: r.url,
        review: review_decision_meaning(r.review_decision),
        my_review: my_review_spec(r, viewer),
        checks: rollup_spec(r.checks),
    }
}

impl PrSummary {
    /// A copy of this entry.
    pub fn duplicate(&self) -> (r: PrSummary)
        ensures
            r@ == self@,
    {
        PrSummary {
            number: self.number,
            title: self.title.clone(),
            author: self.author.clone(),
            head_ref: self.head_ref.clone(),
            base_ref: self.base_ref.clone(),
            is_draft: self.is_draft,
            mergeable: self.mergeable,
            updated_at: self.updated_at,
            url: self.url.clone(),
            review: self.review,
            my_review: self.my_review,
            checks: self.checks,
        }
    }

    pub fn from_raw(r: &RawPr, viewer: Option<&str>) -> (s: PrSummary)
        requires
            tallies_fit(r@.checks),
        ensures
            s@ == summary_spec(r@, viewer_view(viewer)),
            s.number == r.number,
            s.title@ == r.title@,
            s.author@ == r.author.login@,
            s.head_ref@ == r.head_ref@,
            s.base_ref@ == r.base_ref@,
            s.is_draft == r.is_draft,
            s.updated_at == r.updated_at,
            s.url@ == r.url@,
    {
        PrSummary {
            number: r.number,
            title: r.title.clone(),
            author: r.author.login.clone(),
            head_ref: r.head_ref.clone(),
            base_ref: r.base_ref.clone(),
            is_draft: r.is_draft,
            mergeable: Mergeable::from_str(r.mergeable.as_str()),
            updated_at: r.updated_at,
            url: r.url.clone(),
            review: ReviewState::from_decision(r.review_decision.as_str()),
            my_review: MyReviewState::resolve(r, viewer),
            checks: CheckRollup::from_raw(r.status_check_rollup.as_slice()),
        }
    }
}

/// A person reviewing a pull request and where they stand.
#[derive(Debug, Clone)]
pub struct Reviewer {
    pub login: String,
    pub state: ReviewerState,
}

pub ghost struct ReviewerView {
    pub login: Seq<char>,
    pub state: ReviewerState,
}

impl View for Reviewer {
    type V = ReviewerView;

    open spec fn view(&self) -> ReviewerView {
        ReviewerView { login: self.login@, state: self.state }
    }
}

pub open spec fn reviewers_view(s: Seq<Reviewer>) -> Seq<ReviewerView> {
    s.map_values(|x: Reviewer| x@)
}

/// The stance a review's state string records, if it records one.
pub open spec fn reviewer_state_meaning(st: Seq<char>) -> Option<ReviewerState> {
    if st == "APPROVED"@ {
        Some(ReviewerState::Approved)
    } else if st == "CHANGES_REQUESTED"@ {
        Some(ReviewerState::ChangesRequested)
    } else if st == "COMMENTED"@ {
        Some(ReviewerState::Commented)
    } else {
        None
    }
}

/// The people that the latest reviews record, in review order; reviews
/// whose state records no stance are left out.
pub open spec fn reviewers_from_reviews(rs: Seq<RawReviewView>) -> Seq<ReviewerView>
    decreases rs.len(),
{
    if rs.len() == 0 {
        Seq::empty()
    } else {
        let prev = reviewers_from_reviews(rs.drop_last());
        match reviewer_state_meaning(rs.last().state) {
            Some(st) => prev.push(ReviewerView { login: rs.last().author, state: st }),
            None => prev,
        }
    }
}

/// The name a review request is shown under: the user's login, or the
/// team's name when there is no login.
pub open spec fn requested_login(q: RawReviewerView) -> Seq<char> {
    if q.login.len() == 0 {
        or_empty(q.name)
    } else {
        q.login
    }
}

pub open spec fn lists_login(acc: Seq<ReviewerView>, login: Seq<char>) -> bool {
    exists|i: int| 0 <= i < acc.len() && #[trigger] acc[i].login == login
}

/// `acc` with each review request appended as pending, in request order,
/// unless it has no name or is already listed.
pub open spec fn add_requested(acc: Seq<ReviewerView>, qs: Seq<RawReviewerView>) -> Seq<ReviewerView>
    decreases qs.len(),
{
    if qs.len() == 0 {
        acc
    } else {
        let prev = add_requested(acc, qs.drop_last());
        let login = requested_login(qs.last());
        if login.len() == 0 || lists_login(prev, login) {
            prev
        } else {
            prev.push(ReviewerView { login, state: ReviewerState::Pending })
        }
    }
}

pub open spec fn reviewers_spec(r: RawPrView) -> Seq<ReviewerView> {
    add_requested(reviewers_from_reviews(r.latest_reviews), r.review_requests)
}

/// Everything the detail view shows of a pull request.
#[derive(Debug, Clone)]
pub struct PrDetail {
    pub summary: PrSummary,
    pub body: String,
    pub additions: u32,
    pub deletions: u32,
    pub changed_files: u32,
    pub checks: Vec<CheckRun>,
    pub reviewers: Vec<Reviewer>,
}

pub ghost struct PrDetailView {
    pub summary: PrSummaryView,
    pub body: Seq<char>,
    pub additions: u32,
    pub deletions: u32,
    pub changed_files: u32,
    pub checks: Seq<CheckRunView>,
    pub reviewers: Seq<ReviewerView>,
}

impl View for PrDetail {
    type V = PrDetailView;

    open spec fn view(&self) -> PrDetailView {
        PrDetailView {
            summary: self.summary@,
            body: self.body@,
            additions: self.additions,
            deletions: self.deletions,
            changed_files: self.changed_files,
            checks: self.checks@.map_values(|c: CheckRun| c@),
            reviewers: reviewers_view(self.reviewers@),
        }
    }
}

pub open spec fn or_zero(o: Option<u32>) -> u32 {
    match o {
        Some(v) => v,
        None => 0,
    }
}

pub open spec fn check_run_spec(c: RawCheckView) -> CheckRunView {
    CheckRunView { name: label_spec(c), state: classify_spec(c) }
}

/// The detail a raw pull request becomes for the given viewer.
pub open spec fn detail_spec(r: RawPrView, viewer: Option<Seq<char>>) -> PrDetailView {
    PrDetailView {
        summary: summary_spec(r, viewer),
        body: or_empty(r.body),
        additions: or_zero(r.additions),
        deletions: or_zero(r.deletions),
        changed_files: or_zero(r.changed_files),
        checks: r.checks.map_values(|c: RawCheckView| check_run_spec(c)),
        reviewers: reviewers_spec(r),
    }
}

fn reviewers_of(r: &RawPr) -> (out: Vec<Reviewer>)
    ensures
        reviewers_view(out@) == reviewers_spec(r@),
{
    let ghost rv = r@;
    let mut reviewers: Vec<Reviewer> = Vec::new();
    let mut i: usize = 0;
    while i < r.latest_reviews.len()
        invariant
            0 <= i <= r.latest_reviews.len(),
            rv == r@,
            reviewers_view(reviewers@) == reviewers_from_reviews(rv.latest_reviews.take(i as int)),
        decreases r.latest_reviews.len() - i,
    {
        let rev = &r.latest_reviews[i];
        let st = rev.state.as_str();
        let state = if str_eq(st, "APPROVED") {
            Some(ReviewerState::Approved)
        } else if str_eq(st, "CHANGES_REQUESTED") {
            Some(ReviewerState::ChangesRequested)
        } else if str_eq(st, "COMMENTED") {
            Some(ReviewerState::Commented)
        } else {
            None
        };
        proof {
            assert(rv.latest_reviews.take(i + 1).drop_last() =~= rv.latest_reviews.take(i as int));
            assert(rv.latest_reviews[i as int] == r.latest_reviews@[i as int]@);
        }
        if let Some(state) = state {
            reviewers.push(Reviewer { login: rev.author.login.clone(), state });
            proof {
                assert(reviewers_view(reviewers@) =~= reviewers_from_reviews(rv.latest_reviews.take(i as int)).push(reviewers@.last()@));
            }
        }
        i = i + 1;
    }
    proof {
        assert(rv.latest_reviews.take(i as int) =~= rv.latest_reviews);
    }
    let ghost base = reviewers_view(reviewers@);
    let mut k: usize = 0;
    while k < r.review_requests.len()
        invariant
            0 <= k <= r.review_requests.len(),
            rv == r@,
            base == reviewers_from_reviews(rv.latest_reviews),
            reviewers_view(reviewers@) == add_requested(base, rv.review_requests.take(k as int)),
        decreases r.review_requests.len() - k,
    {
        let req = &r.review_requests[k];
        proof {
            assert(rv.review_requests.take(k + 1).drop_last() =~= rv.review_requests.take(k as int));
            assert(rv.review_requests[k as int] == r.review_requests@[k as int]@);
        }
        let login: String = if req.login.as_str().is_empty() {
            match &req.name {
                Some(n) => n.clone(),
                None => String::new(),
            }
        } else {
            req.login.clone()
        };
        if !login.as_str().is_empty() {
            let mut j: usize = 0;
            let mut found = false;
            while j < reviewers.len()
                invariant
                    0 <= j <= reviewers.len(),
                    found == (exists|t: int| 0 <= t < j && #[trigger] reviewers@[t].login@ == login@),
                decreases reviewers.len() - j,
            {
                if reviewers[j].login == login {
                    found = true;
                }
                j = j + 1;
            }
            proof {
                let acc = reviewers_view(reviewers@);
                if found {
                    let t = choose|t: int| 0 <= t < j && #[trigger] reviewers@[t].login@ == login@;
                    assert(acc[t].login == login@);
                } else if lists_login(acc, login@) {
                    let t = choose|t: int| 0 <= t < acc.len() && #[trigger] acc[t].login == login@;
                    assert(reviewers@[t].login@ == login@);
                }
            }
            if !found {
                reviewers.push(Reviewer { login, state: ReviewerState::Pending });
                proof {
                    assert(reviewers_view(reviewers@) =~= add_requested(base, rv.review_requests.take(k as int)).push(reviewers@.last()@));
                }
            }
        }
        k = k + 1;
    }
    proof {
        assert(rv.review_requests.take(k as int) =~= rv.review_requests);
    }
    reviewers
}

impl PrDetail {
    pub fn from_raw(r: &RawPr, viewer: Option<&str>) -> (d: PrDetail)
        requires
            tallies_fit(r@.checks),
        ensures
            d@ == detail_spec(r@, viewer_view(viewer)),
    {
        let reviewers = reviewers_of(r);
        let ghost rv = r@;
        let mut checks: Vec<CheckRun> = Vec::new();
        let mut i: usize = 0;
        while i < r.status_check_rollup.len()
            invariant
                0 <= i <= r.status_check_rollup.len(),
                rv == r@,
                checks.len() == i,
                forall|t: int| 0 <= t < i ==> #[trigger] checks@[t]@ == check_run_spec(rv.checks[t]),
            decreases r.status_check_rollup.len() - i,
        {
            let c = CheckRun::from(&r.status_check_rollup[i]);
            checks.push(c);
            i = i + 1;
        }
        proof {
            assert(checks@.map_values(|c: CheckRun| c@) =~= rv.checks.map_values(|c: RawCheckView| check_run_spec(c)));
        }
        let body: String = match &r.body {
            Some(b) => b.clone(),
            None => String::new(),
        };
        PrDetail {
            summary: PrSummary::from_raw(r, viewer),
            body,
            additions: match r.additions { Some(v) => v, None => 0 },
            deletions: match r.deletions { Some(v) => v, None => 0 },
            changed_files: match r.changed_files { Some(v) => v, None => 0 },
            checks,
            reviewers,
        }
    }
}


pub open spec fn raws_view(raws: Seq<RawPr>) -> Seq<RawPrView> {
    raws.map_values(|r: RawPr| r@)
}

/// Sort keys that put the most recently updated first.
pub open spec fn recency_keys(raws: Seq<RawPrView>) -> Seq<u128> {
    raws.map_values(|r: RawPrView| recency(r.updated_at) as u128)
}

/// The list entries for a batch of raw pull requests: one per pull request,
/// most recently updated first, pull requests updated at the same time (or
/// never) kept in the order they came in.
pub fn summarize_prs(raws: &[RawPr], viewer: Option<&str>) -> (out: Vec<PrSummary>)
    requires
        forall|i: int| 0 <= i < raws@.len() ==> tallies_fit(#[trigger] raws@[i]@.checks),
    ensures
        summaries_view(out@) == desc_order(recency_keys(raws_view(raws@))).map_values(
            |i: usize| summary_spec(raws_view(raws@)[i as int], viewer_view(viewer)),
        ),
        out.len() == raws.len(),
        forall|a: int, b: int| 0 <= a < b < out.len() ==> !opt_earlier((#[trigger] out@[a]).updated_at, (#[trigger] out@[b]).updated_at),
{
    let ghost rv = raws_view(raws@);
    let mut keys: Vec<u128> = Vec::new();
    let mut i: usize = 0;
    while i < raws.len()
        invariant
            0 <= i <= raws.len(),
            rv == raws_view(raws@),
            keys@ == recency_keys(rv).take(i as int),
        decreases raws.len() - i,
    {
        keys.push(recency_key(raws[i].updated_at));
        proof {
            lemma_recency_orders(rv[i as int].updated_at, rv[i as int].updated_at);
            assert(keys@ =~= recency_keys(rv).take(i + 1));
        }
        i = i + 1;
    }
    proof {
        assert(keys@ =~= recency_keys(rv));
    }
    let order = stable_order_desc(&keys);
    let mut out: Vec<PrSummary> = Vec::new();
    let mut k: usize = 0;
    while k < order.len()
        invariant
            0 <= k <= order.len(),
            rv == raws_view(raws@),
            order@ == desc_order(recency_keys(rv)),
            is_desc_order(recency_keys(rv), order@),
            order.len() == raws@.len(),
            forall|t: int| 0 <= t < order.len() ==> #[trigger] order@[t] < raws@.len(),
            forall|i: int| 0 <= i < raws@.len() ==> tallies_fit(#[trigger] raws@[i]@.checks),
            out.len() == k,
            forall|t: int| 0 <= t < k ==> #[trigger] out@[t]@ == summary_spec(rv[order@[t] as int], viewer_view(viewer)),
        decreases order.len() - k,
    {
        let j = order[k];
        out.push(PrSummary::from_raw(&raws[j], viewer));
        k = k + 1;
    }
    proof {
        assert(summaries_view(out@) =~= desc_order(recency_keys(rv)).map_values(
            |i: usize| summary_spec(rv[i as int], viewer_view(viewer)),
        ));
        assert forall|a: int, b: int| 0 <= a < b < out.len() implies !opt_earlier((#[trigger] out@[a]).updated_at, (#[trigger] out@[b]).updated_at) by {
            let ka = order@[a] as int;
            let kb = order@[b] as int;
            assert(goes_before(recency_keys(rv), ka, kb));
            assert(out@[a]@ == summary_spec(rv[ka], viewer_view(viewer)));
            assert(out@[b]@ == summary_spec(rv[kb], viewer_view(viewer)));
            assert(recency_keys(rv)[ka] == recency(rv[ka].updated_at) as u128);
            assert(recency_keys(rv)[kb] == recency(rv[kb].updated_at) as u128);
            lemma_recency_orders(out@[a].updated_at, out@[b].updated_at);
            lemma_recency_orders(out@[b].updated_at, out@[a].updated_at);
        }
    }
    out
}


/// Adding review requests only appends: everything listed before stays,
/// in place, and every request that has a name ends up listed.
pub proof fn lemma_requests_listed(acc: Seq<ReviewerView>, qs: Seq<RawReviewerView>)
    ensures
        add_requested(acc, qs).len() >= acc.len(),
        forall|i: int| 0 <= i < acc.len() ==> #[trigger] add_requested(acc, qs)[i] == acc[i],
        forall|j: int| 0 <= j < qs.len() && requested_login(#[trigger] qs[j]).len() > 0
            ==> lists_login(add_requested(acc, qs), requested_login(qs[j])),
    decreases qs.len(),
{
    if qs.len() > 0 {
        let prev = add_requested(acc, qs.drop_last());
        lemma_requests_listed(acc, qs.drop_last());
        let cur = add_requested(acc, qs);
        assert forall|j: int| 0 <= j < qs.len() && requested_login(#[trigger] qs[j]).len() > 0
            implies lists_login(cur, requested_login(qs[j])) by {
            let l = requested_login(qs[j]);
            if j < qs.len() - 1 {
                assert(qs.drop_last()[j] == qs[j]);
                assert(lists_login(prev, l));
                let w = choose|w: int| 0 <= w < prev.len() && #[trigger] prev[w].login == l;
                assert(cur[w] == prev[w]);
            } else if !lists_login(prev, l) {
                assert(cur[prev.len() as int].login == l);
            } else {
                let w = choose|w: int| 0 <= w < prev.len() && #[trigger] prev[w].login == l;
                assert(cur[w] == prev[w]);
            }
        }
    }
}

/// The people listed on a pull request's detail: everyone whose latest
/// review records a stance comes first, in review order; after them, every
/// review request with a name that is not listed yet, as pending.
pub proof fn lemma_detail_lists_every_request(r: RawPrView)
    ensures
        forall|i: int| 0 <= i < reviewers_from_reviews(r.latest_reviews).len()
            ==> #[trigger] reviewers_spec(r)[i] == reviewers_from_reviews(r.latest_reviews)[i],
        forall|j: int| 0 <= j < r.review_requests.len() && requested_login(#[trigger] r.review_requests[j]).len() > 0
            ==> lists_login(reviewers_spec(r), requested_login(r.review_requests[j])),
{
    lemma_requests_listed(reviewers_from_reviews(r.latest_reviews), r.review_requests);
}


/// Review decisions rank strictly by urgency: changes requested, then review
/// required, then reviewed, then no decision, then approved.
pub proof fn lemma_review_urgency_strict()
    ensures
        review_urgency(ReviewState::ChangesRequested) > review_urgency(ReviewState::ReviewRequired),
        review_urgency(ReviewState::ReviewRequired) > review_urgency(ReviewState::Reviewed),
        review_urgency(ReviewState::Reviewed) > review_urgency(ReviewState::NoDecision),
        review_urgency(ReviewState::NoDecision) > review_urgency(ReviewState::Approved),
        forall|a: ReviewState, b: ReviewState| review_urgency(a) == review_urgency(b) ==> a == b,
{
}

/// The viewer's states rank strictly by urgency: review requested, then
/// waiting on the author, then commented, then approved, then not involved.
pub proof fn lemma_my_review_urgency_strict()
    ensures
        my_review_urgency(MyReviewState::ReviewRequested) > my_review_urgency(MyReviewState::WaitingOnAuthor),
        my_review_urgency(MyReviewState::WaitingOnAuthor) > my_review_urgency(MyReviewState::Commented),
        my_review_urgency(MyReviewState::Commented) > my_review_urgency(MyReviewState::Approved),
        my_review_urgency(MyReviewState::Approved) > my_review_urgency(MyReviewState::NotInvolved),
        forall|a: MyReviewState, b: MyReviewState| my_review_urgency(a) == my_review_urgency(b) ==> a == b,
{
}

/// A pending review request for the viewer decides where they stand,
/// whatever reviews they have left; without a viewer nobody is involved.
pub proof fn lemma_request_wins(r: RawPrView, v: Seq<char>, i: int)
    requires
        0 <= i < r.review_requests.len(),
        r.review_requests[i].login == v,
    ensures
        my_review_spec(r, Some(v)) == MyReviewState::ReviewRequested,
        my_review_spec(r, None) == MyReviewState::NotInvolved,
{
}

/// Without a pending request, the viewer's first listed latest review
/// decides: approved, waiting on the author after asking for changes, or
/// commented; anything else, or no review, leaves them not involved.
pub proof fn lemma_own_review_decides(r: RawPrView, v: Seq<char>, i: int)
    requires
        forall|j: int| 0 <= j < r.review_requests.len() ==> #[trigger] r.review_requests[j].login != v,
        is_first_review_by(r.latest_reviews, v, i),
    ensures
        r.latest_reviews[i].state == "APPROVED"@ ==> my_review_spec(r, Some(v)) == MyReviewState::Approved,
        r.latest_reviews[i].state == "CHANGES_REQUESTED"@ ==> my_review_spec(r, Some(v)) == MyReviewState::WaitingOnAuthor,
        r.latest_reviews[i].state == "COMMENTED"@ ==> my_review_spec(r, Some(v)) == MyReviewState::Commented,
        r.latest_reviews[i].state != "APPROVED"@ && r.latest_reviews[i].state != "CHANGES_REQUESTED"@
            && r.latest_reviews[i].state != "COMMENTED"@ ==> my_review_spec(r, Some(v)) == MyReviewState::NotInvolved,
{
    reveal_strlit("APPROVED");
    reveal_strlit("CHANGES_REQUESTED");
    reveal_strlit("COMMENTED");
    assert("APPROVED"@.len() == 8);
    assert("CHANGES_REQUESTED"@.len() == 17);
    assert("COMMENTED"@.len() == 9);
    assert("CHANGES_REQUESTED"@ != "APPROVED"@);
    assert("COMMENTED"@ != "APPROVED"@);
    assert("COMMENTED"@ != "CHANGES_REQUESTED"@);
    let c = choose|c: int| is_first_review_by(r.latest_reviews, v, c);
    if c < i {
        assert(r.latest_reviews[c].author != v);
    }
    if c > i {
        assert(r.latest_reviews[i].author != v);
    }
}

/// A list entry carries the raw pull request's identity and text unchanged:
/// number, title, author login, branches, draft flag, update time and url.
pub proof fn lemma_summary_keeps_fields(r: RawPrView, viewer: Option<Seq<char>>)
    ensures
        summary_spec(r, viewer).number == r.number,
        summary_spec(r, viewer).title == r.title,
        summary_spec(r, viewer).author == r.author,
        summary_spec(r, viewer).head_ref == r.head_ref,
        summary_spec(r, viewer).base_ref == r.base_ref,
        summary_spec(r, viewer).is_draft == r.is_draft,
        summary_spec(r, viewer).updated_at == r.updated_at,
        summary_spec(r, viewer).url == r.url,
{
}

} // verus!
