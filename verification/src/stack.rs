use vstd::prelude::*;
use crate::checks::{CheckRollup, CheckState, RawCheckView, count_state, overall_verdict, rollup_spec, tallies_fit};
use crate::pr::{
    lemma_review_urgency_strict, lemma_my_review_urgency_strict,
    MyReviewState, PrSummary, PrSummaryView, ReviewState, Timestamp, my_review_urgency,
    opt_earlier, review_urgency, summaries_view,
};

verus! {

/// One entry in the pull-request list: either a standalone pull request
/// (`prs.len() == 1`) or a stack of dependent pull requests ordered bottom
/// (closest to trunk) to top.
#[derive(Debug, Clone)]
pub struct PrStack {
    pub prs: Vec<PrSummary>,
}

impl View for PrStack {
    type V = Seq<PrSummaryView>;

    open spec fn view(&self) -> Seq<PrSummaryView> {
        summaries_view(self.prs@)
    }
}

/// The later of two optional times (a missing time is the oldest).
pub open spec fn later_of(a: Option<Timestamp>, b: Option<Timestamp>) -> Option<Timestamp> {
    if opt_earlier(b, a) {
        a
    } else {
        b
    }
}

/// The most recent update time among `s`, if any of them has one.
pub open spec fn newest(s: Seq<PrSummaryView>) -> Option<Timestamp>
    decreases s.len(),
{
    if s.len() == 0 {
        None
    } else {
        later_of(newest(s.drop_last()), s.last().updated_at)
    }
}

pub fn is_earlier(a: Option<Timestamp>, b: Option<Timestamp>) -> (r: bool)
    ensures
        r == opt_earlier(a, b),
{
    match (a, b) {
        (None, Some(_)) => true,
        (Some(x), Some(y)) => x.secs < y.secs || (x.secs == y.secs && x.nanos < y.nanos),
        _ => false,
    }
}

/// The sum of one check counter over the members of a stack.
pub open spec fn tally(s: Seq<PrSummaryView>, f: spec_fn(CheckRollup) -> u16) -> int
    decreases s.len(),
{
    if s.len() == 0 {
        0
    } else {
        tally(s.drop_last(), f) + f(s.last().checks)
    }
}

pub open spec fn passing_of(c: CheckRollup) -> u16 { c.passing }
pub open spec fn failing_of(c: CheckRollup) -> u16 { c.failing }
pub open spec fn pending_of(c: CheckRollup) -> u16 { c.pending }
pub open spec fn skipped_of(c: CheckRollup) -> u16 { c.skipped }

/// Summing the members' counters stays within the counters' range.
pub open spec fn stack_tallies_fit(s: Seq<PrSummaryView>) -> bool {
    &&& tally(s, |c: CheckRollup| passing_of(c)) <= u16::MAX
    &&& tally(s, |c: CheckRollup| failing_of(c)) <= u16::MAX
    &&& tally(s, |c: CheckRollup| pending_of(c)) <= u16::MAX
    &&& tally(s, |c: CheckRollup| skipped_of(c)) <= u16::MAX
}

/// The check rollup of a whole stack: the members' counters summed, and the
/// overall verdict drawn from the sums when any member has checks.
pub open spec fn stack_checks_spec(s: Seq<PrSummaryView>) -> CheckRollup {
    CheckRollup {
        passing: tally(s, |c: CheckRollup| passing_of(c)) as u16,
        failing: tally(s, |c: CheckRollup| failing_of(c)) as u16,
        pending: tally(s, |c: CheckRollup| pending_of(c)) as u16,
        skipped: tally(s, |c: CheckRollup| skipped_of(c)) as u16,
        overall: overall_verdict(
            exists|i: int| 0 <= i < s.len() && (#[trigger] s[i]).checks.overall is Some,
            tally(s, |c: CheckRollup| failing_of(c)),
            tally(s, |c: CheckRollup| pending_of(c)),
            tally(s, |c: CheckRollup| passing_of(c)),
        ),
    }
}

proof fn lemma_tally_prefix(s: Seq<PrSummaryView>, f: spec_fn(CheckRollup) -> u16, i: int)
    requires
        0 <= i <= s.len(),
    ensures
        tally(s.take(i), f) <= tally(s, f),
    decreases s.len() - i,
{
    if i < s.len() {
        lemma_tally_prefix(s, f, i + 1);
        assert(s.take(i + 1).drop_last() =~= s.take(i));
    } else {
        assert(s.take(i) =~= s);
    }
}

impl PrStack {
    pub fn is_stack(&self) -> (r: bool)
        ensures
            r == (self@.len() > 1),
    {
        self.prs.len() > 1
    }

    pub fn bottom(&self) -> (r: &PrSummary)
        requires
            self@.len() > 0,
        ensures
            r@ == self@[0],
    {
        &self.prs[0]
    }

    pub fn newest_update(&self) -> (r: Option<Timestamp>)
        ensures
            r == newest(self@),
            forall|i: int| 0 <= i < self@.len() ==> !opt_earlier(r, (#[trigger] self@[i]).updated_at),
            r is Some ==> exists|i: int| 0 <= i < self@.len() && (#[trigger] self@[i]).updated_at == r,
    {
        let ghost s = self@;
        let mut acc: Option<Timestamp> = None;
        let mut i: usize = 0;
        while i < self.prs.len()
            invariant
                0 <= i <= self.prs.len(),
                s == self@,
                acc == newest(s.take(i as int)),
            decreases self.prs.len() - i,
        {
            let t = self.prs[i].updated_at;
            proof {
                assert(s.take(i + 1).drop_last() =~= s.take(i as int));
            }
            if is_earlier(t, acc) {
            } else {
                acc = t;
            }
            i = i + 1;
        }
        proof {
            assert(s.take(i as int) =~= s);
            lemma_newest_is_latest(s);
        }
        acc
    }

    pub fn all_drafts(&self) -> (r: bool)
        ensures
            r == (forall|i: int| 0 <= i < self@.len() ==> (#[trigger] self@[i]).is_draft),
    {
        let mut i: usize = 0;
        while i < self.prs.len()
            invariant
                0 <= i <= self.prs.len(),
                forall|t: int| 0 <= t < i ==> (#[trigger] self@[t]).is_draft,
            decreases self.prs.len() - i,
        {
            if !self.prs[i].is_draft {
                assert(!self@[i as int].is_draft);
                return false;
            }
            i = i + 1;
        }
        true
    }

    /// The most urgent review decision among the members.
    pub fn review_rollup(&self) -> (r: ReviewState)
        ensures
            self@.len() == 0 ==> r == ReviewState::NoDecision,
            self@.len() > 0 ==> exists|i: int| 0 <= i < self@.len() && (#[trigger] self@[i]).review == r,
            forall|i: int| 0 <= i < self@.len() ==> review_urgency((#[trigger] self@[i]).review) <= review_urgency(r),
            r == most_urgent_review(self@),
    {
        if self.prs.len() == 0 {
            return ReviewState::NoDecision;
        }
        let mut best = self.prs[0].review;
        let mut best_at: usize = 0;
        let mut i: usize = 1;
        while i < self.prs.len()
            invariant
                1 <= i <= self.prs.len(),
                best_at < i,
                self@[best_at as int].review == best,
                forall|t: int| 0 <= t < i ==> review_urgency((#[trigger] self@[t]).review) <= review_urgency(best),
            decreases self.prs.len() - i,
        {
            let cand = self.prs[i].review;
            if cand.urgency() >= best.urgency() {
                best = cand;
                best_at = i;
            }
            i = i + 1;
        }
        proof {
            lemma_review_peak(self@, best);
        }
        best
    }

    /// Where the viewer stands on the stack: the most urgent of their states
    /// on the members.
    pub fn my_review_rollup(&self) -> (r: MyReviewState)
        ensures
            self@.len() == 0 ==> r == MyReviewState::NotInvolved,
            self@.len() > 0 ==> exists|i: int| 0 <= i < self@.len() && (#[trigger] self@[i]).my_review == r,
            forall|i: int| 0 <= i < self@.len() ==> my_review_urgency((#[trigger] self@[i]).my_review) <= my_review_urgency(r),
            r == most_urgent_mine(self@),
    {
        if self.prs.len() == 0 {
            return MyReviewState::NotInvolved;
        }
        let mut best = self.prs[0].my_review;
        let mut best_at: usize = 0;
        let mut i: usize = 1;
        while i < self.prs.len()
            invariant
                1 <= i <= self.prs.len(),
                best_at < i,
                self@[best_at as int].my_review == best,
                forall|t: int| 0 <= t < i ==> my_review_urgency((#[trigger] self@[t]).my_review) <= my_review_urgency(best),
            decreases self.prs.len() - i,
        {
            let cand = self.prs[i].my_review;
            if cand.urgency() >= best.urgency() {
                best = cand;
                best_at = i;
            }
            i = i + 1;
        }
        proof {
            lemma_my_review_peak(self@, best);
        }
        best
    }

    pub fn checks_rollup(&self) -> (r: CheckRollup)
        requires
            stack_tallies_fit(self@),
        ensures
            r == stack_checks_spec(self@),
    {
        let ghost s = self@;
        let mut rollup = CheckRollup::default();
        let mut any = false;
        let mut i: usize = 0;
        while i < self.prs.len()
            invariant
                0 <= i <= self.prs.len(),
                s == self@,
                stack_tallies_fit(s),
                rollup.passing == tally(s.take(i as int), |c: CheckRollup| passing_of(c)),
                rollup.failing == tally(s.take(i as int), |c: CheckRollup| failing_of(c)),
                rollup.pending == tally(s.take(i as int), |c: CheckRollup| pending_of(c)),
                rollup.skipped == tally(s.take(i as int), |c: CheckRollup| skipped_of(c)),
                any == exists|t: int| 0 <= t < i && (#[trigger] s[t]).checks.overall is Some,
            decreases self.prs.len() - i,
        {
            let c = self.prs[i].checks;
            proof {
                assert(s.take(i + 1).drop_last() =~= s.take(i as int));
                assert(s.take(i + 1).last() == s[i as int]);
                lemma_tally_prefix(s, |c: CheckRollup| passing_of(c), i + 1);
                lemma_tally_prefix(s, |c: CheckRollup| failing_of(c), i + 1);
                lemma_tally_prefix(s, |c: CheckRollup| pending_of(c), i + 1);
                lemma_tally_prefix(s, |c: CheckRollup| skipped_of(c), i + 1);
            }
            rollup.passing = rollup.passing + c.passing;
            rollup.failing = rollup.failing + c.failing;
            rollup.pending = rollup.pending + c.pending;
            rollup.skipped = rollup.skipped + c.skipped;
            any = any || c.overall.is_some();
            i = i + 1;
        }
        proof {
            assert(s.take(i as int) =~= s);
        }
        rollup.overall = if !any {
            None
        } else if rollup.failing > 0 {
            Some(CheckState::Fail)
        } else if rollup.pending > 0 {
            Some(CheckState::Pending)
        } else if rollup.passing > 0 {
            Some(CheckState::Pass)
        } else {
            Some(CheckState::Neutral)
        };
        rollup
    }
}


proof fn lemma_count_concat(a: Seq<RawCheckView>, b: Seq<RawCheckView>, st: CheckState)
    ensures
        count_state(a + b, st) == count_state(a, st) + count_state(b, st),
    decreases b.len(),
{
    if b.len() == 0 {
        assert(a + b =~= a);
    } else {
        lemma_count_concat(a, b.drop_last(), st);
        assert((a + b).drop_last() =~= a + b.drop_last());
        assert((a + b).last() == b.last());
    }
}

proof fn lemma_tallies_of_members(s: Seq<PrSummaryView>, cs: Seq<Seq<RawCheckView>>)
    requires
        s.len() == cs.len(),
        forall|i: int| 0 <= i < s.len() ==> tallies_fit(#[trigger] cs[i]) && s[i].checks == rollup_spec(cs[i]),
    ensures
        tally(s, |c: CheckRollup| passing_of(c)) == count_state(cs.flatten(), CheckState::Pass),
        tally(s, |c: CheckRollup| failing_of(c)) == count_state(cs.flatten(), CheckState::Fail),
        tally(s, |c: CheckRollup| pending_of(c)) == count_state(cs.flatten(), CheckState::Pending),
        tally(s, |c: CheckRollup| skipped_of(c)) == count_state(cs.flatten(), CheckState::Neutral),
        (exists|i: int| 0 <= i < s.len() && (#[trigger] s[i]).checks.overall is Some) == (cs.flatten().len() > 0),
    decreases s.len(),
{
    if s.len() > 0 {
        let s0 = s.drop_last();
        let c0 = cs.drop_last();
        assert forall|i: int| 0 <= i < s0.len() implies tallies_fit(#[trigger] c0[i]) && s0[i].checks == rollup_spec(c0[i]) by {
            assert(c0[i] == cs[i] && s0[i] == s[i]);
        }
        lemma_tallies_of_members(s0, c0);
        assert(cs =~= c0.push(cs.last()));
        c0.lemma_flatten_push(cs.last());
        assert(cs.flatten() == c0.flatten() + cs.last());
        lemma_count_concat(c0.flatten(), cs.last(), CheckState::Pass);
        lemma_count_concat(c0.flatten(), cs.last(), CheckState::Fail);
        lemma_count_concat(c0.flatten(), cs.last(), CheckState::Pending);
        lemma_count_concat(c0.flatten(), cs.last(), CheckState::Neutral);
        let last = s.len() - 1;
        assert(tallies_fit(cs[last]) && s[last].checks == rollup_spec(cs[last]));
        if exists|i: int| 0 <= i < s.len() && (#[trigger] s[i]).checks.overall is Some {
            let i = choose|i: int| 0 <= i < s.len() && (#[trigger] s[i]).checks.overall is Some;
            if i < last {
                assert(s0[i] == s[i]);
            }
        }
        if exists|i: int| 0 <= i < s0.len() && (#[trigger] s0[i]).checks.overall is Some {
            let i = choose|i: int| 0 <= i < s0.len() && (#[trigger] s0[i]).checks.overall is Some;
            assert(s[i] == s0[i]);
        }
    } else {
        assert(cs.flatten() =~= Seq::<RawCheckView>::empty());
    }
}

/// A stack's check rollup is the rollup of all its members' check entries
/// taken together, when each member's rollup was made from its own entries.
pub proof fn lemma_stack_rollup_of_all_checks(s: Seq<PrSummaryView>, cs: Seq<Seq<RawCheckView>>)
    requires
        s.len() == cs.len(),
        forall|i: int| 0 <= i < s.len() ==> tallies_fit(#[trigger] cs[i]) && s[i].checks == rollup_spec(cs[i]),
        stack_tallies_fit(s),
    ensures
        tallies_fit(cs.flatten()),
        stack_checks_spec(s) == rollup_spec(cs.flatten()),
{
    lemma_tallies_of_members(s, cs);
}


pub open spec fn has_review(s: Seq<PrSummaryView>, st: ReviewState) -> bool {
    exists|i: int| 0 <= i < s.len() && (#[trigger] s[i]).review == st
}

pub open spec fn has_mine(s: Seq<PrSummaryView>, st: MyReviewState) -> bool {
    exists|i: int| 0 <= i < s.len() && (#[trigger] s[i]).my_review == st
}

/// The stack's review decision by precedence: changes requested if any
/// member has it, else review required, else reviewed, else no decision,
/// else approved (and no decision for an empty stack).
pub open spec fn most_urgent_review(s: Seq<PrSummaryView>) -> ReviewState {
    if has_review(s, ReviewState::ChangesRequested) {
        ReviewState::ChangesRequested
    } else if has_review(s, ReviewState::ReviewRequired) {
        ReviewState::ReviewRequired
    } else if has_review(s, ReviewState::Reviewed) {
        ReviewState::Reviewed
    } else if has_review(s, ReviewState::NoDecision) {
        ReviewState::NoDecision
    } else if has_review(s, ReviewState::Approved) {
        ReviewState::Approved
    } else {
        ReviewState::NoDecision
    }
}

/// Where the viewer stands on a stack by precedence: review requested on any
/// member, else waiting on the author, else commented, else approved, else
/// not involved.
pub open spec fn most_urgent_mine(s: Seq<PrSummaryView>) -> MyReviewState {
    if has_mine(s, MyReviewState::ReviewRequested) {
        MyReviewState::ReviewRequested
    } else if has_mine(s, MyReviewState::WaitingOnAuthor) {
        MyReviewState::WaitingOnAuthor
    } else if has_mine(s, MyReviewState::Commented) {
        MyReviewState::Commented
    } else if has_mine(s, MyReviewState::Approved) {
        MyReviewState::Approved
    } else {
        MyReviewState::NotInvolved
    }
}

/// A member decision that no member outranks is the one the precedence
/// picks: a stack with any member asking for changes rolls up to changes
/// requested, and so on down the ranking.
pub proof fn lemma_review_peak(s: Seq<PrSummaryView>, r: ReviewState)
    requires
        s.len() > 0,
        exists|i: int| 0 <= i < s.len() && (#[trigger] s[i]).review == r,
        forall|i: int| 0 <= i < s.len() ==> review_urgency((#[trigger] s[i]).review) <= review_urgency(r),
    ensures
        r == most_urgent_review(s),
{
    lemma_review_urgency_strict();
    let w = choose|i: int| 0 <= i < s.len() && (#[trigger] s[i]).review == r;
    assert(has_review(s, r));
    if has_review(s, ReviewState::ChangesRequested) {
        let i = choose|i: int| 0 <= i < s.len() && (#[trigger] s[i]).review == ReviewState::ChangesRequested;
        assert(review_urgency(s[i].review) <= review_urgency(r));
    } else if has_review(s, ReviewState::ReviewRequired) {
        let i = choose|i: int| 0 <= i < s.len() && (#[trigger] s[i]).review == ReviewState::ReviewRequired;
        assert(review_urgency(s[i].review) <= review_urgency(r));
    } else if has_review(s, ReviewState::Reviewed) {
        let i = choose|i: int| 0 <= i < s.len() && (#[trigger] s[i]).review == ReviewState::Reviewed;
        assert(review_urgency(s[i].review) <= review_urgency(r));
    } else if has_review(s, ReviewState::NoDecision) {
        let i = choose|i: int| 0 <= i < s.len() && (#[trigger] s[i]).review == ReviewState::NoDecision;
        assert(review_urgency(s[i].review) <= review_urgency(r));
    }
}

/// A viewer state on a member that no member outranks is the one the
/// precedence picks: a stack where the viewer waits on the author somewhere,
/// and nobody requests their review, rolls up to waiting on the author.
pub proof fn lemma_my_review_peak(s: Seq<PrSummaryView>, r: MyReviewState)
    requires
        s.len() > 0,
        exists|i: int| 0 <= i < s.len() && (#[trigger] s[i]).my_review == r,
        forall|i: int| 0 <= i < s.len() ==> my_review_urgency((#[trigger] s[i]).my_review) <= my_review_urgency(r),
    ensures
        r == most_urgent_mine(s),
{
    lemma_my_review_urgency_strict();
    assert(has_mine(s, r));
    if has_mine(s, MyReviewState::ReviewRequested) {
        let i = choose|i: int| 0 <= i < s.len() && (#[trigger] s[i]).my_review == MyReviewState::ReviewRequested;
        assert(my_review_urgency(s[i].my_review) <= my_review_urgency(r));
    } else if has_mine(s, MyReviewState::WaitingOnAuthor) {
        let i = choose|i: int| 0 <= i < s.len() && (#[trigger] s[i]).my_review == MyReviewState::WaitingOnAuthor;
        assert(my_review_urgency(s[i].my_review) <= my_review_urgency(r));
    } else if has_mine(s, MyReviewState::Commented) {
        let i = choose|i: int| 0 <= i < s.len() && (#[trigger] s[i]).my_review == MyReviewState::Commented;
        assert(my_review_urgency(s[i].my_review) <= my_review_urgency(r));
    } else if has_mine(s, MyReviewState::Approved) {
        let i = choose|i: int| 0 <= i < s.len() && (#[trigger] s[i]).my_review == MyReviewState::Approved;
        assert(my_review_urgency(s[i].my_review) <= my_review_urgency(r));
    }
}

/// The newest update of a group is no older than any member's update, and is
/// one of them (none only when no member has an update time).
pub proof fn lemma_newest_is_latest(s: Seq<PrSummaryView>)
    ensures
        forall|i: int| 0 <= i < s.len() ==> !opt_earlier(newest(s), (#[trigger] s[i]).updated_at),
        newest(s) is Some ==> exists|i: int| 0 <= i < s.len() && (#[trigger] s[i]).updated_at == newest(s),
        newest(s) is None ==> forall|i: int| 0 <= i < s.len() ==> (#[trigger] s[i]).updated_at is None,
    decreases s.len(),
{
    if s.len() > 0 {
        let p = s.drop_last();
        lemma_newest_is_latest(p);
        let n = newest(s);
        assert forall|i: int| 0 <= i < s.len() implies !opt_earlier(n, (#[trigger] s[i]).updated_at) by {
            if i < s.len() - 1 {
                assert(s[i] == p[i]);
            }
        }
        if n is Some {
            if n == s.last().updated_at {
                assert(s[s.len() - 1].updated_at == n);
            } else {
                let i = choose|i: int| 0 <= i < p.len() && (#[trigger] p[i]).updated_at == newest(p);
                assert(s[i] == p[i]);
            }
        } else {
            assert forall|i: int| 0 <= i < s.len() implies (#[trigger] s[i]).updated_at is None by {
                if i < s.len() - 1 {
                    assert(s[i] == p[i]);
                }
            }
        }
    }
}

} // verus!
