use vstd::prelude::*;
use crate::checks::CheckRollup;
use crate::pr::{MyReviewState, PrSummary, ReviewState, Timestamp, my_review_urgency, review_urgency};
use crate::stack::{PrStack, newest, stack_checks_spec, stack_tallies_fit};

verus! {

/// What the list shows on a stack's header row.
pub struct HeaderText {
    /// Expanded or collapsed marker.
    pub marker: String,
    /// Dimmed when every member is a draft.
    pub dim: bool,
    /// The bottom pull request's title.
    pub title: String,
    /// How many pull requests the stack holds.
    pub count: usize,
    pub author: String,
    pub head_ref: String,
    pub my_review: MyReviewState,
    pub review: ReviewState,
    pub checks: CheckRollup,
    pub newest: Option<Timestamp>,
}

/// What the list shows on a pull request's row.
pub struct PrRowText {
    pub number: u32,
    /// Drafts carry a mark after their number.
    pub draft_mark: bool,
    /// Drafts are dimmed.
    pub dim: bool,
    /// Tree glyph before the title of a stack member.
    pub glyph: String,
    pub title: String,
    pub author: String,
    pub head_ref: String,
    pub my_review: MyReviewState,
    pub review: ReviewState,
    pub checks: CheckRollup,
    pub updated_at: Option<Timestamp>,
}

/// The header row of a stack: its marker, whether it is dimmed, the bottom
/// pull request's title, author and branch, the stack's size, and the
/// stack's roll-ups.
pub fn stack_header_text(stack: &PrStack, expanded: bool) -> (r: HeaderText)
    requires
        stack@.len() > 0,
        stack_tallies_fit(stack@),
    ensures
        r.marker@ == (if expanded { "▾"@ } else { "▸"@ }),
        r.dim == (forall|i: int| 0 <= i < stack@.len() ==> (#[trigger] stack@[i]).is_draft),
        r.title@ == stack@[0].title,
        r.count == stack@.len(),
        r.author@ == stack@[0].author,
        r.head_ref@ == stack@[0].head_ref,
        exists|i: int| 0 <= i < stack@.len() && (#[trigger] stack@[i]).my_review == r.my_review,
        forall|i: int| 0 <= i < stack@.len() ==> my_review_urgency((#[trigger] stack@[i]).my_review) <= my_review_urgency(r.my_review),
        exists|i: int| 0 <= i < stack@.len() && (#[trigger] stack@[i]).review == r.review,
        forall|i: int| 0 <= i < stack@.len() ==> review_urgency((#[trigger] stack@[i]).review) <= review_urgency(r.review),
        r.checks == stack_checks_spec(stack@),
        r.newest == newest(stack@),
{
    let marker: &str = if expanded { "▾" } else { "▸" };
    let bottom = stack.bottom();
    HeaderText {
        marker: marker.to_owned(),
        dim: stack.all_drafts(),
        title: bottom.title.clone(),
        count: stack.prs.len(),
        author: bottom.author.clone(),
        head_ref: bottom.head_ref.clone(),
        my_review: stack.my_review_rollup(),
        review: stack.review_rollup(),
        checks: stack.checks_rollup(),
        newest: stack.newest_update(),
    }
}

/// The row of one pull request: drafts are marked and dimmed, and a member
/// of an expanded stack gets a tree glyph, a closing one for the last member.
pub fn pr_row_text(pr: &PrSummary, in_stack: bool, is_last: bool) -> (r: PrRowText)
    ensures
        r.number == pr.number,
        r.draft_mark == pr.is_draft,
        r.dim == pr.is_draft,
        r.glyph@ == (if !in_stack { ""@ } else if is_last { "└─ "@ } else { "├─ "@ }),
        r.title@ == pr@.title,
        r.author@ == pr@.author,
        r.head_ref@ == pr@.head_ref,
        r.my_review == pr.my_review,
        r.review == pr.review,
        r.checks == pr.checks,
        r.updated_at == pr.updated_at,
{
    let glyph: &str = if !in_stack {
        ""
    } else if is_last {
        "└─ "
    } else {
        "├─ "
    };
    PrRowText {
        number: pr.number,
        draft_mark: pr.is_draft,
        dim: pr.is_draft,
        glyph: glyph.to_owned(),
        title: pr.title.clone(),
        author: pr.author.clone(),
        head_ref: pr.head_ref.clone(),
        my_review: pr.my_review,
        review: pr.review,
        checks: pr.checks,
        updated_at: pr.updated_at,
    }
}

} // verus!
