use vstd::prelude::*;
use std::collections::HashSet;
use crate::pr::{PrDetail, PrSummary, PrSummaryView, summaries_view};
use crate::stack::PrStack;
use crate::grouping::{group_stacks, stacks_spec};

verus! {

broadcast use vstd::std_specs::hash::group_hash_axioms;

/// Which screen the browser shows.
#[derive(Debug, Clone, Copy, PartialEq, Eq, Structural)]
pub enum ViewMode {
    List,
    Detail(u32),
}

/// One visible row in the list: a collapsible stack header, or a pull
/// request (standalone, or a member of an expanded stack).
#[derive(Debug, Clone, Copy, PartialEq, Eq, Structural)]
pub enum ListRow {
    StackHeader(usize),
    Pr { group: usize, member: usize },
}

pub open spec fn stacks_view(groups: Seq<PrStack>) -> Seq<Seq<PrSummaryView>> {
    groups.map_values(|g: PrStack| g@)
}

/// The rows one group contributes: a stack shows its header, followed by
/// its members bottom to top when the stack is expanded; a standalone pull
/// request shows as itself.
pub open spec fn group_rows(g: int, stack: Seq<PrSummaryView>, expanded: Set<u32>) -> Seq<ListRow> {
    if stack.len() > 1 {
        seq![ListRow::StackHeader(g as usize)] + if expanded.contains(stack[0].number) {
            Seq::new(stack.len(), |m: int| ListRow::Pr { group: g as usize, member: m as usize })
        } else {
            Seq::empty()
        }
    } else {
        seq![ListRow::Pr { group: g as usize, member: 0 }]
    }
}

/// The rows of the first `k` groups.
pub open spec fn rows_upto(groups: Seq<Seq<PrSummaryView>>, expanded: Set<u32>, k: nat) -> Seq<ListRow>
    decreases k,
{
    if k == 0 {
        Seq::empty()
    } else {
        rows_upto(groups, expanded, (k - 1) as nat) + group_rows(k - 1, groups[k - 1], expanded)
    }
}

/// The visible rows for the given groups and set of expanded stacks (a stack
/// is known by the number of its bottom pull request).
pub open spec fn layout(groups: Seq<Seq<PrSummaryView>>, expanded: Set<u32>) -> Seq<ListRow> {
    rows_upto(groups, expanded, groups.len())
}

pub open spec fn all_nonempty(groups: Seq<Seq<PrSummaryView>>) -> bool {
    forall|g: int| 0 <= g < groups.len() ==> (#[trigger] groups[g]).len() >= 1
}

/// The row that a selection index points at, if it points at one.
pub open spec fn row_at(rows: Seq<ListRow>, sel: Option<usize>) -> Option<ListRow> {
    match sel {
        Some(i) => if i < rows.len() {
            Some(rows[i as int])
        } else {
            None
        },
        None => None,
    }
}

/// The pull request a row shows directly (a header shows none).
pub open spec fn pr_of_row(groups: Seq<Seq<PrSummaryView>>, row: Option<ListRow>) -> Option<PrSummaryView> {
    match row {
        Some(ListRow::Pr { group, member }) => if group < groups.len() && member < groups[group as int].len() {
            Some(groups[group as int][member as int])
        } else {
            None
        },
        _ => None,
    }
}

/// The pull request a row stands for: itself, or a stack's bottom.
pub open spec fn target_of_row(groups: Seq<Seq<PrSummaryView>>, row: Option<ListRow>) -> Option<PrSummaryView> {
    match row {
        Some(ListRow::Pr { group, member }) => pr_of_row(groups, row),
        Some(ListRow::StackHeader(g)) => if g < groups.len() && groups[g as int].len() > 0 {
            Some(groups[g as int][0])
        } else {
            None
        },
        None => None,
    }
}

/// The number identifying a row's target.
pub open spec fn number_of_row(groups: Seq<Seq<PrSummaryView>>, row: Option<ListRow>) -> Option<u32> {
    match target_of_row(groups, row) {
        Some(p) => Some(p.number),
        None => None,
    }
}

/// The pull request a row stands for can be looked up: a pull-request row
/// points at an existing member, a header at a group that has a bottom.
pub open spec fn target_resolvable(groups: Seq<Seq<PrSummaryView>>, row: Option<ListRow>) -> bool {
    match row {
        Some(ListRow::Pr { group, member }) => group < groups.len() && member < groups[group as int].len(),
        Some(ListRow::StackHeader(g)) => g < groups.len() && groups[g as int].len() > 0,
        None => true,
    }
}

/// A selected header points at an existing group that has a bottom.
pub open spec fn header_resolvable(groups: Seq<Seq<PrSummaryView>>, row: Option<ListRow>) -> bool {
    match row {
        Some(ListRow::StackHeader(g)) => g < groups.len() && groups[g as int].len() > 0,
        _ => true,
    }
}

/// A selected header points at no empty group.
pub open spec fn header_has_bottom(groups: Seq<Seq<PrSummaryView>>, row: Option<ListRow>) -> bool {
    match row {
        Some(ListRow::StackHeader(g)) => g < groups.len() ==> groups[g as int].len() > 0,
        _ => true,
    }
}

/// `t` is the first row satisfying `p`.
pub open spec fn is_first_where(rows: Seq<ListRow>, p: spec_fn(ListRow) -> bool, t: int) -> bool {
    &&& 0 <= t < rows.len()
    &&& p(rows[t])
    &&& forall|u: int| 0 <= u < t ==> !p(#[trigger] rows[u])
}

/// The first row satisfying `p`, if any does.
pub open spec fn first_where(rows: Seq<ListRow>, p: spec_fn(ListRow) -> bool) -> Option<usize> {
    if exists|t: int| is_first_where(rows, p, t) {
        Some((choose|t: int| is_first_where(rows, p, t)) as usize)
    } else {
        None
    }
}

/// A row that shows pull request `number` itself.
pub open spec fn shows_pr(groups: Seq<Seq<PrSummaryView>>, number: u32) -> spec_fn(ListRow) -> bool {
    |r: ListRow| pr_of_row(groups, Some(r)) matches Some(p) && p.number == number
}

/// A stack header of a stack that holds pull request `number`.
pub open spec fn heads_stack_with(groups: Seq<Seq<PrSummaryView>>, number: u32) -> spec_fn(ListRow) -> bool {
    |r: ListRow| r matches ListRow::StackHeader(g) && g < groups.len()
        && exists|m: int| 0 <= m < groups[g as int].len() && #[trigger] groups[g as int][m].number == number
}

/// Where pull request `number` shows: its own row, else the header of the
/// stack that holds it.
pub open spec fn row_index_for_spec(groups: Seq<Seq<PrSummaryView>>, rows: Seq<ListRow>, number: u32) -> Option<usize> {
    match first_where(rows, shows_pr(groups, number)) {
        Some(t) => Some(t),
        None => first_where(rows, heads_stack_with(groups, number)),
    }
}

/// The stacks (by bottom number) that are stacks in `groups`.
pub open spec fn stack_bottoms(groups: Seq<Seq<PrSummaryView>>) -> Set<u32> {
    Set::new(|b: u32| exists|g: int| 0 <= g < groups.len() && (#[trigger] groups[g]).len() > 1 && groups[g][0].number == b)
}

/// `set` with `b` flipped in or out.
pub open spec fn toggled(set: Set<u32>, b: u32) -> Set<u32> {
    if set.contains(b) {
        set.remove(b)
    } else {
        set.insert(b)
    }
}

/// The total number of pull requests over all groups.
pub open spec fn total_prs(groups: Seq<Seq<PrSummaryView>>) -> int
    decreases groups.len(),
{
    if groups.len() == 0 {
        0
    } else {
        total_prs(groups.drop_last()) + groups.last().len()
    }
}

/// Which rows the list shows, which row is selected, and what the detail
/// view holds.
pub struct App {
    pub repo: String,
    pub groups: Vec<PrStack>,
    pub rows: Vec<ListRow>,
    /// Expanded stacks, by the number of their bottom pull request.
    pub expanded: HashSet<u32>,
    /// The selected row index.
    pub selected: Option<usize>,
    pub mode: ViewMode,
    pub loading_list: bool,
    pub loading_detail: bool,
    pub detail: Option<PrDetail>,
    /// When the list was last loaded, in nanoseconds on the caller's
    /// monotonic clock.
    pub last_refresh: Option<u64>,
    pub last_error: Option<String>,
    pub show_help: bool,
    pub should_quit: bool,
    pub refresh_interval_secs: u64,
    pub auto_refresh: bool,
    pub limit: u32,
}

impl App {
    /// The stacks currently expanded, by bottom number.
    pub open spec fn expanded_set(&self) -> Set<u32> {
        self.expanded@
    }

    /// The selected row index, as a table's selection holds it.
    pub open spec fn selection(&self) -> Option<usize> {
        self.selected
    }

    pub open spec fn groups_view(&self) -> Seq<Seq<PrSummaryView>> {
        stacks_view(self.groups@)
    }

    /// The rows agree with the groups and the expanded set, and every group
    /// holds a pull request.
    pub open spec fn wf(&self) -> bool {
        &&& all_nonempty(self.groups_view())
        &&& self.rows@ == layout(self.groups_view(), self.expanded_set())
    }

    /// The fields that list navigation leaves alone are the same in both.
    pub open spec fn same_state(&self, other: &App) -> bool {
        &&& self.repo == other.repo
        &&& self.groups == other.groups
        &&& self.mode == other.mode
        &&& self.loading_list == other.loading_list
        &&& self.loading_detail == other.loading_detail
        &&& self.detail == other.detail
        &&& self.last_refresh == other.last_refresh
        &&& self.last_error == other.last_error
        &&& self.show_help == other.show_help
        &&& self.should_quit == other.should_quit
        &&& self.refresh_interval_secs == other.refresh_interval_secs
        &&& self.auto_refresh == other.auto_refresh
        &&& self.limit == other.limit
    }

    pub fn new(repo: String, refresh_interval_secs: u64, auto_refresh: bool, limit: u32) -> (app: App)
        ensures
            app.wf(),
            app.repo == repo,
            app.groups@.len() == 0,
            app.rows@.len() == 0,
            app.expanded_set() == Set::<u32>::empty(),
            app.selection() == Some(0usize),
            app.mode == ViewMode::List,
            app.loading_list,
            !app.loading_detail,
            app.detail is None,
            app.last_refresh is None,
            app.last_error is None,
            !app.show_help,
            !app.should_quit,
            app.refresh_interval_secs == refresh_interval_secs,
            app.auto_refresh == auto_refresh,
            app.limit == limit,
    {
        let app = App {
            repo,
            groups: Vec::new(),
            rows: Vec::new(),
            expanded: HashSet::new(),
            selected: Some(0),
            mode: ViewMode::List,
            loading_list: true,
            loading_detail: false,
            detail: None,
            last_refresh: None,
            last_error: None,
            show_help: false,
            should_quit: false,
            refresh_interval_secs,
            auto_refresh,
            limit,
        };
        proof {
            assert(app.groups_view() =~= Seq::<Seq<PrSummaryView>>::empty());
            assert(app.rows@ =~= layout(app.groups_view(), app.expanded_set()));
        }
        app
    }

    /// The selected row index.
    pub fn selected(&self) -> (r: Option<usize>)
        ensures
            r == self.selection(),
    {
        self.selected
    }

    /// Points the selection at a row index (or at nothing).
    pub fn select(&mut self, idx: Option<usize>)
        ensures
            final(self).selection() == idx,
            final(self).rows == old(self).rows,
            final(self).expanded_set() == old(self).expanded_set(),
            final(self).same_state(old(self)),
    {
        self.selected = idx;
    }

    pub fn pr_count(&self) -> (r: usize)
        requires
            total_prs(self.groups_view()) <= usize::MAX,
        ensures
            r == total_prs(self.groups_view()),
    {
        let ghost gs = self.groups_view();
        let mut total: usize = 0;
        let mut g: usize = 0;
        while g < self.groups.len()
            invariant
                0 <= g <= self.groups.len(),
                gs == self.groups_view(),
                total_prs(gs) <= usize::MAX,
                total == total_prs(gs.take(g as int)),
            decreases self.groups.len() - g,
        {
            proof {
                assert(gs.take(g + 1).drop_last() =~= gs.take(g as int));
                lemma_total_prefix(gs, g + 1);
            }
            total = total + self.groups[g].prs.len();
            g = g + 1;
        }
        proof {
            assert(gs.take(g as int) =~= gs);
        }
        total
    }

    /// Whether group `group` is a stack that is currently expanded.
    pub fn is_expanded(&self, group: usize) -> (r: bool)
        requires
            group < self.groups@.len() ==> self.groups_view()[group as int].len() > 0,
        ensures
            r == (group < self.groups@.len() && self.expanded_set().contains(self.groups_view()[group as int][0].number)),
    {
        if group < self.groups.len() {
            proof {
                assert(self.groups_view()[group as int] == self.groups@[group as int]@);
            }
            self.expanded.contains(&self.groups[group].bottom().number)
        } else {
            false
        }
    }

    pub fn selected_row(&self) -> (r: Option<ListRow>)
        ensures
            r == row_at(self.rows@, self.selection()),
    {
        match self.selected {
            Some(i) => if i < self.rows.len() {
                Some(self.rows[i])
            } else {
                None
            },
            None => None,
        }
    }

    /// The selected pull request, when the selection is a pull-request row.
    pub fn selected_pr(&self) -> (r: Option<&PrSummary>)
        ensures
            match r {
                Some(p) => pr_of_row(self.groups_view(), row_at(self.rows@, self.selection())) == Some(p@),
                None => pr_of_row(self.groups_view(), row_at(self.rows@, self.selection())) is None,
            },
    {
        match self.selected_row() {
            Some(ListRow::Pr { group, member }) => {
                if group < self.groups.len() && member < self.groups[group].prs.len() {
                    proof {
                        assert(self.groups_view()[group as int] == self.groups@[group as int]@);
                    }
                    Some(&self.groups[group].prs[member])
                } else {
                    proof {
                        if group < self.groups.len() {
                            assert(self.groups_view()[group as int] == self.groups@[group as int]@);
                        }
                    }
                    None
                }
            },
            _ => None,
        }
    }

    /// URL to open for the selection; a stack header opens its bottom pull request.
    pub fn selected_url(&self) -> (r: Option<String>)
        requires
            header_has_bottom(self.groups_view(), row_at(self.rows@, self.selection())),
        ensures
            match r {
                Some(u) => target_of_row(self.groups_view(), row_at(self.rows@, self.selection())) matches Some(p) && p.url == u@,
                None => target_of_row(self.groups_view(), row_at(self.rows@, self.selection())) is None,
            },
    {
        match self.selected_row() {
            Some(ListRow::Pr { group, member }) => {
                if group < self.groups.len() && member < self.groups[group].prs.len() {
                    proof {
                        assert(self.groups_view()[group as int] == self.groups@[group as int]@);
                    }
                    Some(self.groups[group].prs[member].url.clone())
                } else {
                    proof {
                        if group < self.groups.len() {
                            assert(self.groups_view()[group as int] == self.groups@[group as int]@);
                        }
                    }
                    None
                }
            },
            Some(ListRow::StackHeader(g)) => {
                if g < self.groups.len() {
                    proof {
                        assert(self.groups_view()[g as int] == self.groups@[g as int]@);
                    }
                    Some(self.groups[g].bottom().url.clone())
                } else {
                    None
                }
            },
            None => None,
        }
    }

    /// Moves the selection one row down, staying on the last row.
    pub fn select_next(&mut self)
        ensures
            final(self).rows == old(self).rows,
            final(self).expanded_set() == old(self).expanded_set(),
            final(self).same_state(old(self)),
            final(self).selection() == if old(self).rows@.len() == 0 {
                old(self).selection()
            } else {
                match old(self).selection() {
                    Some(i) => if i + 1 < old(self).rows@.len() {
                        Some((i + 1) as usize)
                    } else {
                        Some(i)
                    },
                    None => Some(0usize),
                }
            },
    {
        if self.rows.len() == 0 {
            return;
        }
        let new = match self.selected {
            Some(i) => if i < self.rows.len() - 1 {
                i + 1
            } else {
                i
            },
            None => 0,
        };
        self.select(Some(new));
    }

    /// Moves the selection one row up, staying on the first row.
    pub fn select_prev(&mut self)
        ensures
            final(self).rows == old(self).rows,
            final(self).expanded_set() == old(self).expanded_set(),
            final(self).same_state(old(self)),
            final(self).selection() == if old(self).rows@.len() == 0 {
                old(self).selection()
            } else {
                match old(self).selection() {
                    Some(i) => if i > 0 {
                        Some((i - 1) as usize)
                    } else {
                        Some(0usize)
                    },
                    None => Some(0usize),
                }
            },
    {
        if self.rows.len() == 0 {
            return;
        }
        let new = match self.selected {
            Some(i) => if i > 0 {
                i - 1
            } else {
                0
            },
            None => 0,
        };
        self.select(Some(new));
    }

    pub fn select_first(&mut self)
        ensures
            final(self).rows == old(self).rows,
            final(self).expanded_set() == old(self).expanded_set(),
            final(self).same_state(old(self)),
            final(self).selection() == if old(self).rows@.len() == 0 {
                old(self).selection()
            } else {
                Some(0usize)
            },
    {
        if self.rows.len() != 0 {
            self.select(Some(0));
        }
    }

    pub fn select_last(&mut self)
        ensures
            final(self).rows == old(self).rows,
            final(self).expanded_set() == old(self).expanded_set(),
            final(self).same_state(old(self)),
            final(self).selection() == if old(self).rows@.len() == 0 {
                old(self).selection()
            } else {
                Some((old(self).rows@.len() - 1) as usize)
            },
    {
        if self.rows.len() != 0 {
            let last = self.rows.len() - 1;
            self.select(Some(last));
        }
    }
}

proof fn lemma_total_prefix(gs: Seq<Seq<PrSummaryView>>, i: int)
    requires
        0 <= i <= gs.len(),
    ensures
        total_prs(gs.take(i)) <= total_prs(gs),
    decreases gs.len() - i,
{
    if i < gs.len() {
        lemma_total_prefix(gs, i + 1);
        assert(gs.take(i + 1).drop_last() =~= gs.take(i));
    } else {
        assert(gs.take(i) =~= gs);
    }
}


/// A row refers to a group (and member) that exists; a header, to a stack.
pub open spec fn row_valid(groups: Seq<Seq<PrSummaryView>>, row: ListRow) -> bool {
    match row {
        ListRow::Pr { group, member } => group < groups.len() && member < groups[group as int].len(),
        ListRow::StackHeader(g) => g < groups.len() && groups[g as int].len() > 1,
    }
}

proof fn lemma_rows_valid(groups: Seq<Seq<PrSummaryView>>, expanded: Set<u32>, k: nat)
    requires
        all_nonempty(groups),
        k <= groups.len(),
        groups.len() <= usize::MAX,
        forall|g: int| 0 <= g < groups.len() ==> (#[trigger] groups[g]).len() <= usize::MAX,
    ensures
        forall|t: int| 0 <= t < rows_upto(groups, expanded, k).len() ==>
            row_valid(groups, #[trigger] rows_upto(groups, expanded, k)[t]),
    decreases k,
{
    if k > 0 {
        lemma_rows_valid(groups, expanded, (k - 1) as nat);
        let prev = rows_upto(groups, expanded, (k - 1) as nat);
        let mine = group_rows(k - 1, groups[k - 1], expanded);
        assert forall|t: int| 0 <= t < rows_upto(groups, expanded, k).len() implies
            row_valid(groups, #[trigger] rows_upto(groups, expanded, k)[t]) by {
            if t < prev.len() {
                assert(rows_upto(groups, expanded, k)[t] == prev[t]);
            } else {
                let j = t - prev.len();
                assert(rows_upto(groups, expanded, k)[t] == mine[j]);
                assert(groups[k - 1].len() >= 1);
                if groups[k - 1].len() > 1 && j > 0 {
                    let ms = Seq::new(groups[k - 1].len(), |m: int| ListRow::Pr { group: (k - 1) as usize, member: m as usize });
                    assert(mine[j] == ms[j - 1]);
                }
            }
        }
    }
}

/// In the visible rows, every row refers to an existing group and member,
/// and every header to a stack.
pub proof fn lemma_layout_valid(groups: Seq<Seq<PrSummaryView>>, expanded: Set<u32>)
    requires
        all_nonempty(groups),
        groups.len() <= usize::MAX,
        forall|g: int| 0 <= g < groups.len() ==> (#[trigger] groups[g]).len() <= usize::MAX,
    ensures
        forall|t: int| 0 <= t < layout(groups, expanded).len() ==>
            row_valid(groups, #[trigger] layout(groups, expanded)[t]),
{
    lemma_rows_valid(groups, expanded, groups.len());
}

proof fn lemma_header_shown(groups: Seq<Seq<PrSummaryView>>, expanded: Set<u32>, k: nat, g: int)
    requires
        0 <= g < k <= groups.len(),
        groups.len() <= usize::MAX,
        groups[g].len() > 1,
    ensures
        rows_upto(groups, expanded, k).contains(ListRow::StackHeader(g as usize)),
    decreases k,
{
    let prev = rows_upto(groups, expanded, (k - 1) as nat);
    let mine = group_rows(k - 1, groups[k - 1], expanded);
    if g == k - 1 {
        assert(rows_upto(groups, expanded, k)[prev.len() as int] == mine[0]);
    } else {
        lemma_header_shown(groups, expanded, (k - 1) as nat, g);
        let t = choose|t: int| 0 <= t < prev.len() && prev[t] == ListRow::StackHeader(g as usize);
        assert(rows_upto(groups, expanded, k)[t] == prev[t]);
    }
}

/// Every stack shows its header, expanded or not.
pub proof fn lemma_every_stack_has_header(groups: Seq<Seq<PrSummaryView>>, expanded: Set<u32>, g: int)
    requires
        0 <= g < groups.len(),
        groups.len() <= usize::MAX,
        groups[g].len() > 1,
    ensures
        layout(groups, expanded).contains(ListRow::StackHeader(g as usize)),
{
    lemma_header_shown(groups, expanded, groups.len(), g);
}

/// The visible rows for the given groups and expanded stacks.
fn layout_rows(groups: &Vec<PrStack>, expanded: &HashSet<u32>) -> (rows: Vec<ListRow>)
    ensures
        rows@ == layout(stacks_view(groups@), expanded@),
{
    let ghost gs = stacks_view(groups@);
    let mut rows: Vec<ListRow> = Vec::new();
    let mut g: usize = 0;
    while g < groups.len()
        invariant
            0 <= g <= groups.len(),
            gs == stacks_view(groups@),
            rows@ == rows_upto(gs, expanded@, g as nat),
        decreases groups.len() - g,
    {
        let stack = &groups[g];
        let ghost before = rows@;
        proof {
            assert(gs[g as int] == stack@);
        }
        if stack.is_stack() {
            rows.push(ListRow::StackHeader(g));
            if expanded.contains(&stack.bottom().number) {
                let mut m: usize = 0;
                while m < stack.prs.len()
                    invariant
                        0 <= m <= stack.prs.len(),
                        rows@ == before + seq![ListRow::StackHeader(g)]
                            + Seq::new(m as nat, |i: int| ListRow::Pr { group: g, member: i as usize }),
                    decreases stack.prs.len() - m,
                {
                    rows.push(ListRow::Pr { group: g, member: m });
                    proof {
                        assert(rows@ =~= before + seq![ListRow::StackHeader(g)]
                            + Seq::new((m + 1) as nat, |i: int| ListRow::Pr { group: g, member: i as usize }));
                    }
                    m = m + 1;
                }
                proof {
                    assert(rows@ =~= rows_upto(gs, expanded@, (g + 1) as nat));
                }
            } else {
                proof {
                    assert(rows@ =~= rows_upto(gs, expanded@, (g + 1) as nat));
                }
            }
        } else {
            rows.push(ListRow::Pr { group: g, member: 0 });
            proof {
                assert(rows@ =~= rows_upto(gs, expanded@, (g + 1) as nat));
            }
        }
        g = g + 1;
    }
    rows
}


proof fn lemma_view_bounds(groups: Seq<PrStack>)
    requires
        groups.len() <= usize::MAX,
    ensures
        stacks_view(groups).len() <= usize::MAX,
        forall|g: int| 0 <= g < stacks_view(groups).len() ==> (#[trigger] stacks_view(groups)[g]).len() <= usize::MAX,
{
    assert forall|g: int| 0 <= g < stacks_view(groups).len() implies (#[trigger] stacks_view(groups)[g]).len() <= usize::MAX by {
        assert(stacks_view(groups)[g] == summaries_view(groups[g].prs@));
        assert(groups[g].prs@.len() == groups[g].prs.len());
    }
}

impl App {
    /// Number identifying the selection (a stack header is identified by its
    /// bottom pull request).
    pub fn selected_number(&self) -> (r: Option<u32>)
        requires
            target_resolvable(self.groups_view(), row_at(self.rows@, self.selection())),
        ensures
            r == number_of_row(self.groups_view(), row_at(self.rows@, self.selection())),
    {
        match self.selected_row() {
            Some(ListRow::Pr { group, member }) => {
                proof {
                    assert(self.groups_view()[group as int] == self.groups@[group as int]@);
                }
                Some(self.groups[group].prs[member].number)
            },
            Some(ListRow::StackHeader(g)) => {
                proof {
                    assert(self.groups_view()[g as int] == self.groups@[g as int]@);
                }
                Some(self.groups[g].bottom().number)
            },
            None => None,
        }
    }

    fn row_index_for(&self, number: u32) -> (r: Option<usize>)
        requires
            self.wf(),
        ensures
            r == row_index_for_spec(self.groups_view(), self.rows@, number),
    {
        let ghost gs = self.groups_view();
        let ghost rows = self.rows@;
        proof {
            assert(self.groups@.len() == self.groups.len());
            lemma_view_bounds(self.groups@);
            lemma_layout_valid(gs, self.expanded_set());
        }
        let ghost p1 = shows_pr(gs, number);
        let mut t: usize = 0;
        while t < self.rows.len()
            invariant
                0 <= t <= self.rows.len(),
                gs == self.groups_view(),
                rows == self.rows@,
                p1 == shows_pr(gs, number),
                forall|u: int| 0 <= u < rows.len() ==> row_valid(gs, #[trigger] rows[u]),
                forall|u: int| 0 <= u < t ==> !p1(#[trigger] rows[u]),
            decreases self.rows.len() - t,
        {
            match self.rows[t] {
                ListRow::Pr { group, member } => {
                    proof {
                        assert(row_valid(gs, rows[t as int]));
                        assert(gs[group as int] == self.groups@[group as int]@);
                    }
                    if self.groups[group].prs[member].number == number {
                        proof {
                            assert(is_first_where(rows, p1, t as int));
                            let c = choose|c: int| is_first_where(rows, p1, c);
                            if c < t {
                                assert(!p1(rows[c]));
                            }
                            if c > t {
                                assert(!p1(rows[t as int]));
                            }
                        }
                        return Some(t);
                    }
                },
                ListRow::StackHeader(_) => {},
            }
            t = t + 1;
        }
        proof {
            if exists|c: int| is_first_where(rows, p1, c) {
                let c = choose|c: int| is_first_where(rows, p1, c);
                assert(!p1(rows[c]));
            }
        }
        let ghost p2 = heads_stack_with(gs, number);
        let mut t: usize = 0;
        while t < self.rows.len()
            invariant
                0 <= t <= self.rows.len(),
                gs == self.groups_view(),
                rows == self.rows@,
                p2 == heads_stack_with(gs, number),
                forall|u: int| 0 <= u < rows.len() ==> row_valid(gs, #[trigger] rows[u]),
                forall|u: int| 0 <= u < t ==> !p2(#[trigger] rows[u]),
                first_where(rows, shows_pr(gs, number)) is None,
            decreases self.rows.len() - t,
        {
            match self.rows[t] {
                ListRow::StackHeader(g) => {
                    proof {
                        assert(row_valid(gs, rows[t as int]));
                        assert(gs[g as int] == self.groups@[g as int]@);
                    }
                    let members = &self.groups[g].prs;
                    let ghost mg = gs[g as int];
                    let mut m: usize = 0;
                    let mut hit = false;
                    while m < members.len()
                        invariant
                            0 <= m <= members.len(),
                            mg == summaries_view(members@),
                            hit == exists|i: int| 0 <= i < m && #[trigger] mg[i].number == number,
                        decreases members.len() - m,
                    {
                        proof {
                            assert(mg[m as int] == members@[m as int]@);
                        }
                        let ghost old_hit = hit;
                        if members[m].number == number {
                            hit = true;
                        }
                        proof {
                            assert(mg[m as int].number == members@[m as int].number);
                            if hit {
                                if old_hit {
                                    let w = choose|i: int| 0 <= i < m && #[trigger] mg[i].number == number;
                                    assert(0 <= w < m + 1 && mg[w].number == number);
                                } else {
                                    assert(mg[m as int].number == number);
                                }
                                assert(exists|i: int| 0 <= i < m + 1 && #[trigger] mg[i].number == number);
                            } else {
                                assert(!exists|i: int| 0 <= i < m + 1 && #[trigger] mg[i].number == number);
                            }
                        }
                        m = m + 1;
                    }
                    if hit {
                        proof {
                            assert(is_first_where(rows, p2, t as int));
                            let c = choose|c: int| is_first_where(rows, p2, c);
                            if c < t {
                                assert(!p2(rows[c]));
                            }
                            if c > t {
                                assert(!p2(rows[t as int]));
                            }
                        }
                        return Some(t);
                    }
                },
                ListRow::Pr { .. } => {},
            }
            t = t + 1;
        }
        proof {
            if exists|c: int| is_first_where(rows, p2, c) {
                let c = choose|c: int| is_first_where(rows, p2, c);
                assert(!p2(rows[c]));
            }
        }
        None
    }
}


/// What toggling does: on a selected stack header, the stack's bottom number
/// flips in or out of the expanded set and the selection lands on the
/// header's row; on anything else, nothing changes.
pub open spec fn toggle_outcome(before: &App, after: &App) -> bool {
    match row_at(before.rows@, before.selection()) {
        Some(ListRow::StackHeader(g)) => {
            &&& after.expanded_set() == toggled(before.expanded_set(), before.groups_view()[g as int][0].number)
            &&& after.rows@ == layout(after.groups_view(), after.expanded_set())
            &&& after.selection() == match first_where(after.rows@, |row: ListRow| row == ListRow::StackHeader(g)) {
                Some(i) => Some(i),
                None => before.selection(),
            }
        },
        _ => {
            &&& after.rows == before.rows
            &&& after.expanded == before.expanded
            &&& after.selection() == before.selection()
        },
    }
}

/// The first index of `target` in `rows`.
fn position_of(rows: &Vec<ListRow>, target: ListRow) -> (r: Option<usize>)
    ensures
        match r {
            Some(i) => is_first_where(rows@, |row: ListRow| row == target, i as int),
            None => !rows@.contains(target),
        },
{
    let ghost p = |row: ListRow| row == target;
    let mut t: usize = 0;
    while t < rows.len()
        invariant
            0 <= t <= rows.len(),
            p == (|row: ListRow| row == target),
            forall|u: int| 0 <= u < t ==> !p(#[trigger] rows@[u]),
        decreases rows.len() - t,
    {
        if rows[t] == target {
            return Some(t);
        }
        t = t + 1;
    }
    proof {
        if rows@.contains(target) {
            let w = choose|w: int| 0 <= w < rows@.len() && rows@[w] == target;
            assert(!p(rows@[w]));
        }
    }
    None
}

impl App {
    /// The list-side fields (everything but the mode, the detail, its
    /// loading flag and the last error) are the same in both.
    pub open spec fn same_list(&self, other: &App) -> bool {
        &&& self.repo == other.repo
        &&& self.groups == other.groups
        &&& self.rows == other.rows
        &&& self.expanded == other.expanded
        &&& self.selected == other.selected
        &&& self.loading_list == other.loading_list
        &&& self.last_refresh == other.last_refresh
        &&& self.show_help == other.show_help
        &&& self.should_quit == other.should_quit
        &&& self.refresh_interval_secs == other.refresh_interval_secs
        &&& self.auto_refresh == other.auto_refresh
        &&& self.limit == other.limit
    }

    /// Expands or collapses the selected stack header, keeping it selected.
    /// Returns false, changing nothing, when the selection is not a stack header.
    pub fn toggle_selected_stack(&mut self) -> (r: bool)
        requires
            header_resolvable(old(self).groups_view(), row_at(old(self).rows@, old(self).selection())),
        ensures
            final(self).same_state(old(self)),
            old(self).wf() ==> final(self).wf(),
            old(self).wf() && r ==> row_at(final(self).rows@, final(self).selection())
                == row_at(old(self).rows@, old(self).selection()),
            r == (row_at(old(self).rows@, old(self).selection()) matches Some(ListRow::StackHeader(_))),
            toggle_outcome(old(self), final(self)),
    {
        let g = match self.selected_row() {
            Some(ListRow::StackHeader(g)) => g,
            _ => return false,
        };
        let ghost was_wf = self.wf();
        proof {
            assert(self.groups_view()[g as int] == self.groups@[g as int]@);
            if was_wf {
                assert(self.groups@.len() == self.groups.len());
                lemma_view_bounds(self.groups@);
                lemma_layout_valid(self.groups_view(), self.expanded_set());
                let i = self.selection().unwrap();
                assert(row_valid(self.groups_view(), self.rows@[i as int]));
            }
        }
        let bottom = self.groups[g].bottom().number;
        let ghost old_set = self.expanded@;
        if !self.expanded.remove(&bottom) {
            self.expanded.insert(bottom);
        }
        proof {
            assert(self.expanded@ == toggled(old_set, bottom));
        }
        self.rows = layout_rows(&self.groups, &self.expanded);
        let found = position_of(&self.rows, ListRow::StackHeader(g));
        proof {
            let p = |row: ListRow| row == ListRow::StackHeader(g);
            match found {
                Some(idx) => {
                    let c = choose|c: int| is_first_where(self.rows@, p, c);
                    if c < idx {
                        assert(!p(self.rows@[c]));
                    }
                    if c > idx {
                        assert(!p(self.rows@[idx as int]));
                    }
                },
                None => {
                    if exists|c: int| is_first_where(self.rows@, p, c) {
                        let c = choose|c: int| is_first_where(self.rows@, p, c);
                        assert(self.rows@.contains(self.rows@[c]));
                    }
                },
            }
            if was_wf {
                lemma_every_stack_has_header(self.groups_view(), self.expanded_set(), g as int);
            }
        }
        match found {
            Some(idx) => self.selected = Some(idx),
            None => {},
        }
        true
    }

    /// Takes a fresh list of pull requests (loaded at `now`, in nanoseconds
    /// on the caller's monotonic clock): regroups them, keeps the stacks that
    /// are still stacks expanded, and keeps the selection on the same pull
    /// request where it still shows (else on its stack's header, else on the
    /// first row).
    pub fn apply_prs(&mut self, prs: Vec<PrSummary>, now: u64)
        requires
            target_resolvable(old(self).groups_view(), row_at(old(self).rows@, old(self).selection())),
        ensures
            final(self).wf(),
            final(self).groups_view() == stacks_spec(summaries_view(prs@)),
            final(self).expanded_set() == old(self).expanded_set().intersect(stack_bottoms(final(self).groups_view())),
            final(self).selection() == if final(self).rows@.len() == 0 {
                None
            } else {
                Some(match number_of_row(old(self).groups_view(), row_at(old(self).rows@, old(self).selection())) {
                    Some(k) => match row_index_for_spec(final(self).groups_view(), final(self).rows@, k) {
                        Some(i) => i,
                        None => 0usize,
                    },
                    None => 0usize,
                })
            },
            !final(self).loading_list,
            final(self).last_refresh == Some(now),
            final(self).last_error is None,
            final(self).repo == old(self).repo,
            final(self).mode == old(self).mode,
            final(self).loading_detail == old(self).loading_detail,
            final(self).detail == old(self).detail,
            final(self).show_help == old(self).show_help,
            final(self).should_quit == old(self).should_quit,
            final(self).refresh_interval_secs == old(self).refresh_interval_secs,
            final(self).auto_refresh == old(self).auto_refresh,
            final(self).limit == old(self).limit,
    {
        let keep = self.selected_number();
        let ghost old_set = self.expanded@;
        self.groups = group_stacks(prs);
        let ghost gs = self.groups_view();
        proof {
            assert forall|g: int| 0 <= g < gs.len() implies (#[trigger] gs[g]).len() >= 1 by {
                assert(gs[g] == self.groups@[g]@);
            }
        }
        let mut live: HashSet<u32> = HashSet::new();
        let mut g: usize = 0;
        while g < self.groups.len()
            invariant
                0 <= g <= self.groups.len(),
                gs == self.groups_view(),
                all_nonempty(gs),
                self.expanded@ == old_set,
                forall|b: u32| #[trigger] live@.contains(b) <==> (old_set.contains(b)
                    && exists|h: int| 0 <= h < g && (#[trigger] gs[h]).len() > 1 && gs[h][0].number == b),
            decreases self.groups.len() - g,
        {
            let stack = &self.groups[g];
            proof {
                assert(gs[g as int] == stack@);
            }
            if stack.is_stack() {
                let b = stack.bottom().number;
                if self.expanded.contains(&b) {
                    live.insert(b);
                }
            }
            proof {
                assert forall|b: u32| #[trigger] live@.contains(b) <==> (old_set.contains(b)
                    && exists|h: int| 0 <= h < g + 1 && (#[trigger] gs[h]).len() > 1 && gs[h][0].number == b) by {
                    if old_set.contains(b) && exists|h: int| 0 <= h < g + 1 && (#[trigger] gs[h]).len() > 1 && gs[h][0].number == b {
                        let h = choose|h: int| 0 <= h < g + 1 && (#[trigger] gs[h]).len() > 1 && gs[h][0].number == b;
                        if h < g {
                            assert(exists|h: int| 0 <= h < g && (#[trigger] gs[h]).len() > 1 && gs[h][0].number == b);
                        }
                    }
                }
            }
            g = g + 1;
        }
        self.expanded = live;
        proof {
            assert(self.expanded@ =~= old_set.intersect(stack_bottoms(gs)));
        }
        self.rows = layout_rows(&self.groups, &self.expanded);
        if self.rows.len() == 0 {
            self.selected = None;
        } else {
            let idx: usize = match keep {
                Some(n) => match self.row_index_for(n) {
                    Some(i) => i,
                    None => 0,
                },
                None => 0,
            };
            self.selected = Some(idx);
        }
        self.loading_list = false;
        self.last_refresh = Some(now);
        self.last_error = None;
    }

    pub fn apply_list_error(&mut self, err: String)
        ensures
            !final(self).loading_list,
            final(self).last_error == Some(err),
            final(self).mode == old(self).mode,
            final(self).detail == old(self).detail,
            final(self).loading_detail == old(self).loading_detail,
            final(self).same_list(&(App { loading_list: false, ..*old(self) })),
    {
        self.loading_list = false;
        self.last_error = Some(err);
    }

    pub fn apply_detail(&mut self, detail: PrDetail)
        ensures
            !final(self).loading_detail,
            final(self).detail == Some(detail),
            final(self).mode == old(self).mode,
            final(self).last_error == old(self).last_error,
            final(self).same_list(old(self)),
    {
        self.loading_detail = false;
        self.detail = Some(detail);
    }

    pub fn apply_detail_error(&mut self, err: String)
        ensures
            !final(self).loading_detail,
            final(self).last_error == Some(err),
            final(self).mode == old(self).mode,
            final(self).detail == old(self).detail,
            final(self).same_list(old(self)),
    {
        self.loading_detail = false;
        self.last_error = Some(err);
    }

    /// Opens the detail view of the selected pull request, if a pull-request
    /// row is selected; otherwise changes nothing.
    pub fn enter_detail(&mut self)
        ensures
            final(self).same_list(old(self)),
            final(self).last_error == old(self).last_error,
            match pr_of_row(old(self).groups_view(), row_at(old(self).rows@, old(self).selection())) {
                Some(p) => final(self).mode == ViewMode::Detail(p.number) && final(self).detail is None
                    && final(self).loading_detail,
                None => final(self).mode == old(self).mode && final(self).detail == old(self).detail
                    && final(self).loading_detail == old(self).loading_detail,
            },
    {
        let number = match self.selected_pr() {
            Some(pr) => Some(pr.number),
            None => None,
        };
        if let Some(n) = number {
            self.mode = ViewMode::Detail(n);
            self.detail = None;
            self.loading_detail = true;
        }
    }

    pub fn back_to_list(&mut self)
        ensures
            final(self).mode == ViewMode::List,
            final(self).detail is None,
            !final(self).loading_detail,
            final(self).last_error == old(self).last_error,
            final(self).same_list(old(self)),
    {
        self.mode = ViewMode::List;
        self.detail = None;
        self.loading_detail = false;
    }

    /// Whether an automatic refresh is due at `now` (nanoseconds on the same
    /// clock as `last_refresh`): only when auto-refresh is on, no load is in
    /// flight, and at least the refresh interval, in whole seconds, has passed.
    pub fn needs_auto_refresh(&self, now: u64) -> (r: bool)
        ensures
            r == (self.auto_refresh && !self.loading_list && match self.last_refresh {
                Some(t) => (if now >= t { (now - t) / 1_000_000_000 } else { 0 }) >= self.refresh_interval_secs,
                None => false,
            }),
    {
        if !self.auto_refresh || self.loading_list {
            return false;
        }
        match self.last_refresh {
            None => false,
            Some(t) => now.saturating_sub(t) / 1_000_000_000 >= self.refresh_interval_secs,
        }
    }
}


/// Toggling the same stack twice gives back the expanded set, and with it
/// the rows, that were there before.
pub proof fn lemma_toggle_twice_restores(groups: Seq<Seq<PrSummaryView>>, expanded: Set<u32>, b: u32)
    ensures
        toggled(toggled(expanded, b), b) == expanded,
        layout(groups, toggled(toggled(expanded, b), b)) == layout(groups, expanded),
{
    assert(toggled(toggled(expanded, b), b) =~= expanded);
}

proof fn lemma_rows_upto_collapsed(groups: Seq<Seq<PrSummaryView>>, expanded: Set<u32>, k: nat)
    requires
        k <= groups.len(),
        forall|g: int| 0 <= g < groups.len() && (#[trigger] groups[g]).len() > 1 ==> !expanded.contains(groups[g][0].number),
    ensures
        rows_upto(groups, expanded, k).len() == k,
    decreases k,
{
    if k > 0 {
        lemma_rows_upto_collapsed(groups, expanded, (k - 1) as nat);
    }
}

/// With no stack expanded, every group, stack or not, takes exactly one row.
pub proof fn lemma_collapsed_one_row_per_group(groups: Seq<Seq<PrSummaryView>>, expanded: Set<u32>)
    requires
        forall|g: int| 0 <= g < groups.len() && (#[trigger] groups[g]).len() > 1 ==> !expanded.contains(groups[g][0].number),
    ensures
        layout(groups, expanded).len() == groups.len(),
{
    lemma_rows_upto_collapsed(groups, expanded, groups.len());
}

/// Where a pull request still shows as a row of its own, looking it up finds
/// such a row; so a refresh keeps such a selection on the same pull request.
pub proof fn lemma_lookup_finds_shown_pr(groups: Seq<Seq<PrSummaryView>>, rows: Seq<ListRow>, number: u32, t: int)
    requires
        0 <= t < rows.len(),
        rows.len() <= usize::MAX,
        shows_pr(groups, number)(rows[t]),
    ensures
        row_index_for_spec(groups, rows, number) matches Some(i) && i < rows.len()
            && shows_pr(groups, number)(rows[i as int]),
{
    let p = shows_pr(groups, number);
    lemma_first_exists(rows, p, t);
    let c = choose|c: int| is_first_where(rows, p, c);
    assert(first_where(rows, p) == Some(c as usize));
}

proof fn lemma_first_exists(rows: Seq<ListRow>, p: spec_fn(ListRow) -> bool, t: int)
    requires
        0 <= t < rows.len(),
        p(rows[t]),
    ensures
        exists|c: int| is_first_where(rows, p, c),
    decreases t,
{
    if exists|u: int| 0 <= u < t && p(#[trigger] rows[u]) {
        let u = choose|u: int| 0 <= u < t && p(#[trigger] rows[u]);
        lemma_first_exists(rows, p, u);
    } else {
        assert(is_first_where(rows, p, t));
    }
}


/// A header row names a stack among the first `k` groups.
pub open spec fn header_in(groups: Seq<Seq<PrSummaryView>>, row: ListRow, k: nat) -> bool {
    match row {
        ListRow::StackHeader(g) => g < k && groups[g as int].len() > 1,
        _ => true,
    }
}

proof fn lemma_headers_unique_upto(groups: Seq<Seq<PrSummaryView>>, expanded: Set<u32>, k: nat)
    requires
        k <= groups.len(),
        groups.len() <= usize::MAX,
    ensures
        forall|t: int| 0 <= t < rows_upto(groups, expanded, k).len()
            ==> header_in(groups, #[trigger] rows_upto(groups, expanded, k)[t], k),
        forall|t1: int, t2: int|
            0 <= t1 < rows_upto(groups, expanded, k).len() && 0 <= t2 < rows_upto(groups, expanded, k).len()
            && (#[trigger] rows_upto(groups, expanded, k)[t1]) is StackHeader
            && rows_upto(groups, expanded, k)[t1] == #[trigger] rows_upto(groups, expanded, k)[t2] ==> t1 == t2,
    decreases k,
{
    if k > 0 {
        lemma_headers_unique_upto(groups, expanded, (k - 1) as nat);
        let prev = rows_upto(groups, expanded, (k - 1) as nat);
        let mine = group_rows(k - 1, groups[k - 1], expanded);
        let cur = rows_upto(groups, expanded, k);
        assert(cur == prev + mine);
        assert forall|t: int| 0 <= t < mine.len() implies
            (if t == 0 { header_in(groups, #[trigger] mine[t], k) && (mine[t] is StackHeader ==> mine[t] == ListRow::StackHeader((k - 1) as usize)) } else { !(mine[t] is StackHeader) }) by {
            if groups[k - 1].len() > 1 && t > 0 {
                let ms = Seq::new(groups[k - 1].len(), |m: int| ListRow::Pr { group: (k - 1) as usize, member: m as usize });
                assert(mine[t] == ms[t - 1]);
            }
        }
        assert forall|t: int| 0 <= t < cur.len() implies header_in(groups, #[trigger] cur[t], k) by {
            if t < prev.len() {
                assert(cur[t] == prev[t]);
                assert(header_in(groups, prev[t], (k - 1) as nat));
            } else {
                assert(cur[t] == mine[t - prev.len()]);
            }
        }
        assert forall|t1: int, t2: int|
            0 <= t1 < cur.len() && 0 <= t2 < cur.len()
            && (#[trigger] cur[t1]) is StackHeader
            && cur[t1] == #[trigger] cur[t2] implies t1 == t2 by {
            if t1 < prev.len() && t2 < prev.len() {
                assert(cur[t1] == prev[t1] && cur[t2] == prev[t2]);
            } else if t1 < prev.len() {
                assert(cur[t1] == prev[t1]);
                assert(header_in(groups, prev[t1], (k - 1) as nat));
                assert(cur[t2] == mine[t2 - prev.len()]);
            } else if t2 < prev.len() {
                assert(cur[t2] == prev[t2]);
                assert(header_in(groups, prev[t2], (k - 1) as nat));
                assert(cur[t1] == mine[t1 - prev.len()]);
            } else {
                assert(cur[t1] == mine[t1 - prev.len()]);
                assert(cur[t2] == mine[t2 - prev.len()]);
            }
        }
    }
}

/// Each stack header appears in the visible rows at most once, and only
/// for a group that is a stack.
pub proof fn lemma_headers_unique(groups: Seq<Seq<PrSummaryView>>, expanded: Set<u32>)
    requires
        groups.len() <= usize::MAX,
    ensures
        forall|t: int| 0 <= t < layout(groups, expanded).len()
            ==> header_in(groups, #[trigger] layout(groups, expanded)[t], groups.len()),
        forall|t1: int, t2: int|
            0 <= t1 < layout(groups, expanded).len() && 0 <= t2 < layout(groups, expanded).len()
            && (#[trigger] layout(groups, expanded)[t1]) is StackHeader
            && layout(groups, expanded)[t1] == #[trigger] layout(groups, expanded)[t2] ==> t1 == t2,
{
    lemma_headers_unique_upto(groups, expanded, groups.len());
}

/// Toggling a selected stack header twice comes back to where it started:
/// the first toggle finds the header again in the new rows, and the second
/// restores the rows and puts the selection back on the same row index.
pub proof fn lemma_toggle_twice_restores_selection(
    groups: Seq<Seq<PrSummaryView>>,
    expanded: Set<u32>,
    g: usize,
    i: int,
)
    requires
        groups.len() <= usize::MAX,
        0 <= i < layout(groups, expanded).len(),
        layout(groups, expanded)[i] == ListRow::StackHeader(g),
    ensures
        ({
            let b = groups[g as int][0].number;
            let p = |row: ListRow| row == ListRow::StackHeader(g);
            &&& first_where(layout(groups, toggled(expanded, b)), p) is Some
            &&& layout(groups, toggled(toggled(expanded, b), b)) == layout(groups, expanded)
            &&& first_where(layout(groups, toggled(toggled(expanded, b), b)), p) == Some(i as usize)
        }),
{
    let b = groups[g as int][0].number;
    let p = |row: ListRow| row == ListRow::StackHeader(g);
    let rows = layout(groups, expanded);
    lemma_headers_unique(groups, expanded);
    assert(rows[i] == ListRow::StackHeader(g));
    assert(header_in(groups, rows[i], groups.len()));
    let e2 = toggled(expanded, b);
    lemma_every_stack_has_header(groups, e2, g as int);
    let rows2 = layout(groups, e2);
    let w = choose|w: int| 0 <= w < rows2.len() && rows2[w] == ListRow::StackHeader(g);
    lemma_first_exists(rows2, p, w);
    assert(toggled(e2, b) =~= expanded);
    assert forall|u: int| 0 <= u < i implies !p(#[trigger] rows[u]) by {
        if rows[u] == ListRow::StackHeader(g) {
            assert(u == i);
        }
    }
    assert(is_first_where(rows, p, i));
    let c = choose|c: int| is_first_where(rows, p, c);
    if c < i {
        assert(!p(rows[c]));
    }
    if c > i {
        assert(!p(rows[i]));
    }
}

} // verus!
