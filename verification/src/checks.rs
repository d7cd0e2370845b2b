use vstd::prelude::*;
use crate::text::{str_eq, opt_str_view};

verus! {

/// Outcome of a single CI check, or of a set of them.
#[derive(Debug, Clone, Copy, PartialEq, Eq, Structural)]
pub enum CheckState {
    Pass,
    Fail,
    Pending,
    Neutral,
}

/// A check entry as reported for a pull request: either a check run
/// (`name`, `status`, `conclusion`) or a commit status (`context`, `state`).
#[derive(Debug, Clone)]
pub struct RawCheck {
    pub name: Option<String>,
    pub context: Option<String>,
    pub status: Option<String>,
    pub conclusion: Option<String>,
    pub state: Option<String>,
}

pub ghost struct RawCheckView {
    pub name: Option<Seq<char>>,
    pub context: Option<Seq<char>>,
    pub status: Option<Seq<char>>,
    pub conclusion: Option<Seq<char>>,
    pub state: Option<Seq<char>>,
}

impl View for RawCheck {
    type V = RawCheckView;

    open spec fn view(&self) -> RawCheckView {
        RawCheckView {
            name: opt_str_view(self.name),
            context: opt_str_view(self.context),
            status: opt_str_view(self.status),
            conclusion: opt_str_view(self.conclusion),
            state: opt_str_view(self.state),
        }
    }
}

/// What a commit-status `state` means.
pub open spec fn status_state_meaning(st: Seq<char>) -> CheckState {
    if st == "SUCCESS"@ {
        CheckState::Pass
    } else if st == "FAILURE"@ || st == "ERROR"@ {
        CheckState::Fail
    } else if st == "PENDING"@ || st == "EXPECTED"@ {
        CheckState::Pending
    } else {
        CheckState::Neutral
    }
}

/// What a finished check run's `conclusion` means (absent counts as empty).
pub open spec fn conclusion_meaning(c: Seq<char>) -> CheckState {
    if c == "SUCCESS"@ {
        CheckState::Pass
    } else if c == "FAILURE"@ || c == "TIMED_OUT"@ || c == "ACTION_REQUIRED"@
        || c == "STARTUP_FAILURE"@ || c == "CANCELLED"@ {
        CheckState::Fail
    } else if c == "SKIPPED"@ || c == "NEUTRAL"@ || c == "STALE"@ {
        CheckState::Neutral
    } else if c.len() == 0 {
        CheckState::Pending
    } else {
        CheckState::Neutral
    }
}

pub open spec fn or_empty(o: Option<Seq<char>>) -> Seq<char> {
    match o {
        Some(s) => s,
        None => Seq::empty(),
    }
}

/// The state a check entry stands for: a commit-status `state` wins; a
/// check run that is not completed is pending; otherwise its conclusion decides.
pub open spec fn classify_spec(c: RawCheckView) -> CheckState {
    match c.state {
        Some(st) => status_state_meaning(st),
        None => {
            let status = or_empty(c.status);
            if status != "COMPLETED"@ && status.len() != 0 {
                CheckState::Pending
            } else {
                conclusion_meaning(or_empty(c.conclusion))
            }
        }
    }
}

/// The label shown for a check entry.
pub open spec fn label_spec(c: RawCheckView) -> Seq<char> {
    match c.name {
        Some(n) => n,
        None => match c.context {
            Some(x) => x,
            None => "check"@,
        },
    }
}

impl RawCheck {
    pub fn label(&self) -> (r: &str)
        ensures
            r@ == label_spec(self@),
    {
        match &self.name {
            Some(n) => n.as_str(),
            None => match &self.context {
                Some(c) => c.as_str(),
                None => "check",
            },
        }
    }

    pub fn classify(&self) -> (r: CheckState)
        ensures
            r == classify_spec(self@),
    {
        if let Some(st) = &self.state {
            let state = st.as_str();
            return if str_eq(state, "SUCCESS") {
                CheckState::Pass
            } else if str_eq(state, "FAILURE") || str_eq(state, "ERROR") {
                CheckState::Fail
            } else if str_eq(state, "PENDING") || str_eq(state, "EXPECTED") {
                CheckState::Pending
            } else {
                CheckState::Neutral
            };
        }
        proof {
            reveal_strlit("");
        }
        let status: &str = match &self.status {
            Some(s) => s.as_str(),
            None => "",
        };
        if !str_eq(status, "COMPLETED") && !status.is_empty() {
            return CheckState::Pending;
        }
        let conclusion: &str = match &self.conclusion {
            Some(s) => s.as_str(),
            None => "",
        };
        assert(self@.state is None);
        assert(conclusion@ == or_empty(self@.conclusion));
        assert(!(or_empty(self@.status) != "COMPLETED"@ && or_empty(self@.status).len() != 0));
        if str_eq(conclusion, "SUCCESS") {
            CheckState::Pass
        } else if str_eq(conclusion, "FAILURE") || str_eq(conclusion, "TIMED_OUT")
            || str_eq(conclusion, "ACTION_REQUIRED") || str_eq(conclusion, "STARTUP_FAILURE")
            || str_eq(conclusion, "CANCELLED") {
            CheckState::Fail
        } else if str_eq(conclusion, "SKIPPED") || str_eq(conclusion, "NEUTRAL")
            || str_eq(conclusion, "STALE") {
            CheckState::Neutral
        } else if conclusion.is_empty() {
            CheckState::Pending
        } else {
            CheckState::Neutral
        }
    }
}


/// A check entry reduced to what the detail view shows.
#[derive(Debug, Clone)]
pub struct CheckRun {
    pub name: String,
    pub state: CheckState,
}

pub ghost struct CheckRunView {
    pub name: Seq<char>,
    pub state: CheckState,
}

impl View for CheckRun {
    type V = CheckRunView;

    open spec fn view(&self) -> CheckRunView {
        CheckRunView { name: self.name@, state: self.state }
    }
}

impl CheckRun {
    /// The check run an entry stands for: its label and its state.
    pub fn from(raw: &RawCheck) -> (r: CheckRun)
        ensures
            r@ == (CheckRunView { name: label_spec(raw@), state: classify_spec(raw@) }),
    {
        CheckRun { name: raw.label().to_owned(), state: raw.classify() }
    }
}

/// Tally of check states, with the overall verdict.
#[derive(Debug, Clone, Copy)]
pub struct CheckRollup {
    pub passing: u16,
    pub failing: u16,
    pub pending: u16,
    pub skipped: u16,
    pub overall: Option<CheckState>,
}

impl Default for CheckRollup {
    fn default() -> (r: CheckRollup)
        ensures
            r == (CheckRollup { passing: 0, failing: 0, pending: 0, skipped: 0, overall: None }),
    {
        CheckRollup { passing: 0, failing: 0, pending: 0, skipped: 0, overall: None }
    }
}

/// The overall verdict of a tally: nothing when there was nothing to tally,
/// else a failure beats a pending check, which beats a pass.
pub open spec fn overall_verdict(any: bool, failing: int, pending: int, passing: int) -> Option<CheckState> {
    if !any {
        None
    } else if failing > 0 {
        Some(CheckState::Fail)
    } else if pending > 0 {
        Some(CheckState::Pending)
    } else if passing > 0 {
        Some(CheckState::Pass)
    } else {
        Some(CheckState::Neutral)
    }
}

pub open spec fn checks_view(s: Seq<RawCheck>) -> Seq<RawCheckView> {
    s.map_values(|c: RawCheck| c@)
}

/// How many entries of `s` stand for the state `st`.
pub open spec fn count_state(s: Seq<RawCheckView>, st: CheckState) -> nat
    decreases s.len(),
{
    if s.len() == 0 {
        0
    } else {
        count_state(s.drop_last(), st) + (if classify_spec(s.last()) == st { 1nat } else { 0nat })
    }
}

/// Every per-state tally of `s` fits the rollup's counters.
pub open spec fn tallies_fit(s: Seq<RawCheckView>) -> bool {
    &&& count_state(s, CheckState::Pass) <= u16::MAX
    &&& count_state(s, CheckState::Fail) <= u16::MAX
    &&& count_state(s, CheckState::Pending) <= u16::MAX
    &&& count_state(s, CheckState::Neutral) <= u16::MAX
}

/// The rollup of a list of check entries.
pub open spec fn rollup_spec(s: Seq<RawCheckView>) -> CheckRollup {
    CheckRollup {
        passing: count_state(s, CheckState::Pass) as u16,
        failing: count_state(s, CheckState::Fail) as u16,
        pending: count_state(s, CheckState::Pending) as u16,
        skipped: count_state(s, CheckState::Neutral) as u16,
        overall: overall_verdict(
            s.len() > 0,
            count_state(s, CheckState::Fail) as int,
            count_state(s, CheckState::Pending) as int,
            count_state(s, CheckState::Pass) as int,
        ),
    }
}

/// A tally never exceeds the tally of a longer list it is a prefix of.
pub proof fn lemma_count_prefix(s: Seq<RawCheckView>, i: int, st: CheckState)
    requires
        0 <= i <= s.len(),
    ensures
        count_state(s.take(i), st) <= count_state(s, st),
    decreases s.len() - i,
{
    if i < s.len() {
        lemma_count_prefix(s, i + 1, st);
        assert(s.take(i + 1).drop_last() =~= s.take(i));
    } else {
        assert(s.take(i) =~= s);
    }
}

/// The four tallies together count every entry once.
pub proof fn lemma_counts_partition(s: Seq<RawCheckView>)
    ensures
        count_state(s, CheckState::Pass) + count_state(s, CheckState::Fail)
            + count_state(s, CheckState::Pending) + count_state(s, CheckState::Neutral) == s.len(),
    decreases s.len(),
{
    if s.len() > 0 {
        lemma_counts_partition(s.drop_last());
    }
}

impl CheckRollup {
    /// Tallies the entries by the state each stands for.
    pub fn from_raw(entries: &[RawCheck]) -> (r: CheckRollup)
        requires
            tallies_fit(checks_view(entries@)),
        ensures
            r == rollup_spec(checks_view(entries@)),
    {
        let ghost s = checks_view(entries@);
        let mut rollup = CheckRollup::default();
        let mut i: usize = 0;
        while i < entries.len()
            invariant
                0 <= i <= entries.len(),
                s == checks_view(entries@),
                tallies_fit(s),
                rollup.passing == count_state(s.take(i as int), CheckState::Pass),
                rollup.failing == count_state(s.take(i as int), CheckState::Fail),
                rollup.pending == count_state(s.take(i as int), CheckState::Pending),
                rollup.skipped == count_state(s.take(i as int), CheckState::Neutral),
                rollup.overall is None,
            decreases entries.len() - i,
        {
            let st = entries[i].classify();
            proof {
                assert(s.take(i + 1).drop_last() =~= s.take(i as int));
                assert(s.take(i + 1).last() == s[i as int]);
                lemma_count_prefix(s, i + 1, CheckState::Pass);
                lemma_count_prefix(s, i + 1, CheckState::Fail);
                lemma_count_prefix(s, i + 1, CheckState::Pending);
                lemma_count_prefix(s, i + 1, CheckState::Neutral);
            }
            match st {
                CheckState::Pass => rollup.passing = rollup.passing + 1,
                CheckState::Fail => rollup.failing = rollup.failing + 1,
                CheckState::Pending => rollup.pending = rollup.pending + 1,
                CheckState::Neutral => rollup.skipped = rollup.skipped + 1,
            }
            i = i + 1;
        }
        proof {
            assert(s.take(i as int) =~= s);
        }
        rollup.overall = if entries.len() == 0 {
            None
        } else if rollup.failing > 0 {
            Some(CheckState::Fail)
        } else if rollup.pending > 0 {
            Some(CheckState::Pending)
        } else if rollup.passing > 0 {
            Some(CheckState::Pass)
        } else {
            Some(CheckState::Neutral)
        };
        rollup
    }
}


/// Whether every per-state tally of `entries` fits the rollup's counters,
/// which `CheckRollup::from_raw` needs.
pub fn counts_fit(entries: &[RawCheck]) -> (r: bool)
    ensures
        r == tallies_fit(checks_view(entries@)),
{
    let ghost s = checks_view(entries@);
    let mut pass: usize = 0;
    let mut fail: usize = 0;
    let mut pend: usize = 0;
    let mut neutral: usize = 0;
    let mut i: usize = 0;
    while i < entries.len()
        invariant
            0 <= i <= entries.len(),
            s == checks_view(entries@),
            pass == count_state(s.take(i as int), CheckState::Pass),
            fail == count_state(s.take(i as int), CheckState::Fail),
            pend == count_state(s.take(i as int), CheckState::Pending),
            neutral == count_state(s.take(i as int), CheckState::Neutral),
        decreases entries.len() - i,
    {
        proof {
            assert(s.take(i + 1).drop_last() =~= s.take(i as int));
            assert(s.take(i + 1).last() == s[i as int]);
            lemma_counts_partition(s.take(i as int));
        }
        match entries[i].classify() {
            CheckState::Pass => pass = pass + 1,
            CheckState::Fail => fail = fail + 1,
            CheckState::Pending => pend = pend + 1,
            CheckState::Neutral => neutral = neutral + 1,
        }
        i = i + 1;
    }
    proof {
        assert(s.take(i as int) =~= s);
    }
    pass <= 0xffff && fail <= 0xffff && pend <= 0xffff && neutral <= 0xffff
}

} // verus!
