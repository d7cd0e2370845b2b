use vstd::prelude::*;
use crate::order::{is_desc_order, goes_before, lemma_desc_order_exists};
use crate::pr::PrSummaryView;
use crate::grouping::{
    by_number, children_of, forest, in_rooted_stack, index_groups, number_keys, parent_of,
    root_groups, stray_groups, subtree, lemma_children_sit_on, lemma_subtree_shape,
    lemma_groups_bottom_to_top,
};

verus! {

/// The pull request reached from `x` by following base branches `k` times.
pub open spec fn ancestor(s: Seq<PrSummaryView>, x: usize, k: nat) -> Option<usize>
    decreases k,
{
    if k == 0 {
        Some(x)
    } else {
        match ancestor(s, x, (k - 1) as nat) {
            Some(y) => parent_of(s, y as int),
            None => None,
        }
    }
}

/// Following base branches from `x` reaches `i` within `d` steps.
pub open spec fn reaches(s: Seq<PrSummaryView>, x: usize, i: usize, d: nat) -> bool {
    exists|k: nat| k <= d && #[trigger] ancestor(s, x, k) == Some(i)
}

/// Following base branches from `x` reaches one of `cs` within `d` steps.
pub open spec fn reaches_one_of(s: Seq<PrSummaryView>, x: usize, cs: Seq<usize>, d: nat) -> bool {
    exists|j: int, k: nat| 0 <= j < cs.len() && k <= d && #[trigger] ancestor(s, x, k) == Some(#[trigger] cs[j])
}

proof fn lemma_ancestor_none_stays(s: Seq<PrSummaryView>, x: usize, a: nat, b: nat)
    requires
        a <= b,
        ancestor(s, x, a) is None,
    ensures
        ancestor(s, x, b) is None,
    decreases b,
{
    if a < b {
        lemma_ancestor_none_stays(s, x, a, (b - 1) as nat);
    }
}

proof fn lemma_ancestor_compose(s: Seq<PrSummaryView>, x: usize, y: usize, a: nat, b: nat)
    requires
        ancestor(s, x, a) == Some(y),
    ensures
        ancestor(s, x, a + b) == ancestor(s, y, b),
    decreases b,
{
    if b > 0 {
        lemma_ancestor_compose(s, x, y, a, (b - 1) as nat);
        assert((a + b - 1) as nat == a + (b - 1) as nat);
    }
}

proof fn lemma_ancestor_cycle(s: Seq<PrSummaryView>, x: usize, len: nat, j: nat)
    requires
        ancestor(s, x, len) == Some(x),
    ensures
        ancestor(s, x, j * len) == Some(x),
    decreases j,
{
    if j > 0 {
        lemma_ancestor_cycle(s, x, len, (j - 1) as nat);
        lemma_ancestor_compose(s, x, x, ((j - 1) * len) as nat, len);
        assert((j - 1) * len + len == j * len) by (nonlinear_arith);
    } else {
        assert(0 * len == 0);
    }
}

/// A pull request from which following base branches reaches a pull request
/// that sits on no other never leads back to itself.
proof fn lemma_rooted_no_cycle(s: Seq<PrSummaryView>, x: usize, m: nat, r: usize, len: nat)
    requires
        ancestor(s, x, m) == Some(r),
        parent_of(s, r as int) is None,
        len >= 1,
    ensures
        ancestor(s, x, len) != Some(x),
{
    if ancestor(s, x, len) == Some(x) {
        lemma_ancestor_cycle(s, x, len, m + 1);
        assert(ancestor(s, x, m + 1) is None);
        assert((m + 1) * len >= m + 1) by (nonlinear_arith)
            requires
                len >= 1,
        ;
        lemma_ancestor_none_stays(s, x, m + 1, ((m + 1) * len) as nat);
    }
}

proof fn lemma_child_ancestor(s: Seq<PrSummaryView>, c: usize, p: usize)
    requires
        parent_of(s, c as int) == Some(p),
    ensures
        ancestor(s, c, 1) == Some(p),
{
    assert(ancestor(s, c, 0) == Some(c));
}

proof fn lemma_filter_no_dups(v: Seq<usize>, pred: spec_fn(usize) -> bool)
    requires
        v.no_duplicates(),
    ensures
        v.filter(pred).no_duplicates(),
    decreases v.len(),
{
    reveal(Seq::filter);
    if v.len() > 0 {
        let rest = v.drop_last();
        assert(rest.no_duplicates());
        lemma_filter_no_dups(rest, pred);
        if pred(v.last()) {
            if rest.filter(pred).contains(v.last()) {
                rest.lemma_filter_contains_rev(pred, v.last());
                let w = choose|w: int| 0 <= w < rest.len() && rest[w] == v.last();
                assert(v[w] == v[v.len() - 1]);
            }
        }
    }
}

/// The numbering order lists no pull request twice (when it is a stable
/// descending order of the number keys).
proof fn lemma_children_distinct(s: Seq<PrSummaryView>, p: usize)
    requires
        is_desc_order(number_keys(s), by_number(s)),
    ensures
        children_of(s, p).no_duplicates(),
{
    let b = by_number(s);
    assert forall|i: int, j: int| 0 <= i < b.len() && 0 <= j < b.len() && i != j implies b[i] != b[j] by {
        if i < j {
            assert(goes_before(number_keys(s), b[i] as int, b[j] as int));
        } else {
            assert(goes_before(number_keys(s), b[j] as int, b[i] as int));
        }
    }
    lemma_filter_no_dups(b, |k: usize| parent_of(s, k as int) == Some(p));
}

pub(crate) proof fn lemma_subtree_reach(s: Seq<PrSummaryView>, i: usize, d: nat)
    ensures
        forall|t: int| 0 <= t < subtree(s, i, d).len() ==> reaches(s, #[trigger] subtree(s, i, d)[t], i, d),
    decreases d, 0nat,
{
    let sub = subtree(s, i, d);
    assert(ancestor(s, i, 0) == Some(i));
    if d > 0 {
        let cs = children_of(s, i);
        let f = forest(s, cs, (d - 1) as nat);
        lemma_forest_reach(s, cs, (d - 1) as nat);
        lemma_children_sit_on(s, i);
        assert(sub == seq![i] + f);
        assert forall|t: int| 0 <= t < sub.len() implies reaches(s, #[trigger] sub[t], i, d) by {
            if t == 0 {
                assert(ancestor(s, sub[0], 0) == Some(i));
            } else {
                assert(sub[t] == f[t - 1]);
                let y = f[t - 1];
                assert(reaches_one_of(s, y, cs, (d - 1) as nat));
                let (j, k) = choose|j: int, k: nat| 0 <= j < cs.len() && k <= d - 1 && #[trigger] ancestor(s, y, k) == Some(#[trigger] cs[j]);
                assert(parent_of(s, cs[j] as int) == Some(i));
                assert(ancestor(s, f[t - 1], k + 1) == Some(i));
            }
        }
    } else {
        assert forall|t: int| 0 <= t < sub.len() implies reaches(s, #[trigger] sub[t], i, d) by {
            assert(ancestor(s, sub[t], 0) == Some(i));
        }
    }
}

proof fn lemma_forest_reach(s: Seq<PrSummaryView>, cs: Seq<usize>, d: nat)
    ensures
        forall|t: int| 0 <= t < forest(s, cs, d).len() ==> reaches_one_of(s, #[trigger] forest(s, cs, d)[t], cs, d),
    decreases d, cs.len(),
{
    if cs.len() > 0 {
        let a = subtree(s, cs[0], d);
        let rest = forest(s, cs.drop_first(), d);
        let f = forest(s, cs, d);
        lemma_subtree_reach(s, cs[0], d);
        lemma_forest_reach(s, cs.drop_first(), d);
        assert(f == a + rest);
        assert forall|t: int| 0 <= t < f.len() implies reaches_one_of(s, #[trigger] f[t], cs, d) by {
            if t < a.len() {
                assert(f[t] == a[t]);
                let y = a[t];
                assert(reaches(s, y, cs[0], d));
                let k = choose|k: nat| k <= d && #[trigger] ancestor(s, y, k) == Some(cs[0]);
                assert(ancestor(s, f[t], k) == Some(cs[0]));
            } else {
                assert(f[t] == rest[t - a.len()]);
                let rc = cs.drop_first();
                let y = rest[t - a.len()];
                assert(reaches_one_of(s, y, rc, d));
                let (j, k) = choose|j: int, k: nat| 0 <= j < rc.len() && k <= d && #[trigger] ancestor(s, y, k) == Some(#[trigger] rc[j]);
                assert(rc[j] == cs[j + 1]);
                assert(ancestor(s, f[t], k) == Some(cs[j + 1]));
            }
        }
    }
}

pub(crate) proof fn lemma_subtree_distinct(s: Seq<PrSummaryView>, i: usize, d: nat, m: nat, r: usize)
    requires
        ancestor(s, i, m) == Some(r),
        parent_of(s, r as int) is None,
        is_desc_order(number_keys(s), by_number(s)),
    ensures
        subtree(s, i, d).no_duplicates(),
    decreases d, 0nat,
{
    if d > 0 {
        let cs = children_of(s, i);
        let f = forest(s, cs, (d - 1) as nat);
        lemma_children_distinct(s, i);
        lemma_children_sit_on(s, i);
        lemma_forest_distinct(s, cs, (d - 1) as nat, i, m, r);
        lemma_forest_reach(s, cs, (d - 1) as nat);
        assert forall|t: int| 0 <= t < f.len() implies seq![i][0] != f[t] by {
            if f[t] == i {
                let y = f[t];
                assert(reaches_one_of(s, y, cs, (d - 1) as nat));
                let (j, k) = choose|j: int, k: nat| 0 <= j < cs.len() && k <= d - 1 && #[trigger] ancestor(s, y, k) == Some(#[trigger] cs[j]);
                assert(parent_of(s, cs[j] as int) == Some(i));
                assert(ancestor(s, i, k + 1) == Some(i));
                lemma_rooted_no_cycle(s, i, m, r, k + 1);
            }
        }
        assert(seq![i].no_duplicates());
        vstd::seq_lib::lemma_no_dup_in_concat(seq![i], f);
        assert(subtree(s, i, d) == seq![i] + f);
    } else {
        assert(subtree(s, i, d) == seq![i]);
        assert(seq![i].no_duplicates());
    }
}

proof fn lemma_forest_distinct(s: Seq<PrSummaryView>, cs: Seq<usize>, d: nat, p: usize, m: nat, r: usize)
    requires
        cs.no_duplicates(),
        forall|j: int| 0 <= j < cs.len() ==> parent_of(s, #[trigger] cs[j] as int) == Some(p),
        ancestor(s, p, m) == Some(r),
        parent_of(s, r as int) is None,
        is_desc_order(number_keys(s), by_number(s)),
    ensures
        forest(s, cs, d).no_duplicates(),
    decreases d, cs.len(),
{
    if cs.len() > 0 {
        let c0 = cs[0];
        let a = subtree(s, c0, d);
        let rest_cs = cs.drop_first();
        let rest = forest(s, rest_cs, d);
        lemma_child_ancestor(s, c0, p);
        lemma_ancestor_compose(s, c0, p, 1, m);
        assert(ancestor(s, c0, 1 + m) == Some(r));
        lemma_subtree_distinct(s, c0, d, 1 + m, r);
        assert(rest_cs.no_duplicates());
        assert forall|j: int| 0 <= j < rest_cs.len() implies parent_of(s, #[trigger] rest_cs[j] as int) == Some(p) by {
            assert(rest_cs[j] == cs[j + 1]);
        }
        lemma_forest_distinct(s, rest_cs, d, p, m, r);
        lemma_subtree_reach(s, c0, d);
        lemma_forest_reach(s, rest_cs, d);
        assert forall|t1: int, t2: int| 0 <= t1 < a.len() && 0 <= t2 < rest.len() implies a[t1] != rest[t2] by {
            if a[t1] == rest[t2] {
                let x = a[t1];
                assert(reaches(s, x, c0, d));
                let k1 = choose|k: nat| k <= d && #[trigger] ancestor(s, x, k) == Some(c0);
                let y = rest[t2];
                assert(reaches_one_of(s, y, rest_cs, d));
                let (j, k2) = choose|j: int, k: nat| 0 <= j < rest_cs.len() && k <= d && #[trigger] ancestor(s, y, k) == Some(#[trigger] rest_cs[j]);
                let c2 = rest_cs[j];
                assert(c2 == cs[j + 1]);
                assert(c2 != c0);
                assert(parent_of(s, c2 as int) == Some(p));
                assert(ancestor(s, x, k1 + 1) == Some(p));
                assert(ancestor(s, x, k2 + 1) == Some(p));
                if k1 < k2 {
                    lemma_ancestor_compose(s, x, p, k1 + 1, (k2 - k1) as nat);
                    lemma_rooted_no_cycle(s, p, m, r, (k2 - k1) as nat);
                } else if k2 < k1 {
                    lemma_ancestor_compose(s, x, p, k2 + 1, (k1 - k2) as nat);
                    lemma_rooted_no_cycle(s, p, m, r, (k1 - k2) as nat);
                }
            }
        }
        vstd::seq_lib::lemma_no_dup_in_concat(a, rest);
        assert(forest(s, cs, d) == a + rest);
    }
}


proof fn lemma_children_bounded(s: Seq<PrSummaryView>, p: usize)
    requires
        is_desc_order(number_keys(s), by_number(s)),
    ensures
        forall|k: int| 0 <= k < children_of(s, p).len() ==> #[trigger] children_of(s, p)[k] < s.len(),
{
    let pred = |k: usize| parent_of(s, k as int) == Some(p);
    let b = by_number(s);
    assert forall|k: int| 0 <= k < children_of(s, p).len() implies #[trigger] children_of(s, p)[k] < s.len() by {
        let c = children_of(s, p)[k];
        assert(b.filter(pred).contains(c));
        b.lemma_filter_contains_rev(pred, c);
        let w = choose|w: int| 0 <= w < b.len() && b[w] == c;
        assert(b[w] < number_keys(s).len());
    }
}

proof fn lemma_subtree_bounded(s: Seq<PrSummaryView>, i: usize, d: nat)
    requires
        i < s.len(),
        is_desc_order(number_keys(s), by_number(s)),
    ensures
        forall|t: int| 0 <= t < subtree(s, i, d).len() ==> #[trigger] subtree(s, i, d)[t] < s.len(),
    decreases d, 0nat,
{
    if d > 0 {
        let cs = children_of(s, i);
        lemma_children_bounded(s, i);
        lemma_forest_bounded(s, cs, (d - 1) as nat);
        let f = forest(s, cs, (d - 1) as nat);
        assert(subtree(s, i, d) == seq![i] + f);
        assert forall|t: int| 0 <= t < subtree(s, i, d).len() implies #[trigger] subtree(s, i, d)[t] < s.len() by {
            if t > 0 {
                assert(subtree(s, i, d)[t] == f[t - 1]);
            }
        }
    }
}

proof fn lemma_forest_bounded(s: Seq<PrSummaryView>, cs: Seq<usize>, d: nat)
    requires
        forall|k: int| 0 <= k < cs.len() ==> #[trigger] cs[k] < s.len(),
        is_desc_order(number_keys(s), by_number(s)),
    ensures
        forall|t: int| 0 <= t < forest(s, cs, d).len() ==> #[trigger] forest(s, cs, d)[t] < s.len(),
    decreases d, cs.len(),
{
    if cs.len() > 0 {
        let a = subtree(s, cs[0], d);
        let rest = forest(s, cs.drop_first(), d);
        lemma_subtree_bounded(s, cs[0], d);
        assert forall|k: int| 0 <= k < cs.drop_first().len() implies #[trigger] cs.drop_first()[k] < s.len() by {
            assert(cs.drop_first()[k] == cs[k + 1]);
        }
        lemma_forest_bounded(s, cs.drop_first(), d);
        assert(forest(s, cs, d) == a + rest);
        assert forall|t: int| 0 <= t < forest(s, cs, d).len() implies #[trigger] forest(s, cs, d)[t] < s.len() by {
            if t < a.len() {
                assert(forest(s, cs, d)[t] == a[t]);
            } else {
                assert(forest(s, cs, d)[t] == rest[t - a.len()]);
            }
        }
    }
}

/// The pull requests among the first `m` that sit on no other, in index order.
pub open spec fn root_list(s: Seq<PrSummaryView>, m: nat) -> Seq<usize>
    decreases m,
{
    if m == 0 {
        Seq::empty()
    } else {
        let prev = root_list(s, (m - 1) as nat);
        if parent_of(s, m - 1) is None {
            prev.push((m - 1) as usize)
        } else {
            prev
        }
    }
}

/// The pull requests among the first `m` that no rooted stack reaches, in index order.
pub open spec fn stray_list(s: Seq<PrSummaryView>, m: nat) -> Seq<usize>
    decreases m,
{
    if m == 0 {
        Seq::empty()
    } else {
        let prev = stray_list(s, (m - 1) as nat);
        if !in_rooted_stack(s, (m - 1) as usize) {
            prev.push((m - 1) as usize)
        } else {
            prev
        }
    }
}

proof fn lemma_root_list(s: Seq<PrSummaryView>, m: nat)
    requires
        m <= s.len(),
        s.len() <= usize::MAX,
    ensures
        root_groups(s, m).len() == root_list(s, m).len(),
        forall|k: int| 0 <= k < root_list(s, m).len() ==> #[trigger] root_groups(s, m)[k] == subtree(s, root_list(s, m)[k], s.len()),
        forall|k: int| 0 <= k < root_list(s, m).len() ==> #[trigger] root_list(s, m)[k] < m && parent_of(s, root_list(s, m)[k] as int) is None,
        forall|k1: int, k2: int| 0 <= k1 < k2 < root_list(s, m).len() ==> #[trigger] root_list(s, m)[k1] < #[trigger] root_list(s, m)[k2],
        forall|r: int| 0 <= r < m && parent_of(s, r) is None ==> exists|k: int| 0 <= k < root_list(s, m).len() && #[trigger] root_list(s, m)[k] == r as usize,
    decreases m,
{
    if m > 0 {
        lemma_root_list(s, (m - 1) as nat);
        let pl = root_list(s, (m - 1) as nat);
        let pg = root_groups(s, (m - 1) as nat);
        let l = root_list(s, m);
        let g = root_groups(s, m);
        assert forall|k: int| 0 <= k < l.len() implies #[trigger] g[k] == subtree(s, l[k], s.len()) by {
            if k < pl.len() {
                assert(g[k] == pg[k] && l[k] == pl[k]);
            }
        }
        assert forall|k: int| 0 <= k < l.len() implies #[trigger] l[k] < m && parent_of(s, l[k] as int) is None by {
            if k < pl.len() {
                assert(l[k] == pl[k]);
            }
        }
        assert forall|k1: int, k2: int| 0 <= k1 < k2 < l.len() implies #[trigger] l[k1] < #[trigger] l[k2] by {
            if k2 < pl.len() {
                assert(l[k1] == pl[k1] && l[k2] == pl[k2]);
            } else {
                assert(l[k1] == pl[k1]);
            }
        }
        assert forall|r: int| 0 <= r < m && parent_of(s, r) is None implies exists|k: int| 0 <= k < l.len() && #[trigger] l[k] == r as usize by {
            if r < m - 1 {
                let k = choose|k: int| 0 <= k < pl.len() && #[trigger] pl[k] == r as usize;
                assert(l[k] == pl[k]);
            } else {
                assert(l[pl.len() as int] == r as usize);
            }
        }
    }
}

proof fn lemma_stray_list(s: Seq<PrSummaryView>, m: nat)
    requires
        m <= s.len(),
        s.len() <= usize::MAX,
    ensures
        stray_groups(s, m).len() == stray_list(s, m).len(),
        forall|k: int| 0 <= k < stray_list(s, m).len() ==> #[trigger] stray_groups(s, m)[k] == seq![stray_list(s, m)[k]],
        forall|k: int| 0 <= k < stray_list(s, m).len() ==> #[trigger] stray_list(s, m)[k] < m && !in_rooted_stack(s, stray_list(s, m)[k]),
        forall|k1: int, k2: int| 0 <= k1 < k2 < stray_list(s, m).len() ==> #[trigger] stray_list(s, m)[k1] < #[trigger] stray_list(s, m)[k2],
        forall|i: usize| i < m && !in_rooted_stack(s, i) ==> exists|k: int| 0 <= k < stray_list(s, m).len() && #[trigger] stray_list(s, m)[k] == i,
    decreases m,
{
    if m > 0 {
        lemma_stray_list(s, (m - 1) as nat);
        let pl = stray_list(s, (m - 1) as nat);
        let pg = stray_groups(s, (m - 1) as nat);
        let l = stray_list(s, m);
        let g = stray_groups(s, m);
        assert forall|k: int| 0 <= k < l.len() implies #[trigger] g[k] == seq![l[k]] by {
            if k < pl.len() {
                assert(g[k] == pg[k] && l[k] == pl[k]);
            }
        }
        assert forall|k: int| 0 <= k < l.len() implies #[trigger] l[k] < m && !in_rooted_stack(s, l[k]) by {
            if k < pl.len() {
                assert(l[k] == pl[k]);
            }
        }
        assert forall|k1: int, k2: int| 0 <= k1 < k2 < l.len() implies #[trigger] l[k1] < #[trigger] l[k2] by {
            if k2 < pl.len() {
                assert(l[k1] == pl[k1] && l[k2] == pl[k2]);
            } else {
                assert(l[k1] == pl[k1]);
            }
        }
        assert forall|i: usize| i < m && !in_rooted_stack(s, i) implies exists|k: int| 0 <= k < l.len() && #[trigger] l[k] == i by {
            if i < m - 1 {
                let k = choose|k: int| 0 <= k < pl.len() && #[trigger] pl[k] == i;
                assert(l[k] == pl[k]);
            } else {
                assert(l[pl.len() as int] == i);
            }
        }
    }
}

/// `i` appears somewhere in `gs`.
pub open spec fn appears(gs: Seq<Seq<usize>>, i: usize) -> bool {
    exists|k: int, t: int| 0 <= k < gs.len() && 0 <= t < gs[k].len() && #[trigger] gs[k][t] == i
}

/// Every index below `n` appears exactly once across `gs`, and nothing else does.
pub open spec fn partitions(gs: Seq<Seq<usize>>, n: nat) -> bool {
    &&& forall|k: int, t: int| 0 <= k < gs.len() && 0 <= t < gs[k].len() ==> #[trigger] gs[k][t] < n
    &&& forall|i: usize| i < n ==> #[trigger] appears(gs, i)
    &&& forall|k1: int, t1: int, k2: int, t2: int|
        0 <= k1 < gs.len() && 0 <= t1 < gs[k1].len() && 0 <= k2 < gs.len() && 0 <= t2 < gs[k2].len()
            && #[trigger] gs[k1][t1] == #[trigger] gs[k2][t2] ==> k1 == k2 && t1 == t2
}

pub(crate) proof fn lemma_roots_disjoint(s: Seq<PrSummaryView>, x: usize, r1: usize, r2: usize)
    requires
        parent_of(s, r1 as int) is None,
        parent_of(s, r2 as int) is None,
        reaches(s, x, r1, s.len()),
        reaches(s, x, r2, s.len()),
    ensures
        r1 == r2,
{
    let a1 = choose|k: nat| k <= s.len() && #[trigger] ancestor(s, x, k) == Some(r1);
    let a2 = choose|k: nat| k <= s.len() && #[trigger] ancestor(s, x, k) == Some(r2);
    if a1 < a2 {
        assert(ancestor(s, x, a1 + 1) is None);
        lemma_ancestor_none_stays(s, x, a1 + 1, a2);
    } else if a2 < a1 {
        assert(ancestor(s, x, a2 + 1) is None);
        lemma_ancestor_none_stays(s, x, a2 + 1, a1);
    }
}

/// Grouping puts every pull request in exactly one group, once.
pub proof fn lemma_groups_partition(s: Seq<PrSummaryView>)
    requires
        s.len() <= usize::MAX,
    ensures
        partitions(index_groups(s), s.len()),
{
    lemma_desc_order_exists(number_keys(s));
    let n = s.len();
    let gs = index_groups(s);
    let rg = root_groups(s, n);
    let sg = stray_groups(s, n);
    let rl = root_list(s, n);
    let sl = stray_list(s, n);
    lemma_root_list(s, n);
    lemma_stray_list(s, n);
    let lr = rg.len();
    assert(gs == rg + sg);
    assert forall|k: int| 0 <= k < rl.len() implies subtree(s, #[trigger] rl[k], n).no_duplicates()
        && forall|t: int| 0 <= t < subtree(s, rl[k], n).len() ==> #[trigger] subtree(s, rl[k], n)[t] < n by {
        assert(ancestor(s, rl[k], 0) == Some(rl[k]));
        lemma_subtree_distinct(s, rl[k], n, 0, rl[k]);
        lemma_subtree_bounded(s, rl[k], n);
    }
    assert forall|k: int, t: int| 0 <= k < gs.len() && 0 <= t < gs[k].len() implies #[trigger] gs[k][t] < n by {
        if k < lr {
            assert(gs[k] == rg[k]);
            assert(rg[k] == subtree(s, rl[k], n));
            assert(subtree(s, rl[k], n)[t] < n);
        } else {
            assert(gs[k] == sg[k - lr]);
            assert(sg[k - lr] == seq![sl[k - lr]]);
        }
    }
    assert forall|i: usize| i < n implies #[trigger] appears(gs, i) by {
        if in_rooted_stack(s, i) {
            let r = choose|r: int| 0 <= r < s.len() && parent_of(s, r) is None && #[trigger] subtree(s, r as usize, s.len()).contains(i);
            let k = choose|k: int| 0 <= k < rl.len() && #[trigger] rl[k] == r as usize;
            let sub = subtree(s, r as usize, n);
            let t = choose|t: int| 0 <= t < sub.len() && sub[t] == i;
            assert(gs[k] == rg[k]);
            assert(gs[k][t] == i);
        } else {
            let k = choose|k: int| 0 <= k < sl.len() && #[trigger] sl[k] == i;
            assert(gs[lr + k] == sg[k]);
            assert(gs[lr + k][0] == i);
        }
    }
    assert forall|k1: int, t1: int, k2: int, t2: int|
        0 <= k1 < gs.len() && 0 <= t1 < gs[k1].len() && 0 <= k2 < gs.len() && 0 <= t2 < gs[k2].len()
            && #[trigger] gs[k1][t1] == #[trigger] gs[k2][t2] implies k1 == k2 && t1 == t2 by {
        let x = gs[k1][t1];
        if k1 < lr && k2 < lr {
            assert(gs[k1] == rg[k1] && gs[k2] == rg[k2]);
            let s1 = subtree(s, rl[k1], n);
            let s2 = subtree(s, rl[k2], n);
            lemma_subtree_reach(s, rl[k1], n);
            lemma_subtree_reach(s, rl[k2], n);
            assert(reaches(s, s1[t1], rl[k1], n));
            assert(reaches(s, s2[t2], rl[k2], n));
            lemma_roots_disjoint(s, x, rl[k1], rl[k2]);
            if k1 != k2 {
                if k1 < k2 {
                    assert(rl[k1] < rl[k2]);
                } else {
                    assert(rl[k2] < rl[k1]);
                }
            }
            assert(s1.no_duplicates());
        } else if k1 < lr {
            assert(gs[k1] == rg[k1]);
            assert(gs[k2] == sg[k2 - lr]);
            assert(sg[k2 - lr] == seq![sl[k2 - lr]]);
            let r = rl[k1];
            assert(subtree(s, (r as int) as usize, n).contains(x));
            assert(in_rooted_stack(s, x));
        } else if k2 < lr {
            assert(gs[k2] == rg[k2]);
            assert(gs[k1] == sg[k1 - lr]);
            assert(sg[k1 - lr] == seq![sl[k1 - lr]]);
            let r = rl[k2];
            assert(subtree(s, (r as int) as usize, n).contains(x));
            assert(in_rooted_stack(s, x));
        } else {
            assert(gs[k1] == sg[k1 - lr]);
            assert(gs[k2] == sg[k2 - lr]);
            assert(sg[k1 - lr] == seq![sl[k1 - lr]]);
            assert(sg[k2 - lr] == seq![sl[k2 - lr]]);
            if k1 < k2 {
                assert(sl[k1 - lr] < sl[k2 - lr]);
            } else if k2 < k1 {
                assert(sl[k2 - lr] < sl[k1 - lr]);
            }
        }
    }
}


/// In `gs`, `i` comes after `p` in the same group.
pub open spec fn sits_after(gs: Seq<Seq<usize>>, i: usize, p: usize) -> bool {
    exists|k: int, t: int, u: int|
        0 <= k < gs.len() && 0 <= u < t < gs[k].len() && #[trigger] gs[k][t] == i && #[trigger] gs[k][u] == p
}

/// A pull request whose base branch is another open pull request's head
/// branch is stacked on top of it: it comes after that pull request in the
/// same group. The exception is a pull request caught in a base-branch cycle,
/// which stands alone.
pub proof fn lemma_stacked_on_base(s: Seq<PrSummaryView>, i: usize, p: usize)
    requires
        s.len() <= usize::MAX,
        i < s.len(),
        parent_of(s, i as int) == Some(p),
    ensures
        in_rooted_stack(s, i) ==> sits_after(index_groups(s), i, p),
        !in_rooted_stack(s, i) ==> exists|k: int| 0 <= k < index_groups(s).len() && #[trigger] index_groups(s)[k] == seq![i],
{
    let n = s.len();
    let gs = index_groups(s);
    let rg = root_groups(s, n);
    let rl = root_list(s, n);
    let sl = stray_list(s, n);
    lemma_root_list(s, n);
    lemma_stray_list(s, n);
    lemma_groups_bottom_to_top(s);
    assert(gs == rg + stray_groups(s, n));
    if in_rooted_stack(s, i) {
        let r = choose|r: int| 0 <= r < s.len() && parent_of(s, r) is None && #[trigger] subtree(s, r as usize, s.len()).contains(i);
        let k = choose|k: int| 0 <= k < rl.len() && #[trigger] rl[k] == r as usize;
        let sub = subtree(s, r as usize, n);
        let t = choose|t: int| 0 <= t < sub.len() && sub[t] == i;
        lemma_subtree_shape(s, r as usize, n);
        assert(gs[k] == rg[k]);
        assert(gs[k] == sub);
        assert(t != 0);
        let g = gs[k];
        assert(exists|u: int| 0 <= u < t && parent_of(s, #[trigger] g[t] as int) == Some(g[u]));
        let u = choose|u: int| 0 <= u < t && parent_of(s, #[trigger] g[t] as int) == Some(g[u]);
        assert(gs[k][t] == i && gs[k][u] == p);
    } else {
        let k = choose|k: int| 0 <= k < sl.len() && #[trigger] sl[k] == i;
        assert(gs[rg.len() + k] == stray_groups(s, n)[k]);
    }
}

} // verus!
