use vstd::prelude::*;
use crate::order::{desc_order, is_desc_order, stable_order_desc, goes_before};
use crate::pr::{PrSummary, PrSummaryView, recency, recency_key, lemma_recency_orders, summaries_view, opt_earlier};
use crate::stack::{PrStack, newest, is_earlier};
use crate::partition::{lemma_groups_partition, lemma_roots_disjoint, lemma_subtree_distinct, lemma_subtree_reach, ancestor, partitions, reaches};

verus! {

/// `j` is the first pull request whose head branch is `branch`.
pub open spec fn is_first_head(s: Seq<PrSummaryView>, branch: Seq<char>, j: int) -> bool {
    &&& 0 <= j < s.len()
    &&& s[j].head_ref == branch
    &&& forall|k: int| 0 <= k < j ==> #[trigger] s[k].head_ref != branch
}

/// The pull request that `i` is stacked on: the first open pull request
/// whose head branch is `i`'s base branch, unless that is `i` itself.
pub open spec fn parent_of(s: Seq<PrSummaryView>, i: int) -> Option<usize> {
    if s[i].base_ref.len() == 0 {
        None
    } else if exists|j: int| is_first_head(s, s[i].base_ref, j) {
        let j = choose|j: int| is_first_head(s, s[i].base_ref, j);
        if j != i {
            Some(j as usize)
        } else {
            None
        }
    } else {
        None
    }
}

/// Sort keys that put the lowest pull-request number first.
pub open spec fn number_keys(s: Seq<PrSummaryView>) -> Seq<u128> {
    s.map_values(|p: PrSummaryView| (0xffff_ffffu32 - p.number) as u128)
}

/// Every pull request, in increasing number order (index order among equal numbers).
pub open spec fn by_number(s: Seq<PrSummaryView>) -> Seq<usize> {
    desc_order(number_keys(s))
}

/// The pull requests stacked directly on `p`, in number order.
pub open spec fn children_of(s: Seq<PrSummaryView>, p: usize) -> Seq<usize> {
    by_number(s).filter(|k: usize| parent_of(s, k as int) == Some(p))
}

/// The stack that grows from `i`, bottom to top: `i`, then the stack of each
/// pull request stacked on it, in number order. `depth` bounds how many
/// levels are followed.
pub open spec fn subtree(s: Seq<PrSummaryView>, i: usize, depth: nat) -> Seq<usize>
    decreases depth, 0nat,
{
    if depth == 0 {
        seq![i]
    } else {
        seq![i] + forest(s, children_of(s, i), (depth - 1) as nat)
    }
}

/// The stacks that grow from each of `cs`, one after the other.
pub open spec fn forest(s: Seq<PrSummaryView>, cs: Seq<usize>, depth: nat) -> Seq<usize>
    decreases depth, cs.len(),
{
    if cs.len() == 0 {
        Seq::empty()
    } else {
        subtree(s, cs[0], depth) + forest(s, cs.drop_first(), depth)
    }
}

/// The stacks rooted at the pull requests among the first `m` that sit on
/// no other open pull request, in index order.
pub open spec fn root_groups(s: Seq<PrSummaryView>, m: nat) -> Seq<Seq<usize>>
    decreases m,
{
    if m == 0 {
        Seq::empty()
    } else {
        let prev = root_groups(s, (m - 1) as nat);
        if parent_of(s, m - 1) is None {
            prev.push(subtree(s, (m - 1) as usize, s.len()))
        } else {
            prev
        }
    }
}

/// `i` belongs to the stack of some pull request that sits on no other.
pub open spec fn in_rooted_stack(s: Seq<PrSummaryView>, i: usize) -> bool {
    exists|r: int| 0 <= r < s.len() && parent_of(s, r) is None && #[trigger] subtree(s, r as usize, s.len()).contains(i)
}

/// Pull requests among the first `m` that no rooted stack reaches (their
/// base branches form a cycle), each on its own, in index order.
pub open spec fn stray_groups(s: Seq<PrSummaryView>, m: nat) -> Seq<Seq<usize>>
    decreases m,
{
    if m == 0 {
        Seq::empty()
    } else {
        let prev = stray_groups(s, (m - 1) as nat);
        if !in_rooted_stack(s, (m - 1) as usize) {
            prev.push(seq![(m - 1) as usize])
        } else {
            prev
        }
    }
}

/// The groups of pull-request indices, before ordering by recency.
pub open spec fn index_groups(s: Seq<PrSummaryView>) -> Seq<Seq<usize>> {
    root_groups(s, s.len()) + stray_groups(s, s.len())
}

pub open spec fn members(s: Seq<PrSummaryView>, g: Seq<usize>) -> Seq<PrSummaryView> {
    g.map_values(|i: usize| s[i as int])
}

/// Sort keys that put the group with the most recent update first.
pub open spec fn group_keys(s: Seq<PrSummaryView>) -> Seq<u128> {
    index_groups(s).map_values(|g: Seq<usize>| recency(newest(members(s, g))) as u128)
}

/// The stacks `group_stacks` returns, as sequences of pull requests.
pub open spec fn stacks_spec(s: Seq<PrSummaryView>) -> Seq<Seq<PrSummaryView>> {
    desc_order(group_keys(s)).map_values(|k: usize| members(s, index_groups(s)[k as int]))
}

pub proof fn lemma_first_head_unique(s: Seq<PrSummaryView>, branch: Seq<char>, a: int, b: int)
    requires
        is_first_head(s, branch, a),
        is_first_head(s, branch, b),
    ensures
        a == b,
{
    if a < b {
        assert(s[a].head_ref != branch);
    }
    if b < a {
        assert(s[b].head_ref != branch);
    }
}

fn first_with_head(prs: &Vec<PrSummary>, branch: &String) -> (r: Option<usize>)
    ensures
        match r {
            Some(j) => is_first_head(summaries_view(prs@), branch@, j as int),
            None => forall|j: int| 0 <= j < prs@.len() ==> #[trigger] summaries_view(prs@)[j].head_ref != branch@,
        },
{
    let ghost s = summaries_view(prs@);
    let mut j: usize = 0;
    while j < prs.len()
        invariant
            0 <= j <= prs.len(),
            s == summaries_view(prs@),
            forall|k: int| 0 <= k < j ==> #[trigger] s[k].head_ref != branch@,
        decreases prs.len() - j,
    {
        if prs[j].head_ref == *branch {
            return Some(j);
        }
        j = j + 1;
    }
    None
}

fn parents_of(prs: &Vec<PrSummary>) -> (r: Vec<Option<usize>>)
    ensures
        r.len() == prs.len(),
        forall|i: int| 0 <= i < prs.len() ==> #[trigger] r@[i] == parent_of(summaries_view(prs@), i),
{
    let ghost s = summaries_view(prs@);
    let mut parents: Vec<Option<usize>> = Vec::new();
    let mut i: usize = 0;
    while i < prs.len()
        invariant
            0 <= i <= prs.len(),
            s == summaries_view(prs@),
            parents.len() == i,
            forall|t: int| 0 <= t < i ==> #[trigger] parents@[t] == parent_of(s, t),
        decreases prs.len() - i,
    {
        let base = &prs[i].base_ref;
        let p: Option<usize> = if base.as_str().is_empty() {
            None
        } else {
            match first_with_head(prs, base) {
                Some(j) => {
                    proof {
                        let c = choose|c: int| is_first_head(s, s[i as int].base_ref, c);
                        lemma_first_head_unique(s, s[i as int].base_ref, c, j as int);
                    }
                    if j != i {
                        Some(j)
                    } else {
                        None
                    }
                },
                None => {
                    proof {
                        if exists|c: int| is_first_head(s, s[i as int].base_ref, c) {
                            let c = choose|c: int| is_first_head(s, s[i as int].base_ref, c);
                            assert(s[c].head_ref == s[i as int].base_ref);
                        }
                    }
                    None
                },
            }
        };
        parents.push(p);
        i = i + 1;
    }
    parents
}

proof fn lemma_filter_take_step(v: Seq<usize>, t: int, pred: spec_fn(usize) -> bool)
    requires
        0 <= t < v.len(),
    ensures
        v.take(t + 1).filter(pred) == (if pred(v[t]) {
            v.take(t).filter(pred).push(v[t])
        } else {
            v.take(t).filter(pred)
        }),
{
    reveal(Seq::filter);
    assert(v.take(t + 1).drop_last() =~= v.take(t));
}

fn children_lists(prs: &Vec<PrSummary>, parents: &Vec<Option<usize>>) -> (r: Vec<Vec<usize>>)
    requires
        parents.len() == prs.len(),
        forall|i: int| 0 <= i < prs.len() ==> #[trigger] parents@[i] == parent_of(summaries_view(prs@), i),
    ensures
        r.len() == prs.len(),
        forall|p: int| 0 <= p < prs.len() ==> (#[trigger] r@[p])@ == children_of(summaries_view(prs@), p as usize),
        forall|p: int, u: int| 0 <= p < prs.len() && 0 <= u < r@[p].len() ==>
            #[trigger] r@[p]@[u] < prs.len() && parent_of(summaries_view(prs@), r@[p]@[u] as int) == Some(p as usize),
        is_desc_order(number_keys(summaries_view(prs@)), by_number(summaries_view(prs@))),
{
    let ghost s = summaries_view(prs@);
    let mut keys: Vec<u128> = Vec::new();
    let mut i: usize = 0;
    while i < prs.len()
        invariant
            0 <= i <= prs.len(),
            s == summaries_view(prs@),
            keys@ == number_keys(s).take(i as int),
        decreases prs.len() - i,
    {
        keys.push((0xffff_ffffu32 - prs[i].number) as u128);
        proof {
            assert(keys@ =~= number_keys(s).take(i + 1));
        }
        i = i + 1;
    }
    proof {
        assert(keys@ =~= number_keys(s));
    }
    let order = stable_order_desc(&keys);
    let mut children: Vec<Vec<usize>> = Vec::new();
    let mut p: usize = 0;
    while p < prs.len()
        invariant
            0 <= p <= prs.len(),
            s == summaries_view(prs@),
            parents.len() == prs.len(),
            forall|i: int| 0 <= i < prs.len() ==> #[trigger] parents@[i] == parent_of(s, i),
            order@ == by_number(s),
            is_desc_order(number_keys(s), order@),
            children.len() == p,
            forall|q: int| 0 <= q < p ==> (#[trigger] children@[q])@ == children_of(s, q as usize),
            forall|q: int, u: int| 0 <= q < p && 0 <= u < children@[q].len() ==>
                #[trigger] children@[q]@[u] < prs.len() && parent_of(s, children@[q]@[u] as int) == Some(q as usize),
        decreases prs.len() - p,
    {
        let ghost pred = |k: usize| parent_of(s, k as int) == Some(p);
        let mut mine: Vec<usize> = Vec::new();
        let mut t: usize = 0;
        while t < order.len()
            invariant
                0 <= t <= order.len(),
                order.len() == prs.len(),
                parents.len() == prs.len(),
                forall|i: int| 0 <= i < prs.len() ==> #[trigger] parents@[i] == parent_of(s, i),
                is_desc_order(number_keys(s), order@),
                pred == (|k: usize| parent_of(s, k as int) == Some(p)),
                mine@ == order@.take(t as int).filter(pred),
                forall|u: int| 0 <= u < mine.len() ==> #[trigger] mine@[u] < prs.len() && parent_of(s, mine@[u] as int) == Some(p),
            decreases order.len() - t,
        {
            let k = order[t];
            proof {
                lemma_filter_take_step(order@, t as int, pred);
            }
            if parents[k] == Some(p) {
                mine.push(k);
            }
            t = t + 1;
        }
        proof {
            assert(order@.take(t as int) =~= order@);
        }
        children.push(mine);
        p = p + 1;
    }
    children
}


/// What is still to be emitted for a stack of pending pull requests, the top
/// of the stack (the last entry) first.
pub open spec fn pending_output(s: Seq<PrSummaryView>, nodes: Seq<usize>, depths: Seq<nat>) -> Seq<usize>
    decreases nodes.len(),
{
    if nodes.len() == 0 || depths.len() == 0 {
        Seq::empty()
    } else {
        subtree(s, nodes.last(), depths.last()) + pending_output(s, nodes.drop_last(), depths.drop_last())
    }
}

proof fn lemma_pending_push(s: Seq<PrSummaryView>, nodes: Seq<usize>, depths: Seq<nat>, c: usize, dc: nat)
    requires
        nodes.len() == depths.len(),
    ensures
        pending_output(s, nodes.push(c), depths.push(dc)) == subtree(s, c, dc) + pending_output(s, nodes, depths),
{
    assert(nodes.push(c).drop_last() =~= nodes);
    assert(depths.push(dc).drop_last() =~= depths);
}

proof fn lemma_forest_step(s: Seq<PrSummaryView>, cs: Seq<usize>, j: int, depth: nat)
    requires
        0 <= j < cs.len(),
    ensures
        forest(s, cs.subrange(j, cs.len() as int), depth)
            == subtree(s, cs[j], depth) + forest(s, cs.subrange(j + 1, cs.len() as int), depth),
{
    assert(cs.subrange(j, cs.len() as int).drop_first() =~= cs.subrange(j + 1, cs.len() as int));
}

/// `p` is a path from `root` upward through the stack: each entry is stacked
/// on the one before it, and no pull request repeats.
pub open spec fn is_chain(s: Seq<PrSummaryView>, root: usize, p: Seq<usize>) -> bool {
    &&& p.len() >= 1
    &&& p[0] == root
    &&& p.no_duplicates()
    &&& forall|k: int| 0 <= k < p.len() ==> #[trigger] p[k] < s.len()
    &&& forall|k: int| 1 <= k < p.len() ==> parent_of(s, #[trigger] p[k] as int) == Some(p[k - 1])
}

proof fn lemma_usize_range(n: nat)
    requires
        n <= usize::MAX,
    ensures
        Set::new(|x: usize| x < n).finite(),
        Set::new(|x: usize| x < n).len() == n,
    decreases n,
{
    if n == 0 {
        assert(Set::new(|x: usize| x < n) =~= Set::<usize>::empty());
    } else {
        lemma_usize_range((n - 1) as nat);
        assert(Set::new(|x: usize| x < n) =~= Set::new(|x: usize| x < (n - 1) as nat).insert((n - 1) as usize));
    }
}

proof fn lemma_chain_len(s: Seq<PrSummaryView>, root: usize, p: Seq<usize>)
    requires
        is_chain(s, root, p),
        s.len() <= usize::MAX,
    ensures
        p.len() <= s.len(),
{
    lemma_usize_range(s.len());
    p.unique_seq_to_set();
    assert(p.to_set().subset_of(Set::new(|x: usize| x < s.len())));
    vstd::set_lib::lemma_len_subset(p.to_set(), Set::new(|x: usize| x < s.len()));
}

proof fn lemma_chain_extend(s: Seq<PrSummaryView>, root: usize, p: Seq<usize>, c: usize)
    requires
        is_chain(s, root, p),
        parent_of(s, root as int) is None,
        c < s.len(),
        parent_of(s, c as int) == Some(p.last()),
    ensures
        is_chain(s, root, p.push(c)),
{
    let q = p.push(c);
    assert forall|a: int| 0 <= a < p.len() implies p[a] != c by {
        if p[a] == c {
            if a == 0 {
            } else if a == p.len() - 1 {
            } else {
                assert(parent_of(s, p[a] as int) == Some(p[a - 1]));
                assert(p[a - 1] == p[p.len() - 1]);
            }
        }
    }
    assert forall|a: int, b: int| 0 <= a < q.len() && 0 <= b < q.len() && a != b implies q[a] != q[b] by {
        if a < p.len() && b < p.len() {
            assert(q[a] == p[a] && q[b] == p[b]);
        }
    }
    assert forall|k: int| 1 <= k < q.len() implies parent_of(s, #[trigger] q[k] as int) == Some(q[k - 1]) by {
        if k < p.len() {
            assert(q[k] == p[k] && q[k - 1] == p[k - 1]);
        }
    }
}

/// Walks the stack that grows from `root`, depth first, marking what it emits.
#[verifier::spinoff_prover]
#[verifier::rlimit(40)]
fn collect_stack(
    children: &Vec<Vec<usize>>,
    root: usize,
    visited: &mut Vec<bool>,
    Ghost(s): Ghost<Seq<PrSummaryView>>,
) -> (order: Vec<usize>)
    requires
        children.len() == s.len(),
        forall|p: int| 0 <= p < s.len() ==> (#[trigger] children@[p])@ == children_of(s, p as usize),
        forall|p: int, u: int| 0 <= p < s.len() && 0 <= u < children@[p].len() ==>
            #[trigger] children@[p]@[u] < s.len() && parent_of(s, children@[p]@[u] as int) == Some(p as usize),
        root < s.len(),
        parent_of(s, root as int) is None,
        old(visited).len() == s.len(),
        subtree(s, root, s.len()).no_duplicates(),
        forall|x: int| 0 <= x < s.len() && #[trigger] old(visited)@[x] ==> !subtree(s, root, s.len()).contains(x as usize),
    ensures
        order@ == subtree(s, root, s.len()),
        forall|t: int| 0 <= t < order.len() ==> #[trigger] order@[t] < s.len(),
        forall|t: int| 0 <= t < order.len() ==> #[trigger] order@[t] == root || parent_of(s, order@[t] as int) is Some,
        final(visited).len() == s.len(),
        forall|x: int| 0 <= x < s.len() ==> #[trigger] final(visited)@[x] == (old(visited)@[x] || order@.contains(x as usize)),
{
    let ghost n = s.len();
    let ghost old_visited = visited@;
    let mut order: Vec<usize> = Vec::new();
    let mut pending: Vec<usize> = Vec::new();
    pending.push(root);
    let ghost mut depths: Seq<nat> = seq![n];
    let ghost mut paths: Seq<Seq<usize>> = seq![seq![root]];
    proof {
        lemma_pending_push(s, Seq::empty(), Seq::empty(), root, n);
        assert(pending@ =~= Seq::<usize>::empty().push(root));
        assert(depths =~= Seq::<nat>::empty().push(n));
        assert(pending_output(s, pending@, depths) =~= subtree(s, root, n));
        assert(order@ + pending_output(s, pending@, depths) =~= subtree(s, root, n));
        assert(seq![root].no_duplicates());
        assert(is_chain(s, root, paths[0]));
    }
    while pending.len() > 0
        invariant
            n == s.len(),
            children.len() == n,
            forall|p: int| 0 <= p < n ==> (#[trigger] children@[p])@ == children_of(s, p as usize),
            forall|p: int, u: int| 0 <= p < n && 0 <= u < children@[p].len() ==>
                #[trigger] children@[p]@[u] < n && parent_of(s, children@[p]@[u] as int) == Some(p as usize),
            root < n,
            parent_of(s, root as int) is None,
            order@ + pending_output(s, pending@, depths) == subtree(s, root, n),
            pending.len() == depths.len(),
            pending.len() == paths.len(),
            forall|t: int| 0 <= t < paths.len() ==> is_chain(s, root, #[trigger] paths[t]),
            forall|t: int| 0 <= t < paths.len() ==> (#[trigger] paths[t]).last() == pending@[t],
            forall|t: int| 0 <= t < paths.len() ==> #[trigger] depths[t] + paths[t].len() == n + 1,
            visited.len() == n,
            old_visited.len() == n,
            forall|x: int| 0 <= x < n ==> #[trigger] visited@[x] == (old_visited[x] || order@.contains(x as usize)),
            forall|t: int| 0 <= t < pending.len() ==> #[trigger] pending@[t] < n,
            forall|t: int| 0 <= t < order.len() ==> #[trigger] order@[t] < n,
            forall|t: int| 0 <= t < pending.len() ==> #[trigger] pending@[t] == root || parent_of(s, pending@[t] as int) is Some,
            forall|t: int| 0 <= t < order.len() ==> #[trigger] order@[t] == root || parent_of(s, order@[t] as int) is Some,
            subtree(s, root, n).no_duplicates(),
            forall|x: int| 0 <= x < n && #[trigger] old_visited[x] ==> !subtree(s, root, n).contains(x as usize),
        decreases subtree(s, root, n).len() - order.len(),
    {
        let ghost before = order@;
        let ghost rest_nodes = pending@.drop_last();
        let ghost rest_depths = depths.drop_last();
        let ghost rest_paths = paths.drop_last();
        let ghost d = depths.last();
        let ghost path = paths.last();
        let ghost old_depths = depths;
        let ghost all_pending = pending@;
        let i = pending.pop().unwrap();
        proof {
            lemma_chain_len(s, root, path);
            assert(pending@ == rest_nodes);
            depths = rest_depths;
            paths = rest_paths;
            assert(d >= 1);
            assert(i < n);
            let whole = subtree(s, root, n);
            lemma_subtree_shape(s, i, d);
            assert(pending_output(s, all_pending, old_depths) == subtree(s, i, d) + pending_output(s, pending@, depths));
            assert(whole[before.len() as int] == i);
            if before.contains(i) {
                let w = choose|w: int| 0 <= w < before.len() && before[w] == i;
                assert(whole[w] == i);
            }
            assert(whole.contains(i));
        }
        if visited[i] {
            continue;
        }
        order.push(i);
        visited.set(i, true);
        let ghost cs = children_of(s, i);
        let ghost base_len = pending.len();
        let ghost base_po = pending_output(s, pending@, depths);
        proof {
            assert(subtree(s, i, d) == seq![i] + forest(s, cs, (d - 1) as nat));
            assert(order@ + forest(s, cs, (d - 1) as nat) + base_po =~= subtree(s, root, n));
        }
        let kids = &children[i];
        let mut j: usize = kids.len();
        while j > 0
            invariant
                n == s.len(),
                0 <= j <= kids.len(),
                kids@ == cs,
                i < n,
                forall|u: int| 0 <= u < kids.len() ==> #[trigger] kids@[u] < n && parent_of(s, kids@[u] as int) == Some(i),
                parent_of(s, root as int) is None,
                is_chain(s, root, path),
                path.last() == i,
                d >= 1,
                d + path.len() == n + 1,
                pending.len() >= base_len,
                pending.len() == depths.len(),
                pending.len() == paths.len(),
                forall|t: int| 0 <= t < paths.len() ==> is_chain(s, root, #[trigger] paths[t]),
                forall|t: int| 0 <= t < paths.len() ==> (#[trigger] paths[t]).last() == pending@[t],
                forall|t: int| 0 <= t < paths.len() ==> #[trigger] depths[t] + paths[t].len() == n + 1,
                pending_output(s, pending@, depths) == forest(s, cs.subrange(j as int, cs.len() as int), (d - 1) as nat) + base_po,
                forall|t: int| 0 <= t < pending.len() ==> #[trigger] pending@[t] < n,
                forall|t: int| 0 <= t < pending.len() ==> #[trigger] pending@[t] == root || parent_of(s, pending@[t] as int) is Some,
            decreases j,
        {
            j = j - 1;
            let c = kids[j];
            let ghost old_pending = pending@;
            let ghost old_depths = depths;
            pending.push(c);
            proof {
                lemma_chain_extend(s, root, path, c);
                lemma_pending_push(s, old_pending, old_depths, c, (d - 1) as nat);
                lemma_forest_step(s, cs, j as int, (d - 1) as nat);
                depths = depths.push((d - 1) as nat);
                paths = paths.push(path.push(c));
                assert(pending@ == old_pending.push(c));
            }
        }
        proof {
            assert(cs.subrange(0, cs.len() as int) =~= cs);
            assert(order@ + pending_output(s, pending@, depths) =~= subtree(s, root, n));
            assert forall|x: int| 0 <= x < n implies #[trigger] visited@[x] == (old_visited[x] || order@.contains(x as usize)) by {
                assert(order@ == before.push(i));
                if before.contains(x as usize) {
                    let w = choose|w: int| 0 <= w < before.len() && before[w] == x as usize;
                    assert(order@[w] == x as usize);
                }
                if order@.contains(x as usize) && x as usize != i {
                    let w = choose|w: int| 0 <= w < order@.len() && order@[w] == x as usize;
                    assert(before[w] == x as usize);
                }
                if x as usize == i {
                    assert(order@[order@.len() - 1] == i);
                }
            }
        }
    }
    proof {
        assert(order@ =~= order@ + pending_output(s, pending@, depths));
    }
    order
}


pub open spec fn nested_view(v: Seq<Vec<usize>>) -> Seq<Seq<usize>> {
    v.map_values(|g: Vec<usize>| g@)
}

fn group_newest(prs: &Vec<PrSummary>, g: &Vec<usize>) -> (r: Option<crate::pr::Timestamp>)
    requires
        forall|t: int| 0 <= t < g.len() ==> #[trigger] g@[t] < prs.len(),
    ensures
        r == newest(members(summaries_view(prs@), g@)),
{
    let ghost s = summaries_view(prs@);
    let ghost ms = members(s, g@);
    let mut acc: Option<crate::pr::Timestamp> = None;
    let mut t: usize = 0;
    while t < g.len()
        invariant
            0 <= t <= g.len(),
            s == summaries_view(prs@),
            ms == members(s, g@),
            forall|u: int| 0 <= u < g.len() ==> #[trigger] g@[u] < prs.len(),
            acc == newest(ms.take(t as int)),
        decreases g.len() - t,
    {
        let u = prs[g[t]].updated_at;
        proof {
            assert(ms.take(t + 1).drop_last() =~= ms.take(t as int));
            assert(ms.take(t + 1).last() == s[g@[t as int] as int]);
        }
        if !is_earlier(u, acc) {
            acc = u;
        }
        t = t + 1;
    }
    proof {
        assert(ms.take(t as int) =~= ms);
    }
    acc
}

/// Groups open pull requests into stacks: a pull request whose base branch is
/// another open pull request's head branch is stacked on top of it. Each
/// group is ordered bottom to top, pull requests stacked on the same one in
/// number order; groups come most recently updated first.
pub fn group_stacks(prs: Vec<PrSummary>) -> (out: Vec<PrStack>)
    ensures
        out@.map_values(|g: PrStack| g@) == stacks_spec(summaries_view(prs@)),
        forall|k: int| 0 <= k < out.len() ==> (#[trigger] out@[k])@.len() >= 1,
        forall|a: int, b: int| 0 <= a < b < out.len() ==> !opt_earlier(newest((#[trigger] out@[a])@), newest((#[trigger] out@[b])@)),
        partitions(index_groups(summaries_view(prs@)), prs@.len()),
{
    let ghost s = summaries_view(prs@);
    let n = prs.len();
    let parents = parents_of(&prs);
    let children = children_lists(&prs, &parents);
    let mut visited: Vec<bool> = Vec::new();
    let mut v: usize = 0;
    while v < n
        invariant
            0 <= v <= n,
            visited.len() == v,
            forall|x: int| 0 <= x < v ==> !(#[trigger] visited@[x]),
        decreases n - v,
    {
        visited.push(false);
        v = v + 1;
    }
    let mut groups: Vec<Vec<usize>> = Vec::new();
    let mut root: usize = 0;
    while root < n
        invariant
            0 <= root <= n,
            n == prs.len(),
            s == summaries_view(prs@),
            parents.len() == n,
            forall|i: int| 0 <= i < n ==> #[trigger] parents@[i] == parent_of(s, i),
            children.len() == s.len(),
            forall|p: int| 0 <= p < s.len() ==> (#[trigger] children@[p])@ == children_of(s, p as usize),
            forall|p: int, u: int| 0 <= p < s.len() && 0 <= u < children@[p].len() ==>
                #[trigger] children@[p]@[u] < s.len() && parent_of(s, children@[p]@[u] as int) == Some(p as usize),
            visited.len() == n,
            forall|x: int| 0 <= x < n ==> #[trigger] visited@[x] == (exists|r: int|
                0 <= r < root && parent_of(s, r) is None && #[trigger] subtree(s, r as usize, s.len()).contains(x as usize)),
            forall|x: int| 0 <= x < n && #[trigger] visited@[x] && parent_of(s, x) is None ==> x < root,
            nested_view(groups@) == root_groups(s, root as nat),
            forall|k: int, t: int| 0 <= k < groups.len() && 0 <= t < groups@[k].len() ==> #[trigger] groups@[k]@[t] < n,
            forall|k: int| 0 <= k < groups.len() ==> (#[trigger] groups@[k]).len() >= 1,
            is_desc_order(number_keys(s), by_number(s)),
        decreases n - root,
    {
        if parents[root].is_none() && !visited[root] {
            let ghost old_visited = visited@;
            proof {
                assert(ancestor(s, root, 0) == Some(root));
                lemma_subtree_distinct(s, root, s.len(), 0, root);
                lemma_subtree_reach(s, root, s.len());
                assert forall|x: int| 0 <= x < s.len() && #[trigger] old_visited[x] implies !subtree(s, root, s.len()).contains(x as usize) by {
                    let r = choose|r: int| 0 <= r < root && parent_of(s, r) is None && #[trigger] subtree(s, r as usize, s.len()).contains(x as usize);
                    if subtree(s, root, s.len()).contains(x as usize) {
                        let sub = subtree(s, root, s.len());
                        let t = choose|t: int| 0 <= t < sub.len() && sub[t] == x as usize;
                        assert(reaches(s, sub[t], root, s.len()));
                        lemma_subtree_reach(s, r as usize, s.len());
                        let sr = subtree(s, r as usize, s.len());
                        let t2 = choose|t2: int| 0 <= t2 < sr.len() && sr[t2] == x as usize;
                        assert(reaches(s, sr[t2], r as usize, s.len()));
                        lemma_roots_disjoint(s, x as usize, root, r as usize);
                    }
                }
            }
            let order = collect_stack(&children, root, &mut visited, Ghost(s));
            let ghost old_groups = groups@;
            groups.push(order);
            proof {
                assert(nested_view(groups@) =~= nested_view(old_groups).push(order@));
                assert forall|x: int| 0 <= x < n implies #[trigger] visited@[x] == (exists|r: int|
                    0 <= r < root + 1 && parent_of(s, r) is None && #[trigger] subtree(s, r as usize, s.len()).contains(x as usize)) by {
                    if visited@[x] && !old_visited[x] {
                        assert(subtree(s, root as usize, s.len()).contains(x as usize));
                    }
                    if exists|r: int| 0 <= r < root + 1 && parent_of(s, r) is None && #[trigger] subtree(s, r as usize, s.len()).contains(x as usize) {
                        let r = choose|r: int| 0 <= r < root + 1 && parent_of(s, r) is None && #[trigger] subtree(s, r as usize, s.len()).contains(x as usize);
                        if r == root {
                            assert(order@.contains(x as usize));
                        }
                    }
                }
                assert forall|x: int| 0 <= x < n && #[trigger] visited@[x] && parent_of(s, x) is None implies x < root + 1 by {
                    if !old_visited[x] {
                        let w = choose|w: int| 0 <= w < order@.len() && order@[w] == x as usize;
                        assert(order@[w] == root || parent_of(s, order@[w] as int) is Some);
                    }
                }
                assert forall|k: int, t: int| 0 <= k < groups.len() && 0 <= t < groups@[k].len() implies #[trigger] groups@[k]@[t] < n by {
                    if k < old_groups.len() {
                        assert(groups@[k] == old_groups[k]);
                    }
                }
                assert(order@.len() >= 1);
                assert forall|k: int| 0 <= k < groups.len() implies (#[trigger] groups@[k]).len() >= 1 by {
                    if k < old_groups.len() {
                        assert(groups@[k] == old_groups[k]);
                    }
                }
            }
        } else {
            proof {
                if parents@[root as int] is None {
                    assert(visited@[root as int]);
                }
                assert(nested_view(groups@) =~= root_groups(s, (root + 1) as nat));
                assert forall|x: int| 0 <= x < n implies #[trigger] visited@[x] == (exists|r: int|
                    0 <= r < root + 1 && parent_of(s, r) is None && #[trigger] subtree(s, r as usize, s.len()).contains(x as usize)) by {
                    if exists|r: int| 0 <= r < root + 1 && parent_of(s, r) is None && #[trigger] subtree(s, r as usize, s.len()).contains(x as usize) {
                        let r = choose|r: int| 0 <= r < root + 1 && parent_of(s, r) is None && #[trigger] subtree(s, r as usize, s.len()).contains(x as usize);
                        assert(r < root);
                    }
                }
            }
        }
        root = root + 1;
    }
    let mut i: usize = 0;
    while i < n
        invariant
            0 <= i <= n,
            n == prs.len(),
            s == summaries_view(prs@),
            visited.len() == n,
            forall|x: int| 0 <= x < n ==> #[trigger] visited@[x] == in_rooted_stack(s, x as usize),
            nested_view(groups@) == root_groups(s, n as nat) + stray_groups(s, i as nat),
            forall|k: int, t: int| 0 <= k < groups.len() && 0 <= t < groups@[k].len() ==> #[trigger] groups@[k]@[t] < n,
            forall|k: int| 0 <= k < groups.len() ==> (#[trigger] groups@[k]).len() >= 1,
        decreases n - i,
    {
        if !visited[i] {
            let ghost old_groups = groups@;
            let mut single: Vec<usize> = Vec::new();
            single.push(i);
            groups.push(single);
            proof {
                assert(single@ =~= seq![i]);
                assert(nested_view(groups@) =~= nested_view(old_groups).push(seq![i]));
                assert(nested_view(groups@) =~= root_groups(s, n as nat) + stray_groups(s, (i + 1) as nat));
                assert forall|k: int, t: int| 0 <= k < groups.len() && 0 <= t < groups@[k].len() implies #[trigger] groups@[k]@[t] < n by {
                    if k < old_groups.len() {
                        assert(groups@[k] == old_groups[k]);
                    }
                }
                assert forall|k: int| 0 <= k < groups.len() implies (#[trigger] groups@[k]).len() >= 1 by {
                    if k < old_groups.len() {
                        assert(groups@[k] == old_groups[k]);
                    }
                }
            }
        } else {
            proof {
                assert(nested_view(groups@) =~= root_groups(s, n as nat) + stray_groups(s, (i + 1) as nat));
            }
        }
        i = i + 1;
    }
    let ghost gs = nested_view(groups@);
    assert(gs == index_groups(s));
    let mut keys: Vec<u128> = Vec::new();
    let mut k: usize = 0;
    while k < groups.len()
        invariant
            0 <= k <= groups.len(),
            n == prs.len(),
            s == summaries_view(prs@),
            gs == nested_view(groups@),
            gs == index_groups(s),
            forall|k: int, t: int| 0 <= k < groups.len() && 0 <= t < groups@[k].len() ==> #[trigger] groups@[k]@[t] < n,
            keys@ == group_keys(s).take(k as int),
        decreases groups.len() - k,
    {
        let t = group_newest(&prs, &groups[k]);
        keys.push(recency_key(t));
        proof {
            lemma_recency_orders(t, t);
            assert(gs[k as int] == groups@[k as int]@);
            assert(keys@ =~= group_keys(s).take(k + 1));
        }
        k = k + 1;
    }
    proof {
        assert(keys@ =~= group_keys(s));
    }
    let order = stable_order_desc(&keys);
    let mut out: Vec<PrStack> = Vec::new();
    let mut q: usize = 0;
    while q < order.len()
        invariant
            0 <= q <= order.len(),
            n == prs.len(),
            s == summaries_view(prs@),
            gs == nested_view(groups@),
            gs == index_groups(s),
            order@ == desc_order(group_keys(s)),
            is_desc_order(group_keys(s), order@),
            order.len() == groups.len(),
            forall|t: int| 0 <= t < order.len() ==> #[trigger] order@[t] < groups.len(),
            forall|k: int, t: int| 0 <= k < groups.len() && 0 <= t < groups@[k].len() ==> #[trigger] groups@[k]@[t] < n,
            forall|k: int| 0 <= k < groups.len() ==> (#[trigger] groups@[k]).len() >= 1,
            out.len() == q,
            forall|t: int| 0 <= t < q ==> (#[trigger] out@[t])@.len() >= 1,
            forall|t: int| 0 <= t < q ==> (#[trigger] out@[t])@ == members(s, gs[order@[t] as int]),
        decreases order.len() - q,
    {
        let g = &groups[order[q]];
        let ghost gv = g@;
        let mut stack_prs: Vec<PrSummary> = Vec::new();
        let mut t: usize = 0;
        while t < g.len()
            invariant
                0 <= t <= g.len(),
                n == prs.len(),
                s == summaries_view(prs@),
                gv == g@,
                forall|u: int| 0 <= u < g.len() ==> #[trigger] g@[u] < n,
                stack_prs.len() == t,
                forall|u: int| 0 <= u < t ==> (#[trigger] stack_prs@[u])@ == s[g@[u] as int],
            decreases g.len() - t,
        {
            stack_prs.push(prs[g[t]].duplicate());
            t = t + 1;
        }
        proof {
            assert(summaries_view(stack_prs@) =~= members(s, gv));
            assert(gv == gs[order@[q as int] as int]);
            assert(gv.len() >= 1);
        }
        out.push(PrStack { prs: stack_prs });
        q = q + 1;
    }
    proof {
        lemma_groups_partition(s);
        assert(out@.map_values(|g: PrStack| g@) =~= stacks_spec(s));
        assert forall|a: int, b: int| 0 <= a < b < out.len() implies !opt_earlier(newest((#[trigger] out@[a])@), newest((#[trigger] out@[b])@)) by {
            let ka = order@[a] as int;
            let kb = order@[b] as int;
            assert(goes_before(group_keys(s), ka, kb));
            assert(group_keys(s)[ka] == recency(newest(members(s, gs[ka]))) as u128);
            assert(group_keys(s)[kb] == recency(newest(members(s, gs[kb]))) as u128);
            lemma_recency_orders(newest(out@[a]@), newest(out@[b]@));
            lemma_recency_orders(newest(out@[b]@), newest(out@[a]@));
        }
    }
    out
}


pub(crate) proof fn lemma_children_sit_on(s: Seq<PrSummaryView>, p: usize)
    ensures
        forall|k: int| 0 <= k < children_of(s, p).len() ==> parent_of(s, #[trigger] children_of(s, p)[k] as int) == Some(p),
{
    let pred = |k: usize| parent_of(s, k as int) == Some(p);
    assert forall|k: int| 0 <= k < children_of(s, p).len() implies parent_of(s, #[trigger] children_of(s, p)[k] as int) == Some(p) by {
        by_number(s).lemma_filter_pred(pred, k);
    }
}

pub(crate) proof fn lemma_subtree_shape(s: Seq<PrSummaryView>, i: usize, depth: nat)
    ensures
        subtree(s, i, depth).len() >= 1,
        subtree(s, i, depth)[0] == i,
        forall|t: int| 0 < t < subtree(s, i, depth).len() ==> exists|u: int|
            0 <= u < t && parent_of(s, #[trigger] subtree(s, i, depth)[t] as int) == Some(subtree(s, i, depth)[u]),
    decreases depth, 0nat,
{
    let sub = subtree(s, i, depth);
    if depth > 0 {
        let cs = children_of(s, i);
        let f = forest(s, cs, (depth - 1) as nat);
        lemma_children_sit_on(s, i);
        lemma_forest_shape(s, cs, (depth - 1) as nat, i);
        assert(sub == seq![i] + f);
        assert forall|t: int| 0 < t < sub.len() implies exists|u: int|
            0 <= u < t && parent_of(s, #[trigger] sub[t] as int) == Some(sub[u]) by {
            assert(sub[t] == f[t - 1]);
            if parent_of(s, f[t - 1] as int) == Some(i) {
                assert(sub[0] == i);
            } else {
                let u = choose|u: int| 0 <= u < t - 1 && parent_of(s, #[trigger] f[t - 1] as int) == Some(f[u]);
                assert(sub[u + 1] == f[u]);
            }
        }
    }
}

proof fn lemma_forest_shape(s: Seq<PrSummaryView>, cs: Seq<usize>, depth: nat, p: usize)
    requires
        forall|k: int| 0 <= k < cs.len() ==> parent_of(s, #[trigger] cs[k] as int) == Some(p),
    ensures
        forall|t: int| 0 <= t < forest(s, cs, depth).len() ==> parent_of(s, #[trigger] forest(s, cs, depth)[t] as int) == Some(p)
            || exists|u: int| 0 <= u < t && parent_of(s, forest(s, cs, depth)[t] as int) == Some(forest(s, cs, depth)[u]),
    decreases depth, cs.len(),
{
    if cs.len() > 0 {
        let a = subtree(s, cs[0], depth);
        let rest = forest(s, cs.drop_first(), depth);
        let f = forest(s, cs, depth);
        lemma_subtree_shape(s, cs[0], depth);
        assert(parent_of(s, cs[0] as int) == Some(p));
        lemma_forest_shape(s, cs.drop_first(), depth, p);
        assert(f == a + rest);
        assert forall|t: int| 0 <= t < f.len() implies parent_of(s, #[trigger] f[t] as int) == Some(p)
            || exists|u: int| 0 <= u < t && parent_of(s, f[t] as int) == Some(f[u]) by {
            if t < a.len() {
                assert(f[t] == a[t]);
                if t > 0 {
                    let u = choose|u: int| 0 <= u < t && parent_of(s, #[trigger] a[t] as int) == Some(a[u]);
                    assert(f[u] == a[u]);
                }
            } else {
                assert(f[t] == rest[t - a.len()]);
                if parent_of(s, rest[t - a.len()] as int) != Some(p) {
                    let u = choose|u: int| 0 <= u < t - a.len() && parent_of(s, rest[t - a.len()] as int) == Some(rest[u]);
                    assert(f[u + a.len()] == rest[u]);
                }
            }
        }
    }
}

proof fn lemma_root_groups_shape(s: Seq<PrSummaryView>, m: nat)
    requires
        m <= s.len(),
        s.len() <= usize::MAX,
    ensures
        forall|k: int| 0 <= k < root_groups(s, m).len() ==> {
            let g = #[trigger] root_groups(s, m)[k];
            &&& g.len() >= 1
            &&& parent_of(s, g[0] as int) is None
            &&& forall|t: int| 0 < t < g.len() ==> exists|u: int| 0 <= u < t && parent_of(s, #[trigger] g[t] as int) == Some(g[u])
        },
    decreases m,
{
    if m > 0 {
        lemma_root_groups_shape(s, (m - 1) as nat);
        lemma_subtree_shape(s, (m - 1) as usize, s.len());
        let prev = root_groups(s, (m - 1) as nat);
        let cur = root_groups(s, m);
        assert forall|k: int| 0 <= k < cur.len() implies {
            let g = #[trigger] cur[k];
            &&& g.len() >= 1
            &&& parent_of(s, g[0] as int) is None
            &&& forall|t: int| 0 < t < g.len() ==> exists|u: int| 0 <= u < t && parent_of(s, #[trigger] g[t] as int) == Some(g[u])
        } by {
            if k < prev.len() {
                assert(cur[k] == prev[k]);
            } else {
                assert(cur[k] == subtree(s, (m - 1) as usize, s.len()));
            }
        }
    }
}

proof fn lemma_stray_groups_shape(s: Seq<PrSummaryView>, m: nat)
    ensures
        forall|k: int| 0 <= k < stray_groups(s, m).len() ==> (#[trigger] stray_groups(s, m)[k]).len() == 1,
    decreases m,
{
    if m > 0 {
        lemma_stray_groups_shape(s, (m - 1) as nat);
        let prev = stray_groups(s, (m - 1) as nat);
        let cur = stray_groups(s, m);
        assert forall|k: int| 0 <= k < cur.len() implies (#[trigger] cur[k]).len() == 1 by {
            if k < prev.len() {
                assert(cur[k] == prev[k]);
            }
        }
    }
}

/// Each group is ordered bottom to top: every pull request after the first
/// is stacked on one that comes before it in the same group, and the first
/// sits on no other open pull request, unless it stands alone (a base-branch
/// cycle).
pub proof fn lemma_groups_bottom_to_top(s: Seq<PrSummaryView>)
    requires
        s.len() <= usize::MAX,
    ensures
        forall|k: int| 0 <= k < index_groups(s).len() ==> {
            let g = #[trigger] index_groups(s)[k];
            &&& g.len() >= 1
            &&& (parent_of(s, g[0] as int) is None || g.len() == 1)
            &&& forall|t: int| 0 < t < g.len() ==> exists|u: int| 0 <= u < t && parent_of(s, #[trigger] g[t] as int) == Some(g[u])
        },
{
    lemma_root_groups_shape(s, s.len());
    lemma_stray_groups_shape(s, s.len());
    let r = root_groups(s, s.len());
    let st = stray_groups(s, s.len());
    assert forall|k: int| 0 <= k < index_groups(s).len() implies {
        let g = #[trigger] index_groups(s)[k];
        &&& g.len() >= 1
        &&& (parent_of(s, g[0] as int) is None || g.len() == 1)
        &&& forall|t: int| 0 < t < g.len() ==> exists|u: int| 0 <= u < t && parent_of(s, #[trigger] g[t] as int) == Some(g[u])
    } by {
        if k < r.len() {
            assert(index_groups(s)[k] == r[k]);
        } else {
            assert(index_groups(s)[k] == st[k - r.len()]);
        }
    }
}

} // verus!
