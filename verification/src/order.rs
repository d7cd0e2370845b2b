use vstd::prelude::*;

verus! {

/// `a` goes before `b` when ordering by key, largest key first, ties kept in
/// index order.
pub open spec fn goes_before(keys: Seq<u128>, a: int, b: int) -> bool {
    keys[a] > keys[b] || (keys[a] == keys[b] && a < b)
}

/// `r` lists every index of `keys` exactly once, largest key first, equal
/// keys in their original order: the order a stable descending sort gives.
pub open spec fn is_desc_order(keys: Seq<u128>, r: Seq<usize>) -> bool {
    &&& r.len() == keys.len()
    &&& forall|i: int| 0 <= i < r.len() ==> #[trigger] r[i] < keys.len()
    &&& forall|j: usize| j < keys.len() ==> #[trigger] r.contains(j)
    &&& forall|i: int, j: int|
        0 <= i < j < r.len() ==> goes_before(keys, #[trigger] r[i] as int, #[trigger] r[j] as int)
}

/// The stable descending order of `keys` (there is exactly one, see
/// `lemma_desc_order_unique`).
pub open spec fn desc_order(keys: Seq<u128>) -> Seq<usize> {
    choose|r: Seq<usize>| is_desc_order(keys, r)
}

proof fn lemma_order_prefix_agrees(keys: Seq<u128>, r1: Seq<usize>, r2: Seq<usize>, i: int)
    requires
        is_desc_order(keys, r1),
        is_desc_order(keys, r2),
        0 <= i <= r1.len(),
    ensures
        forall|t: int| 0 <= t < i ==> r1[t] == r2[t],
    decreases i,
{
    if i > 0 {
        lemma_order_prefix_agrees(keys, r1, r2, i - 1);
        let t = i - 1;
        let a = r1[t];
        let b = r2[t];
        if a != b {
            assert(r1.contains(b));
            let j = choose|j: int| 0 <= j < r1.len() && r1[j] == b;
            assert(r2.contains(a));
            let j2 = choose|j: int| 0 <= j < r2.len() && r2[j] == a;
            if j < t {
                assert(r2[j] == b);
                assert(goes_before(keys, r2[j] as int, r2[t] as int));
            }
            if j2 < t {
                assert(r1[j2] == a);
                assert(goes_before(keys, r1[j2] as int, r1[t] as int));
            }
            assert(goes_before(keys, r1[t] as int, r1[j] as int));
            assert(goes_before(keys, r2[t] as int, r2[j2] as int));
        }
    }
}

/// There is only one stable descending order of a list of keys.
pub proof fn lemma_desc_order_unique(keys: Seq<u128>, r1: Seq<usize>, r2: Seq<usize>)
    requires
        is_desc_order(keys, r1),
        is_desc_order(keys, r2),
    ensures
        r1 == r2,
{
    lemma_order_prefix_agrees(keys, r1, r2, r1.len() as int);
    assert(r1 =~= r2);
}

/// The indices of `keys`, largest key first, equal keys in index order.
pub fn stable_order_desc(keys: &Vec<u128>) -> (r: Vec<usize>)
    ensures
        is_desc_order(keys@, r@),
        r@ == desc_order(keys@),
{
    let mut r: Vec<usize> = Vec::new();
    let mut m: usize = 0;
    while m < keys.len()
        invariant
            0 <= m <= keys.len(),
            r.len() == m,
            forall|i: int| 0 <= i < r.len() ==> #[trigger] r[i] < m,
            forall|j: usize| j < m ==> #[trigger] r@.contains(j),
            forall|i: int, j: int|
                0 <= i < j < r.len() ==> goes_before(keys@, #[trigger] r[i] as int, #[trigger] r[j] as int),
        decreases keys.len() - m,
    {
        let km = keys[m];
        let mut p: usize = 0;
        while p < r.len() && keys[r[p]] >= km
            invariant
                0 <= p <= r.len(),
                r.len() == m,
                m < keys.len(),
                km == keys@[m as int],
                forall|i: int| 0 <= i < r.len() ==> #[trigger] r[i] < m,
                forall|q: int| 0 <= q < p ==> keys@[#[trigger] r[q] as int] >= km,
            decreases r.len() - p,
        {
            p = p + 1;
        }
        let ghost old_r = r@;
        proof {
            assert forall|q: int| p <= q < old_r.len() implies keys@[#[trigger] old_r[q] as int] < km by {
                if q > p {
                    assert(goes_before(keys@, old_r[p as int] as int, old_r[q] as int));
                }
            }
        }
        r.insert(p, m);
        proof {
            assert(r@ == old_r.insert(p as int, m));
            assert forall|j: usize| j < m + 1 implies #[trigger] r@.contains(j) by {
                if j == m {
                    assert(r@[p as int] == m);
                } else {
                    assert(old_r.contains(j));
                    let t = choose|t: int| 0 <= t < old_r.len() && old_r[t] == j;
                    if t < p {
                        assert(r@[t] == j);
                    } else {
                        assert(r@[t + 1] == j);
                    }
                }
            }
            assert forall|i: int, j: int| 0 <= i < j < r.len() implies goes_before(
                keys@,
                #[trigger] r[i] as int,
                #[trigger] r[j] as int,
            ) by {
                if j < p {
                    assert(r[i] == old_r[i] && r[j] == old_r[j]);
                } else if j == p {
                    assert(r[i] == old_r[i]);
                } else if i == p {
                    assert(r[j] == old_r[j - 1]);
                } else if i < p {
                    assert(r[i] == old_r[i] && r[j] == old_r[j - 1]);
                } else {
                    assert(r[i] == old_r[i - 1] && r[j] == old_r[j - 1]);
                }
            }
        }
        m = m + 1;
    }
    proof {
        lemma_desc_order_unique(keys@, r@, desc_order(keys@));
    }
    r
}


/// Where `km` goes in a list ordered largest key first: after every entry
/// whose key is at least `km`.
spec fn insert_pos(keys: Seq<u128>, r: Seq<usize>, km: u128) -> int
    decreases r.len(),
{
    if r.len() == 0 {
        0
    } else if keys[r.last() as int] >= km {
        r.len() as int
    } else {
        insert_pos(keys, r.drop_last(), km)
    }
}

proof fn lemma_insert_pos(keys: Seq<u128>, r: Seq<usize>, km: u128)
    requires
        forall|i: int| 0 <= i < r.len() ==> #[trigger] r[i] < keys.len(),
        forall|i: int, j: int|
            0 <= i < j < r.len() ==> goes_before(keys, #[trigger] r[i] as int, #[trigger] r[j] as int),
    ensures
        0 <= insert_pos(keys, r, km) <= r.len(),
        forall|q: int| 0 <= q < insert_pos(keys, r, km) ==> keys[#[trigger] r[q] as int] >= km,
        forall|q: int| insert_pos(keys, r, km) <= q < r.len() ==> keys[#[trigger] r[q] as int] < km,
    decreases r.len(),
{
    if r.len() > 0 {
        let last = r.len() - 1;
        if keys[r.last() as int] >= km {
            assert forall|q: int| 0 <= q < r.len() implies keys[#[trigger] r[q] as int] >= km by {
                if q < last {
                    assert(goes_before(keys, r[q] as int, r[last] as int));
                }
            }
        } else {
            let d = r.drop_last();
            assert forall|i: int, j: int| 0 <= i < j < d.len() implies goes_before(keys, #[trigger] d[i] as int, #[trigger] d[j] as int) by {
                assert(d[i] == r[i] && d[j] == r[j]);
            }
            lemma_insert_pos(keys, d, km);
            assert forall|q: int| 0 <= q < insert_pos(keys, r, km) implies keys[#[trigger] r[q] as int] >= km by {
                assert(r[q] == d[q]);
            }
            assert forall|q: int| insert_pos(keys, r, km) <= q < r.len() implies keys[#[trigger] r[q] as int] < km by {
                if q < last {
                    assert(r[q] == d[q]);
                }
            }
        }
    }
}

proof fn lemma_desc_prefix(keys: Seq<u128>, m: nat) -> (r: Seq<usize>)
    requires
        m <= keys.len(),
        keys.len() <= usize::MAX + 1,
    ensures
        r.len() == m,
        forall|i: int| 0 <= i < r.len() ==> #[trigger] r[i] < m,
        forall|j: usize| j < m ==> #[trigger] r.contains(j),
        forall|i: int, j: int|
            0 <= i < j < r.len() ==> goes_before(keys, #[trigger] r[i] as int, #[trigger] r[j] as int),
    decreases m,
{
    if m == 0 {
        Seq::empty()
    } else {
        let prev = lemma_desc_prefix(keys, (m - 1) as nat);
        let km = keys[m - 1];
        lemma_insert_pos(keys, prev, km);
        let p = insert_pos(keys, prev, km);
        let new = (m - 1) as usize;
        let r = prev.insert(p, new);
        assert forall|i: int| 0 <= i < r.len() implies #[trigger] r[i] < m by {
            if i < p {
                assert(r[i] == prev[i]);
            } else if i > p {
                assert(r[i] == prev[i - 1]);
            }
        }
        assert forall|j: usize| j < m implies #[trigger] r.contains(j) by {
            if j == new {
                assert(r[p] == new);
            } else {
                assert(prev.contains(j));
                let t = choose|t: int| 0 <= t < prev.len() && prev[t] == j;
                if t < p {
                    assert(r[t] == j);
                } else {
                    assert(r[t + 1] == j);
                }
            }
        }
        assert forall|i: int, j: int| 0 <= i < j < r.len() implies goes_before(keys, #[trigger] r[i] as int, #[trigger] r[j] as int) by {
            if j < p {
                assert(r[i] == prev[i] && r[j] == prev[j]);
            } else if j == p {
                assert(r[i] == prev[i]);
            } else if i == p {
                assert(r[j] == prev[j - 1]);
            } else if i < p {
                assert(r[i] == prev[i] && r[j] == prev[j - 1]);
            } else {
                assert(r[i] == prev[i - 1] && r[j] == prev[j - 1]);
            }
        }
        r
    }
}

/// Every list of keys has a stable descending order.
pub proof fn lemma_desc_order_exists(keys: Seq<u128>)
    requires
        keys.len() <= usize::MAX + 1,
    ensures
        is_desc_order(keys, desc_order(keys)),
{
    let r = lemma_desc_prefix(keys, keys.len());
    assert(is_desc_order(keys, r));
}

} // verus!
