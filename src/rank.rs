use vstd::prelude::*;

verus! {

/// Inserts index `k` into `order`, which is sorted by descending size, after
/// every index whose size is at least that of `k`: equal sizes keep the order
/// in which they were inserted.
pub open spec fn insert_ranked(order: Seq<usize>, sizes: Seq<u64>, k: usize) -> Seq<usize>
    decreases order.len(),
{
    if order.len() == 0 {
        seq![k]
    } else if sizes[order.last() as int] >= sizes[k as int] {
        order.push(k)
    } else {
        insert_ranked(order.drop_last(), sizes, k).push(order.last())
    }
}

/// The indices below `n` of the nonzero sizes, ordered by descending size,
/// ties kept in index order.
pub open spec fn ranked_upto(sizes: Seq<u64>, n: int) -> Seq<usize>
    decreases n,
{
    if n <= 0 {
        Seq::empty()
    } else {
        let o = ranked_upto(sizes, n - 1);
        if sizes[n - 1] == 0 {
            o
        } else {
            insert_ranked(o, sizes, (n - 1) as usize)
        }
    }
}

/// The indices of the nonzero sizes, largest first, ties in index order.
pub open spec fn ranked(sizes: Seq<u64>) -> Seq<usize> {
    ranked_upto(sizes, sizes.len() as int)
}

proof fn lemma_insert_at(order: Seq<usize>, sizes: Seq<u64>, k: usize, p: int)
    requires
        0 <= p <= order.len(),
        forall|m: int| p <= m < order.len() ==> sizes[#[trigger] order[m] as int] < sizes[k as int],
        p == 0 || sizes[order[p - 1] as int] >= sizes[k as int],
    ensures
        insert_ranked(order, sizes, k) == order.insert(p, k),
    decreases order.len(),
{
    if order.len() == 0 {
        assert(order.insert(p, k) =~= seq![k]);
    } else if p == order.len() {
        assert(order.insert(p, k) =~= order.push(k));
    } else {
        let o2 = order.drop_last();
        lemma_insert_at(o2, sizes, k, p);
        assert(order.insert(p, k) =~= o2.insert(p, k).push(order.last()));
    }
}

pub proof fn lemma_insert_elems(order: Seq<usize>, sizes: Seq<u64>, k: usize)
    ensures
        insert_ranked(order, sizes, k).len() == order.len() + 1,
        forall|e: usize| #[trigger]
            insert_ranked(order, sizes, k).contains(e) ==> order.contains(e) || e == k,
    decreases order.len(),
{
    if order.len() > 0 && sizes[order.last() as int] < sizes[k as int] {
        let o2 = order.drop_last();
        lemma_insert_elems(o2, sizes, k);
        assert forall|e: usize| #[trigger]
            insert_ranked(order, sizes, k).contains(e) implies order.contains(e) || e == k by {
            let r = insert_ranked(order, sizes, k);
            let i = choose|i: int| 0 <= i < r.len() && r[i] == e;
            if i < r.len() - 1 {
                assert(insert_ranked(o2, sizes, k)[i] == e);
                assert(insert_ranked(o2, sizes, k).contains(e));
                if e != k {
                    assert(o2.contains(e));
                    let j = choose|j: int| 0 <= j < o2.len() && o2[j] == e;
                    assert(o2[j] == order[j]);
                    assert(order.contains(e));
                }
            } else {
                assert(order[order.len() - 1] == e);
            }
        }
    } else if order.len() > 0 {
        assert forall|e: usize| #[trigger]
            insert_ranked(order, sizes, k).contains(e) implies order.contains(e) || e == k by {
            let r = insert_ranked(order, sizes, k);
            let i = choose|i: int| 0 <= i < r.len() && r[i] == e;
            if i < order.len() {
                assert(order[i] == e);
            }
        }
    } else {
        assert forall|e: usize| #[trigger]
            insert_ranked(order, sizes, k).contains(e) implies order.contains(e) || e == k by {
            assert(insert_ranked(order, sizes, k)[0] == k);
        }
    }
}

/// The ranked indices are in range, and there are at most as many as sizes;
/// there is at least one where some size is nonzero.
pub proof fn lemma_ranked_upto_bounds(sizes: Seq<u64>, n: int)
    requires
        0 <= n <= sizes.len(),
    ensures
        ranked_upto(sizes, n).len() <= n,
        forall|i: int|
            0 <= i < ranked_upto(sizes, n).len() ==> (#[trigger] ranked_upto(sizes, n)[i]) < n,
        (exists|i: int| 0 <= i < n && sizes[i] != 0) ==> ranked_upto(sizes, n).len() >= 1,
    decreases n,
{
    if n > 0 {
        let o = ranked_upto(sizes, n - 1);
        lemma_ranked_upto_bounds(sizes, n - 1);
        if sizes[n - 1] != 0 {
            lemma_insert_elems(o, sizes, (n - 1) as usize);
            let r = ranked_upto(sizes, n);
            assert forall|i: int| 0 <= i < r.len() implies (#[trigger] r[i]) < n by {
                assert(r.contains(r[i]));
                if r[i] != (n - 1) as usize {
                    let j = choose|j: int| 0 <= j < o.len() && o[j] == r[i];
                }
            }
        } else {
            if exists|i: int| 0 <= i < n && sizes[i] != 0 {
                let i = choose|i: int| 0 <= i < n && sizes[i] != 0;
                assert(i < n - 1);
            }
        }
    }
}

/// The sizes at the positions `order` never increase.
pub open spec fn sorted_by_size(order: Seq<usize>, sizes: Seq<u64>) -> bool {
    forall|i: int, j: int|
        0 <= i < j < order.len() ==> sizes[#[trigger] order[i] as int] >= sizes[#[trigger] order[j] as int]
}

/// The number of nonzero sizes among the first `n`.
pub open spec fn nonzero_count(sizes: Seq<u64>, n: int) -> nat
    decreases n,
{
    if n <= 0 {
        0
    } else {
        nonzero_count(sizes, n - 1) + if sizes[n - 1] != 0 {
            1nat
        } else {
            0nat
        }
    }
}

proof fn lemma_insert_keeps(order: Seq<usize>, sizes: Seq<u64>, k: usize)
    ensures
        insert_ranked(order, sizes, k).contains(k),
        forall|e: usize| #[trigger] order.contains(e) ==> insert_ranked(order, sizes, k).contains(e),
        sorted_by_size(order, sizes) ==> sorted_by_size(insert_ranked(order, sizes, k), sizes),
    decreases order.len(),
{
    let r = insert_ranked(order, sizes, k);
    if order.len() == 0 {
        assert(r[0] == k);
    } else if sizes[order.last() as int] >= sizes[k as int] {
        assert(r[r.len() - 1] == k);
        assert forall|e: usize| #[trigger] order.contains(e) implies r.contains(e) by {
            let i = choose|i: int| 0 <= i < order.len() && order[i] == e;
            assert(r[i] == e);
        }
        if sorted_by_size(order, sizes) {
            assert forall|i: int, j: int| 0 <= i < j < r.len() implies sizes[#[trigger] r[i] as int]
                >= sizes[#[trigger] r[j] as int] by {
                if j == r.len() - 1 && i < order.len() - 1 {
                    assert(sizes[order[i] as int] >= sizes[order[order.len() - 1] as int]);
                }
            }
        }
    } else {
        let o2 = order.drop_last();
        let r2 = insert_ranked(o2, sizes, k);
        lemma_insert_keeps(o2, sizes, k);
        lemma_insert_elems(o2, sizes, k);
        assert(r == r2.push(order.last()));
        let i0 = choose|i: int| 0 <= i < r2.len() && r2[i] == k;
        assert(r[i0] == k);
        assert forall|e: usize| #[trigger] order.contains(e) implies r.contains(e) by {
            let i = choose|i: int| 0 <= i < order.len() && order[i] == e;
            if i == order.len() - 1 {
                assert(r[r.len() - 1] == e);
            } else {
                assert(o2[i] == e);
                assert(o2.contains(e));
                let m = choose|m: int| 0 <= m < r2.len() && r2[m] == e;
                assert(r[m] == e);
            }
        }
        if sorted_by_size(order, sizes) {
            assert(sorted_by_size(o2, sizes)) by {
                assert forall|i: int, j: int| 0 <= i < j < o2.len() implies sizes[#[trigger] o2[i] as int]
                    >= sizes[#[trigger] o2[j] as int] by {
                    assert(o2[i] == order[i] && o2[j] == order[j]);
                }
            }
            let last = order.last();
            assert forall|i: int, j: int| 0 <= i < j < r.len() implies sizes[#[trigger] r[i] as int]
                >= sizes[#[trigger] r[j] as int] by {
                if j == r.len() - 1 {
                    let e = r2[i];
                    assert(r2.contains(e));
                    if e != k {
                        assert(o2.contains(e));
                        let m = choose|m: int| 0 <= m < o2.len() && o2[m] == e;
                        assert(order[m] == e);
                        assert(sizes[order[m] as int] >= sizes[order[order.len() - 1] as int]);
                    }
                } else {
                    assert(r[i] == r2[i] && r[j] == r2[j]);
                }
            }
        }
    }
}

/// The ranked indices are sorted by descending size, hold every index below
/// `n` of a nonzero size, and are as many as those.
pub proof fn lemma_ranked_upto_order(sizes: Seq<u64>, n: int)
    requires
        0 <= n <= sizes.len(),
        sizes.len() <= usize::MAX,
    ensures
        sorted_by_size(ranked_upto(sizes, n), sizes),
        forall|i: int| 0 <= i < n && sizes[i] != 0 ==> #[trigger] ranked_upto(sizes, n).contains(
            i as usize,
        ),
        ranked_upto(sizes, n).len() == nonzero_count(sizes, n),
    decreases n,
{
    if n > 0 {
        let o = ranked_upto(sizes, n - 1);
        lemma_ranked_upto_order(sizes, n - 1);
        if sizes[n - 1] != 0 {
            lemma_insert_keeps(o, sizes, (n - 1) as usize);
            lemma_insert_elems(o, sizes, (n - 1) as usize);
            assert forall|i: int| 0 <= i < n && sizes[i] != 0 implies #[trigger] ranked_upto(
                sizes,
                n,
            ).contains(i as usize) by {
                if i < n - 1 {
                    assert(o.contains(i as usize));
                }
            }
        } else {
            assert forall|i: int| 0 <= i < n && sizes[i] != 0 implies #[trigger] ranked_upto(
                sizes,
                n,
            ).contains(i as usize) by {
                assert(i < n - 1);
            }
        }
    }
}

/// Computes `ranked(sizes@)`.
pub fn rank_by_size(sizes: &Vec<u64>) -> (order: Vec<usize>)
    ensures
        order@ == ranked(sizes@),
{
    let mut order: Vec<usize> = Vec::new();
    let mut k: usize = 0;
    while k < sizes.len()
        invariant
            0 <= k <= sizes@.len(),
            order@ == ranked_upto(sizes@, k as int),
        decreases sizes@.len() - k,
    {
        proof {
            lemma_ranked_upto_bounds(sizes@, k as int);
        }
        if sizes[k] != 0 {
            let s = sizes[k];
            let mut p: usize = order.len();
            while p > 0 && sizes[order[p - 1]] < s
                invariant
                    0 <= p <= order@.len(),
                    k < sizes@.len(),
                    s == sizes@[k as int],
                    order@ == ranked_upto(sizes@, k as int),
                    forall|i: int| 0 <= i < order@.len() ==> (#[trigger] order@[i]) < k,
                    forall|m: int|
                        p <= m < order@.len() ==> sizes@[#[trigger] order@[m] as int] < s,
                decreases p,
            {
                p = p - 1;
            }
            proof {
                lemma_insert_at(order@, sizes@, k, p as int);
            }
            order.insert(p, k);
        }
        k = k + 1;
    }
    order
}

} // verus!
