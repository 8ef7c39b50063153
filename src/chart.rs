use vstd::prelude::*;

use crate::error::VisError;
use crate::layout::{child_sizes, ranked_children, sizes_of_children};
use crate::rank::{
    insert_ranked, lemma_insert_elems, lemma_ranked_upto_bounds, lemma_ranked_upto_order,
    nonzero_count, rank_by_size, ranked_upto,
};
use crate::tree::DirNode;

verus! {

/// At most this many entries are shown in the proportional chart.
pub const CHART_ITEMS: usize = 8;

/// One bar of the proportional chart.
#[derive(Debug)]
pub struct ChartItem {
    pub name: String,
    pub size: u64,
    /// The share of the root's total size, in tenths of a percent.
    pub percent_tenths: u64,
}

/// The share of `size` in `total`, in tenths of a percent, rounded down, so
/// that shares never add up to more than the whole; held to what 64 bits
/// can count.
pub open spec fn percent_tenths_of(size: nat, total: nat) -> nat {
    if total == 0 {
        0
    } else if size * 1000 / total > u64::MAX {
        u64::MAX as nat
    } else {
        size * 1000 / total
    }
}

/// The sum of the reported shares, in tenths of a percent.
pub open spec fn share_sum(items: Seq<ChartItem>) -> nat
    decreases items.len(),
{
    if items.len() == 0 {
        0
    } else {
        share_sum(items.drop_last()) + items.last().percent_tenths as nat
    }
}

/// The indices of the children shown in the chart: the nonzero ones, largest
/// first, ties in scan order, at most `CHART_ITEMS` of them.
pub open spec fn chart_indices(root: DirNode) -> Seq<usize> {
    let o = ranked_children(root);
    if o.len() > CHART_ITEMS {
        o.take(CHART_ITEMS as int)
    } else {
        o
    }
}

/// Selects the bars of the proportional chart of `root`: its largest nonzero
/// direct children, at most `CHART_ITEMS`, each with its share of the root's
/// size, rounded down. The shares are not scaled to add up to a hundred
/// percent: when more than `CHART_ITEMS` children have a nonzero size and the
/// root's size is the sum of its children's, they add up to less. Fails with
/// `EmptyDirectory` when no direct child has a nonzero size.
pub fn select_chart_items(root: &DirNode) -> (r: Result<Vec<ChartItem>, VisError>)
    ensures
        r is Err <==> ranked_children(*root).len() == 0,
        r is Err ==> r->Err_0 == VisError::EmptyDirectory,
        r is Ok ==> {
            let items = r->Ok_0@;
            let idx = chart_indices(*root);
            &&& items.len() == idx.len()
            &&& forall|i: int|
                0 <= i < items.len() ==> {
                    let c = root.children@[#[trigger] idx[i] as int];
                    &&& items[i].name == c.name
                    &&& items[i].size == c.size
                    &&& items[i].percent_tenths == percent_tenths_of(
                        c.size as nat,
                        root.size as nat,
                    )
                }
        },
        r is Ok && root.size == size_sum(child_sizes(*root)) && nonzero_count(
            child_sizes(*root),
            root.children@.len() as int,
        ) > CHART_ITEMS ==> share_sum(r->Ok_0@) < 1000,
{
    let sizes = sizes_of_children(root);
    let order = rank_by_size(&sizes);
    proof {
        lemma_ranked_upto_bounds(sizes@, sizes@.len() as int);
    }
    if order.len() == 0 {
        return Err(VisError::EmptyDirectory);
    }
    let n = if order.len() > CHART_ITEMS {
        CHART_ITEMS
    } else {
        order.len()
    };
    let ghost idx = chart_indices(*root);
    let total = root.size;
    let mut items: Vec<ChartItem> = Vec::new();
    let mut j: usize = 0;
    while j < n
        invariant
            order@ == ranked_children(*root),
            forall|k: int| 0 <= k < order@.len() ==> (#[trigger] order@[k]) < root.children@.len(),
            idx == chart_indices(*root),
            n == idx.len(),
            n <= order@.len(),
            0 <= j <= n,
            total == root.size,
            items@.len() == j,
            forall|k: int|
                0 <= k < j ==> {
                    let c = root.children@[#[trigger] idx[k] as int];
                    &&& items@[k].name == c.name
                    &&& items@[k].size == c.size
                    &&& items@[k].percent_tenths == percent_tenths_of(
                        c.size as nat,
                        root.size as nat,
                    )
                },
        decreases n - j,
    {
        let c = &root.children[order[j]];
        let pct: u64 = if total == 0 {
            0
        } else {
            proof {
                assert((c.size as int) * 1000 <= u128::MAX) by (nonlinear_arith)
                    requires
                        c.size <= u64::MAX,
                ;
                assert((c.size as int) * 1000 / (total as int) <= (c.size as int) * 1000)
                    by (nonlinear_arith)
                    requires
                        total > 0,
                        c.size >= 0,
                ;
            }
            let p = (c.size as u128) * 1000 / (total as u128);
            if p > u64::MAX as u128 {
                u64::MAX
            } else {
                p as u64
            }
        };
        proof {
            assert(idx[j as int] == order@[j as int]);
        }
        items.push(ChartItem { name: c.name.clone(), size: c.size, percent_tenths: pct });
        j = j + 1;
    }
    proof {
        let sz = child_sizes(*root);
        if root.size == size_sum(sz) && nonzero_count(sz, root.children@.len() as int)
            > CHART_ITEMS {
            lemma_chart_below_whole(*root);
            assert forall|k: int| 0 <= k < items@.len() implies (#[trigger] items@[k]).percent_tenths
                == percent_tenths_of(sz[idx[k] as int] as nat, total as nat) by {
                let c = root.children@[idx[k] as int];
                assert(sz[idx[k] as int] == c.size);
            }
            lemma_share_sum_bound(sz, idx, items@, total as nat);
            let a = share_sum(items@) as int;
            let b = idx_sum(sz, idx) as int;
            let t = total as int;
            assert(a < 1000) by (nonlinear_arith)
                requires
                    a * t <= 1000 * b,
                    b < t,
                    a >= 0,
                    b >= 0,
            ;
        }
    }
    Ok(items)
}

/// The sum of the sizes at the positions `idx`.
pub open spec fn idx_sum(sizes: Seq<u64>, idx: Seq<usize>) -> nat
    decreases idx.len(),
{
    if idx.len() == 0 {
        0
    } else {
        idx_sum(sizes, idx.drop_last()) + sizes[idx.last() as int] as nat
    }
}

/// The sum of all the sizes.
pub open spec fn size_sum(sizes: Seq<u64>) -> nat
    decreases sizes.len(),
{
    if sizes.len() == 0 {
        0
    } else {
        size_sum(sizes.drop_last()) + sizes.last() as nat
    }
}

proof fn lemma_idx_sum_insert(o: Seq<usize>, sizes: Seq<u64>, k: usize)
    ensures
        idx_sum(sizes, insert_ranked(o, sizes, k)) == idx_sum(sizes, o) + sizes[k as int],
    decreases o.len(),
{
    if o.len() > 0 && sizes[o.last() as int] < sizes[k as int] {
        lemma_idx_sum_insert(o.drop_last(), sizes, k);
        assert(insert_ranked(o, sizes, k).drop_last() == insert_ranked(o.drop_last(), sizes, k));
    } else if o.len() > 0 {
        assert(o.push(k).drop_last() =~= o);
    } else {
        assert(seq![k].drop_last() =~= o);
    }
}

proof fn lemma_idx_sum_ranked(sizes: Seq<u64>, n: int)
    requires
        0 <= n <= sizes.len(),
        sizes.len() <= usize::MAX,
    ensures
        idx_sum(sizes, ranked_upto(sizes, n)) == size_sum(sizes.take(n)),
    decreases n,
{
    if n > 0 {
        lemma_idx_sum_ranked(sizes, n - 1);
        assert(sizes.take(n).drop_last() =~= sizes.take(n - 1));
        if sizes[n - 1] != 0 {
            lemma_idx_sum_insert(ranked_upto(sizes, n - 1), sizes, (n - 1) as usize);
        }
    } else {
        assert(sizes.take(n) =~= Seq::<u64>::empty());
    }
}

proof fn lemma_ranked_nonzero(sizes: Seq<u64>, n: int)
    requires
        0 <= n <= sizes.len(),
        sizes.len() <= usize::MAX,
    ensures
        forall|i: int|
            0 <= i < ranked_upto(sizes, n).len() ==> sizes[#[trigger] ranked_upto(sizes, n)[i] as int]
                != 0,
    decreases n,
{
    if n > 0 {
        let o = ranked_upto(sizes, n - 1);
        lemma_ranked_nonzero(sizes, n - 1);
        if sizes[n - 1] != 0 {
            lemma_insert_elems(o, sizes, (n - 1) as usize);
            let r = ranked_upto(sizes, n);
            assert forall|i: int| 0 <= i < r.len() implies sizes[#[trigger] r[i] as int] != 0 by {
                assert(r.contains(r[i]));
                if r[i] != (n - 1) as usize {
                    let j = choose|j: int| 0 <= j < o.len() && o[j] == r[i];
                }
            }
        }
    }
}

proof fn lemma_idx_sum_split(sizes: Seq<u64>, idx: Seq<usize>, m: int)
    requires
        0 <= m <= idx.len(),
    ensures
        idx_sum(sizes, idx) == idx_sum(sizes, idx.take(m)) + idx_sum(sizes, idx.skip(m)),
    decreases idx.len(),
{
    if m == idx.len() {
        assert(idx.take(m) =~= idx);
        assert(idx.skip(m) =~= Seq::<usize>::empty());
    } else {
        lemma_idx_sum_split(sizes, idx.drop_last(), m);
        assert(idx.drop_last().take(m) =~= idx.take(m));
        assert(idx.skip(m).drop_last() =~= idx.drop_last().skip(m));
    }
}

proof fn lemma_share_sum_bound(sizes: Seq<u64>, idx: Seq<usize>, items: Seq<ChartItem>, total: nat)
    requires
        total > 0,
        items.len() == idx.len(),
        forall|k: int|
            0 <= k < items.len() ==> (#[trigger] items[k]).percent_tenths == percent_tenths_of(
                sizes[idx[k] as int] as nat,
                total,
            ),
    ensures
        share_sum(items) * total <= 1000 * idx_sum(sizes, idx),
    decreases items.len(),
{
    if items.len() > 0 {
        let k = items.len() - 1;
        lemma_share_sum_bound(sizes, idx.drop_last(), items.drop_last(), total);
        let s = sizes[idx[k] as int] as int;
        let p = items[k].percent_tenths as int;
        let t = total as int;
        assert(p * t <= s * 1000) by (nonlinear_arith)
            requires
                t > 0,
                s >= 0,
                p <= s * 1000 / t,
        ;
        let a = share_sum(items.drop_last()) as int;
        let b = idx_sum(sizes, idx.drop_last()) as int;
        assert(share_sum(items) == a + p);
        assert(idx_sum(sizes, idx) == b + s);
        assert((a + p) * t <= 1000 * (b + s)) by (nonlinear_arith)
            requires
                a * t <= 1000 * b,
                p * t <= s * 1000,
        ;
        assert(share_sum(items) * total == (a + p) * t);
        assert(1000 * idx_sum(sizes, idx) == 1000 * (b + s));
    } else {
        assert(share_sum(items) == 0);
        assert(0 * total == 0);
    }
}

/// When more than `CHART_ITEMS` direct children of a directory whose size is
/// the sum of its children's sizes have a nonzero size, the children shown in
/// the chart hold less than the directory's size: their shares, taken of the
/// whole, add up to less than the whole and are not scaled up.
pub proof fn lemma_chart_below_whole(root: DirNode)
    requires
        root.size == size_sum(child_sizes(root)),
        nonzero_count(child_sizes(root), root.children@.len() as int) > CHART_ITEMS,
    ensures
        idx_sum(child_sizes(root), chart_indices(root)) < root.size,
{
    let sizes = child_sizes(root);
    let r = ranked_children(root);
    assert(root.children@.len() == root.children.len());
    lemma_ranked_upto_order(sizes, sizes.len() as int);
    lemma_idx_sum_ranked(sizes, sizes.len() as int);
    assert(sizes.take(sizes.len() as int) =~= sizes);
    lemma_idx_sum_split(sizes, r, CHART_ITEMS as int);
    let rest = r.skip(CHART_ITEMS as int);
    lemma_ranked_nonzero(sizes, sizes.len() as int);
    assert(rest.last() == r[r.len() - 1]);
    assert(sizes[rest.last() as int] != 0);
}

/// The chart shows the largest direct children: as many as have a nonzero
/// size, up to `CHART_ITEMS`, largest first, and no child left out is larger
/// than any child shown.
pub proof fn lemma_chart_largest(root: DirNode)
    ensures
        ({
            let sizes = child_sizes(root);
            let idx = chart_indices(root);
            let nz = nonzero_count(sizes, root.children@.len() as int);
            &&& idx.len() == (if nz > CHART_ITEMS { CHART_ITEMS as nat } else { nz })
            &&& forall|i: int, j: int|
                0 <= i < j < idx.len() ==> sizes[#[trigger] idx[i] as int] >= sizes[#[trigger] idx[j] as int]
            &&& forall|p: int, c: int|
                0 <= p < idx.len() && 0 <= c < sizes.len() && !idx.contains(c as usize)
                    ==> #[trigger] sizes[c] <= #[trigger] sizes[idx[p] as int]
        }),
{
    let sizes = child_sizes(root);
    let r = ranked_children(root);
    let idx = chart_indices(root);
    assert(root.children@.len() == root.children.len());
    lemma_ranked_upto_order(sizes, sizes.len() as int);
    lemma_ranked_upto_bounds(sizes, sizes.len() as int);
    assert forall|i: int, j: int| 0 <= i < j < idx.len() implies sizes[#[trigger] idx[i] as int]
        >= sizes[#[trigger] idx[j] as int] by {
        assert(idx[i] == r[i] && idx[j] == r[j]);
    }
    assert forall|p: int, c: int|
        0 <= p < idx.len() && 0 <= c < sizes.len() && !idx.contains(c as usize) implies #[trigger] sizes[c]
        <= #[trigger] sizes[idx[p] as int] by {
        if sizes[c] != 0 {
            assert(r.contains(c as usize));
            let q = choose|q: int| 0 <= q < r.len() && r[q] == c as usize;
            if q < idx.len() {
                assert(idx[q] == r[q]);
                assert(idx.contains(c as usize));
            }
            assert(idx[p] == r[p]);
            assert(p < q);
        }
    }
}

} // verus!
