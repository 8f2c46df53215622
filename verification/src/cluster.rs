//! Label clusters: centroid construction, and balanced 2-means splitting.

use vstd::prelude::*;
use crate::sparse::{
    Entry, MAX_COLS, MAX_ROWS, MAX_ACC, VAL_MAX, abs1, sv_wf, sv_bounded, sv_at, sv_sumsq,
    spec_prune,
    spec_normalize, spec_sparse_of, lemma_sparse_of_wf, lemma_normalize_wf, lemma_prune_wf,
    lemma_sv_len, acc_add_row, dense_to_sparse, l2_normalize, prune_with_threshold,
    lemma_sv_at_bound, spec_dot,
};
use crate::fx::SCALE;
use crate::matrix::SparseMat;
use crate::dataset::{DataSet, labels_wf, label_set_contains};
use crate::hyper::ClusterHyperParam;
use crate::linear::{spec_raw_weight_rows, sel_col_sum};

verus! {

/// Whether some example of the dataset carries label `l`.
pub open spec fn label_has_example(ds: &DataSet, l: int) -> bool {
    exists|i: int|
        0 <= i < ds.label_sets@.len() && (#[trigger] ds.label_sets@[i])@.contains(l as u32)
}

/// The value that label `l`'s raw (unnormalised) centroid holds at
/// column `c`, summed over the first `n` examples.
pub open spec fn centroid_col_upto(ds: &DataSet, l: int, c: int, n: int) -> int
    decreases n,
{
    if n <= 0 {
        0
    } else {
        centroid_col_upto(ds, l, c, n - 1) + if ds.label_sets@[n - 1]@.contains(l as u32) {
            sv_at(ds.feature_lists@[n - 1]@, c)
        } else {
            0
        }
    }
}

/// The raw centroid of label `l` as a dense vector: the per-column sum
/// of the feature vectors of the examples carrying `l`.
pub open spec fn spec_centroid_raw(ds: &DataSet, l: int) -> Seq<i64> {
    Seq::new(
        ds.n_features as nat,
        |c: int| centroid_col_upto(ds, l, c, ds.feature_lists@.len() as int) as i64,
    )
}

/// The finished centroid of label `l`: the raw sum, L2-normalised, then
/// pruned at threshold `t`.
pub open spec fn spec_centroid(ds: &DataSet, l: int, t: int) -> Seq<Entry> {
    spec_prune(spec_normalize(spec_sparse_of(spec_centroid_raw(ds, l))), t)
}

proof fn lemma_centroid_col_bound(ds: &DataSet, l: int, c: int, n: int)
    requires
        ds.wf(),
        0 <= n <= ds.feature_lists@.len(),
    ensures
        abs1(centroid_col_upto(ds, l, c, n)) <= n * VAL_MAX,
    decreases n,
{
    if n > 0 {
        lemma_centroid_col_bound(ds, l, c, n - 1);
        lemma_sv_at_bound(ds.feature_lists@[n - 1]@, ds.n_features as int, VAL_MAX as int, c);
    }
}

/// Computes, for every label that occurs in the dataset, its pruned,
/// L2-normalised centroid. Labels come out in increasing order. The
/// feature vectors must already be normalised (as the trainer ensures).
pub fn compute_label_centroids(ds: &DataSet, threshold: i64) -> (r: (Vec<u32>, Vec<Vec<Entry>>))
    requires
        ds.wf(),
        threshold >= 0,
    ensures
        labels_wf(r.0@, ds.n_labels as int),
        r.1@.len() == r.0@.len(),
        forall|l: u32| r.0@.contains(l) <==> (l < ds.n_labels && label_has_example(ds, l as int)),
        forall|j: int|
            0 <= j < r.0@.len() ==> (#[trigger] r.1@[j])@ == spec_centroid(
                ds,
                r.0@[j] as int,
                threshold as int,
            ),
        forall|j: int|
            0 <= j < r.1@.len() ==> sv_wf((#[trigger] r.1@[j])@, ds.n_features as int),
        forall|j: int|
            0 <= j < r.1@.len() ==> sv_bounded((#[trigger] r.1@[j])@, SCALE as int),
{
    let n_labels = ds.n_labels as usize;
    let n_examples = ds.feature_lists.len();
    let n_features = ds.n_features as usize;
    let mut labels: Vec<u32> = Vec::new();
    let mut vecs: Vec<Vec<Entry>> = Vec::new();
    for l in 0..n_labels
        invariant
            n_labels == ds.n_labels as int,
            n_examples == ds.feature_lists@.len(),
            n_features == ds.n_features as int,
            ds.wf(),
            threshold >= 0,
            labels@.len() == vecs@.len(),
            forall|k: int| 0 <= k < labels@.len() ==> (#[trigger] labels@[k]) < l,
            forall|k1: int, k2: int| 0 <= k1 < k2 < labels@.len() ==> labels@[k1] < labels@[k2],
            forall|l2: u32|
                labels@.contains(l2) <==> (l2 < l && label_has_example(ds, l2 as int)),
            forall|j: int|
                0 <= j < labels@.len() ==> (#[trigger] vecs@[j])@ == spec_centroid(
                    ds,
                    labels@[j] as int,
                    threshold as int,
                ),
            forall|j: int|
                0 <= j < vecs@.len() ==> sv_wf((#[trigger] vecs@[j])@, ds.n_features as int),
            forall|j: int|
                0 <= j < vecs@.len() ==> sv_bounded((#[trigger] vecs@[j])@, SCALE as int),
    {
        let mut acc: Vec<i64> = vec![0i64; n_features];
        let mut found = false;
        assert(forall|c: int| 0 <= c < n_features ==> acc@[c] == 0);
        for i in 0..n_examples
            invariant
                n_examples == ds.feature_lists@.len(),
                n_features == ds.n_features as int,
                l < n_labels == ds.n_labels as int,
                ds.wf(),
                acc@.len() == n_features,
                forall|c: int|
                    0 <= c < n_features ==> #[trigger] acc@[c] as int == centroid_col_upto(
                        ds,
                        l as int,
                        c,
                        i as int,
                    ),
                forall|c: int| 0 <= c < n_features ==> abs1(#[trigger] acc@[c] as int) <= (
                i as int) * VAL_MAX,
                found <==> exists|i2: int|
                    0 <= i2 < i && (#[trigger] ds.label_sets@[i2])@.contains(l as u32),
        {
            if label_set_contains(&ds.label_sets[i], l as u32) {
                proof {
                    assert((i as int) * VAL_MAX + VAL_MAX == (i as int + 1) * VAL_MAX)
                        by (nonlinear_arith);
                    assert((i as int) * VAL_MAX <= (MAX_ROWS - 1) * VAL_MAX) by (nonlinear_arith)
                        requires 0 <= i as int <= MAX_ROWS - 1,
                    ;
                    assert((MAX_ROWS - 1) * VAL_MAX == MAX_ACC - VAL_MAX);
                }
                acc_add_row(&mut acc, &ds.feature_lists[i]);
                found = true;
                proof {
                    assert forall|c: int| 0 <= c < n_features implies abs1(
                        #[trigger] acc@[c] as int,
                    ) <= (i as int + 1) * VAL_MAX by {
                        lemma_sv_at_bound(
                            ds.feature_lists@[i as int]@,
                            ds.n_features as int,
                            VAL_MAX as int,
                            c,
                        );
                    }
                    assert((#[trigger] ds.label_sets@[i as int])@.contains(l as u32));
                }
            } else {
                proof {
                    assert((i as int) * VAL_MAX <= (i as int + 1) * VAL_MAX) by (nonlinear_arith);
                }
            }
        }
        if found {
            proof {
                assert(acc@ =~= spec_centroid_raw(ds, l as int));
                assert(forall|c: int|
                    0 <= c < acc@.len() ==> abs1(#[trigger] acc@[c] as int) <= MAX_ACC as int) by {
                    assert((n_examples as int) * VAL_MAX <= MAX_ACC as int) by (nonlinear_arith)
                        requires 0 <= n_examples as int <= MAX_ROWS,
                    ;
                }
                lemma_sparse_of_wf(acc@, MAX_ACC as int);
            }
            let sp = dense_to_sparse(&acc);
            proof {
                lemma_sv_len(sp@, n_features as int);
            }
            let nm = l2_normalize(&sp);
            proof {
                lemma_normalize_wf(sp@, n_features as int);
            }
            let pr = prune_with_threshold(&nm, threshold);
            proof {
                lemma_prune_wf(nm@, n_features as int, SCALE as int, threshold as int);
            }
            let ghost old_labels = labels@;
            labels.push(l as u32);
            vecs.push(pr);
            proof {
                assert forall|l2: u32|
                    labels@.contains(l2) <==> (l2 < l + 1 && label_has_example(ds, l2 as int)) by {
                    assert(labels@ == old_labels.push(l as u32));
                    if labels@.contains(l2) {
                        let k = choose|k: int| 0 <= k < labels@.len() && labels@[k] == l2;
                        if k < old_labels.len() {
                            assert(old_labels.contains(l2));
                        }
                    } else {
                        assert(!old_labels.contains(l2)) by {
                            if old_labels.contains(l2) {
                                let k = choose|k: int|
                                    0 <= k < old_labels.len() && old_labels[k] == l2;
                                assert(labels@[k] == l2);
                            }
                        }
                    }
                    if l2 == l {
                        assert(labels@[labels@.len() - 1] == l2);
                    }
                }
            }
        } else {
            proof {
                assert(!label_has_example(ds, l as int));
                assert forall|l2: u32|
                    labels@.contains(l2) <==> (l2 < l + 1 && label_has_example(ds, l2 as int)) by {
                }
            }
        }
    }
    proof {
        assert forall|l2: u32|
            labels@.contains(l2) <==> (l2 < ds.n_labels && label_has_example(ds, l2 as int)) by {}
    }
    (labels, vecs)
}

/// The L2 invariant at the centroid level: with no threshold pruning, a
/// label's centroid is exactly the normalised raw sum, and its sum of
/// squares equals one fixed-point unit squared up to the truncation
/// error bounded by `lemma_normalize_sumsq`.
pub proof fn lemma_centroid_l2(ds: &DataSet, l: int)
    requires
        sv_sumsq(spec_sparse_of(spec_centroid_raw(ds, l))) >= 1,
    ensures
        ({
            let base = spec_sparse_of(spec_centroid_raw(ds, l));
            let n = crate::sparse::spec_isqrt(sv_sumsq(base));
            &&& spec_centroid(ds, l, 0) == spec_normalize(base)
            &&& sv_sumsq(spec_centroid(ds, l, 0)) * (n * n) <= SCALE * SCALE * ((n + 1) * (n + 1)
                - 1)
            &&& sv_sumsq(spec_centroid(ds, l, 0)) >= SCALE * SCALE - 2 * SCALE * base.len()
        }),
{
    let base = spec_sparse_of(spec_centroid_raw(ds, l));
    crate::sparse::lemma_prune_zero(spec_normalize(base));
    crate::sparse::lemma_normalize_sumsq(base);
}

/// Pruning monotonicity at the centroid level: raising the centroid
/// threshold never adds an entry to any label's centroid.
pub proof fn lemma_centroid_prune_monotone(ds: &DataSet, l: int, t1: int, t2: int)
    requires
        t1 <= t2,
    ensures
        forall|e: Entry|
            spec_centroid(ds, l, t2).contains(e) ==> spec_centroid(ds, l, t1).contains(e),
{
    crate::sparse::lemma_prune_monotone(
        spec_normalize(spec_sparse_of(spec_centroid_raw(ds, l))),
        t1,
        t2,
    );
}

/// A row of the centroid matrix together with its ranking key.
#[derive(Clone, Copy, Debug, PartialEq, Eq, Structural)]
pub struct RankItem {
    pub key: i64,
    pub row: usize,
}

/// Ranking order: larger keys first, ties broken by smaller row index.
pub open spec fn rank_le(a: RankItem, b: RankItem) -> bool {
    a.key > b.key || (a.key == b.key && a.row <= b.row)
}

/// Sorts items by decreasing key, ties by increasing row index.
pub fn sort_rank(items: &Vec<RankItem>) -> (r: Vec<RankItem>)
    ensures
        r@.len() == items@.len(),
        r@.to_multiset() == items@.to_multiset(),
        forall|i: int, j: int| 0 <= i < j < r@.len() ==> rank_le(r@[i], r@[j]),
{
    broadcast use vstd::seq_lib::group_to_multiset_ensures;

    let n = items.len();
    let mut out: Vec<RankItem> = Vec::new();
    for k in 0..n
        invariant
            n == items@.len(),
            out@.len() == k,
            out@.to_multiset() == items@.take(k as int).to_multiset(),
            forall|i: int, j: int| 0 <= i < j < out@.len() ==> rank_le(out@[i], out@[j]),
    {
        let e = items[k];
        let mut pos = out.len();
        while pos > 0 && !(out[pos - 1].key > e.key || (out[pos - 1].key == e.key && out[pos
            - 1].row <= e.row))
            invariant
                pos <= out@.len(),
                forall|q: int| pos <= q < out@.len() ==> rank_le(e, #[trigger] out@[q]),
                forall|i: int, j: int| 0 <= i < j < out@.len() ==> rank_le(out@[i], out@[j]),
            decreases pos,
        {
            pos = pos - 1;
        }
        let ghost pre = out@;
        proof {
            if pos > 0 {
                assert(rank_le(pre[pos - 1], e));
            }
            assert forall|q: int| 0 <= q < pos implies rank_le(#[trigger] pre[q], e) by {
                if q < pos - 1 {
                    assert(rank_le(pre[q], pre[pos - 1]));
                }
            }
        }
        out.insert(pos, e);
        proof {
            assert(out@ == pre.insert(pos as int, e));
            pre.insert_ensures(pos as int, e);
            vstd::seq_lib::to_multiset_insert(pre, pos as int, e);
            crate::sparse::lemma_take_succ(items@, k as int);
            vstd::seq_lib::to_multiset_build(items@.take(k as int), e);
            assert(items@.take(k as int + 1).to_multiset() == items@.take(
                k as int,
            ).to_multiset().insert(e));
            assert forall|i: int, j: int| 0 <= i < j < out@.len() implies rank_le(
                out@[i],
                out@[j],
            ) by {
                assert(out@[i] == if i < pos { pre[i] } else if i == pos { e } else {
                    pre[i - 1]
                });
                assert(out@[j] == if j < pos { pre[j] } else if j == pos { e } else {
                    pre[j - 1]
                });
            }
        }
    }
    proof {
        assert(items@.take(n as int) =~= items@);
    }
    out
}

/// Number of positions `p < h` whose item's row is below `v`.
pub open spec fn cnt_rows_below(s: Seq<RankItem>, h: int, v: int) -> int
    decreases h,
{
    if h <= 0 {
        0
    } else {
        cnt_rows_below(s, h - 1, v) + if s[h - 1].row < v {
            1int
        } else {
            0int
        }
    }
}

proof fn lemma_cnt_step(s: Seq<RankItem>, h: int, v: int, p0: int)
    requires
        0 <= h <= s.len(),
        forall|p1: int, p2: int| 0 <= p1 < p2 < s.len() ==> s[p1].row != s[p2].row,
        0 <= p0 < s.len(),
        s[p0].row == v,
    ensures
        cnt_rows_below(s, h, v + 1) == cnt_rows_below(s, h, v) + if p0 < h {
            1int
        } else {
            0int
        },
    decreases h,
{
    if h > 0 {
        lemma_cnt_step(s, h - 1, v, p0);
        if h - 1 != p0 {
            assert(s[h - 1].row != v);
        }
    }
}

proof fn lemma_cnt_none(s: Seq<RankItem>, h: int)
    requires
        0 <= h <= s.len(),
    ensures
        cnt_rows_below(s, h, 0) == 0,
    decreases h,
{
    if h > 0 {
        lemma_cnt_none(s, h - 1);
    }
}

proof fn lemma_cnt_all(s: Seq<RankItem>, h: int, n: int)
    requires
        0 <= h <= s.len(),
        forall|p: int| 0 <= p < s.len() ==> (#[trigger] s[p]).row < n,
    ensures
        cnt_rows_below(s, h, n) == h,
    decreases h,
{
    if h > 0 {
        lemma_cnt_all(s, h - 1, n);
    }
}

/// Some position in `s` holds the row `v`.
pub open spec fn row_present(s: Seq<RankItem>, v: int) -> bool {
    exists|p: int| 0 <= p < s.len() && (#[trigger] s[p]).row == v
}

/// Finds the position of the item whose row is `v`.
fn find_row(sorted: &Vec<RankItem>, v: usize) -> (r: usize)
    requires
        row_present(sorted@, v as int),
    ensures
        r < sorted@.len(),
        sorted@[r as int].row == v,
{
    let n = sorted.len();
    let mut p: usize = 0;
    while p < n
        invariant
            n == sorted@.len(),
            p <= n,
            forall|q: int| 0 <= q < p ==> (#[trigger] sorted@[q]).row != v,
            row_present(sorted@, v as int),
        decreases n - p,
    {
        if sorted[p].row == v {
            return p;
        }
        p = p + 1;
    }
    proof {
        let q = choose|q: int| 0 <= q < sorted@.len() && (#[trigger] sorted@[q]).row == v;
        assert(false);
    }
    0
}

/// Ranks the rows `0 .. n` by their keys (larger first, ties by row) and
/// splits them into the top half and the bottom half, each listed in
/// increasing row order. The halves partition the rows and differ in
/// size by at most one.
pub fn rank_and_halve(items: &Vec<RankItem>) -> (r: (Vec<usize>, Vec<usize>))
    requires
        items@.len() <= MAX_ROWS,
        forall|k: int| 0 <= k < items@.len() ==> (#[trigger] items@[k]).row == k,
    ensures
        r.0@.len() == (items@.len() + 1) / 2,
        r.1@.len() == items@.len() - (items@.len() + 1) / 2,
        forall|j1: int, j2: int| 0 <= j1 < j2 < r.0@.len() ==> r.0@[j1] < r.0@[j2],
        forall|j1: int, j2: int| 0 <= j1 < j2 < r.1@.len() ==> r.1@[j1] < r.1@[j2],
        forall|j: int| 0 <= j < r.0@.len() ==> (#[trigger] r.0@[j]) < items@.len(),
        forall|j: int| 0 <= j < r.1@.len() ==> (#[trigger] r.1@[j]) < items@.len(),
        forall|v: usize| v < items@.len() ==> (r.0@.contains(v) <==> !r.1@.contains(v)),
        forall|va: usize, vb: usize|
            r.0@.contains(va) && r.1@.contains(vb) ==> rank_le(
                items@[va as int],
                items@[vb as int],
            ),
{
    broadcast use vstd::seq_lib::group_to_multiset_ensures;

    let n = items.len();
    let sorted = sort_rank(items);
    proof {
        assert forall|x: RankItem| sorted@.contains(x) implies items@.contains(x) by {
            assert(sorted@.to_multiset().count(x) > 0);
        }
        assert forall|x: RankItem| items@.contains(x) implies sorted@.contains(x) by {
            assert(items@.to_multiset().count(x) > 0);
        }
        assert forall|p: int| 0 <= p < sorted@.len() implies (#[trigger] sorted@[p]).row
            < n by {
            assert(sorted@.contains(sorted@[p]));
            let k = choose|k: int| 0 <= k < items@.len() && items@[k] == sorted@[p];
        }
        assert forall|p1: int, p2: int| 0 <= p1 < p2 < sorted@.len() implies sorted@[p1].row
            != sorted@[p2].row by {
            if sorted@[p1].row == sorted@[p2].row {
                assert(sorted@.contains(sorted@[p1]));
                assert(sorted@.contains(sorted@[p2]));
                let k1 = choose|k: int| 0 <= k < items@.len() && items@[k] == sorted@[p1];
                let k2 = choose|k: int| 0 <= k < items@.len() && items@[k] == sorted@[p2];
                assert(k1 == sorted@[p1].row && k2 == sorted@[p2].row);
                assert(sorted@[p1] == sorted@[p2]);
                assert(items@.no_duplicates());
                items@.lemma_multiset_has_no_duplicates();
                assert(items@.to_multiset().count(sorted@[p1]) == 1);
                sorted@.lemma_multiset_has_no_duplicates_conv();
                assert(sorted@.no_duplicates());
            }
        }
        assert forall|v: usize| v < n implies #[trigger] row_present(sorted@, v as int) by {
            assert(items@[v as int].row == v);
            assert(items@.contains(items@[v as int]));
            assert(sorted@.contains(items@[v as int]));
            let p = choose|p: int| 0 <= p < sorted@.len() && sorted@[p] == items@[v as int];
            assert(0 <= p < sorted@.len() && sorted@[p].row == v);
        }
    }
    let half = (n + 1) / 2;
    proof {
        lemma_cnt_none(sorted@, half as int);
    }
    let mut a: Vec<usize> = Vec::new();
    let mut b: Vec<usize> = Vec::new();
    for v in 0..n
        invariant
            n == items@.len(),
            n == sorted@.len(),
            half == (n + 1) / 2,
            forall|p: int| 0 <= p < sorted@.len() ==> (#[trigger] sorted@[p]).row < n,
            forall|p1: int, p2: int|
                0 <= p1 < p2 < sorted@.len() ==> sorted@[p1].row != sorted@[p2].row,
            forall|v2: usize| v2 < n ==> #[trigger] row_present(sorted@, v2 as int),
            a@.len() == cnt_rows_below(sorted@, half as int, v as int),
            b@.len() + a@.len() == v,
            forall|j: int| 0 <= j < a@.len() ==> (#[trigger] a@[j]) < v,
            forall|j: int| 0 <= j < b@.len() ==> (#[trigger] b@[j]) < v,
            forall|j1: int, j2: int| 0 <= j1 < j2 < a@.len() ==> a@[j1] < a@[j2],
            forall|j1: int, j2: int| 0 <= j1 < j2 < b@.len() ==> b@[j1] < b@[j2],
            forall|v2: usize| v2 < v ==> (a@.contains(v2) <==> !b@.contains(v2)),
            forall|v2: usize|
                v2 < v ==> (a@.contains(v2) <==> exists|p: int|
                    0 <= p < half && (#[trigger] sorted@[p]).row == v2),
    {
        let p: usize = find_row(&sorted, v);
        let ghost olda = a@;
        let ghost oldb = b@;
        proof {
            lemma_cnt_step(sorted@, half as int, v as int, p as int);
        }
        if p < half {
            a.push(v);
        } else {
            b.push(v);
        }
        proof {
            assert forall|v2: usize| v2 < v + 1 implies (a@.contains(v2) <==> !b@.contains(
                v2,
            )) by {
                if v2 < v {
                    assert(olda.contains(v2) <==> a@.contains(v2)) by {
                        if a@.contains(v2) && a@.len() > olda.len() {
                            let j = choose|j: int| 0 <= j < a@.len() && a@[j] == v2;
                            assert(j < olda.len());
                        }
                        if olda.contains(v2) {
                            let j = choose|j: int| 0 <= j < olda.len() && olda[j] == v2;
                            assert(a@[j] == v2);
                        }
                    }
                    assert(oldb.contains(v2) <==> b@.contains(v2)) by {
                        if b@.contains(v2) && b@.len() > oldb.len() {
                            let j = choose|j: int| 0 <= j < b@.len() && b@[j] == v2;
                            assert(j < oldb.len());
                        }
                        if oldb.contains(v2) {
                            let j = choose|j: int| 0 <= j < oldb.len() && oldb[j] == v2;
                            assert(b@[j] == v2);
                        }
                    }
                } else {
                    if p < half {
                        assert(a@[a@.len() - 1] == v2);
                        assert(!b@.contains(v2)) by {
                            if b@.contains(v2) {
                                let j = choose|j: int| 0 <= j < b@.len() && b@[j] == v2;
                                assert(j < oldb.len());
                            }
                        }
                    } else {
                        assert(b@[b@.len() - 1] == v2);
                        assert(!a@.contains(v2)) by {
                            if a@.contains(v2) {
                                let j = choose|j: int| 0 <= j < a@.len() && a@[j] == v2;
                                assert(j < olda.len());
                            }
                        }
                    }
                }
            }
            assert forall|v2: usize|
                v2 < v + 1 implies (a@.contains(v2) <==> exists|p2: int|
                    0 <= p2 < half && (#[trigger] sorted@[p2]).row == v2) by {
                if v2 < v {
                    assert(olda.contains(v2) <==> a@.contains(v2)) by {
                        if a@.contains(v2) && a@.len() > olda.len() {
                            let j = choose|j: int| 0 <= j < a@.len() && a@[j] == v2;
                            assert(j < olda.len());
                        }
                        if olda.contains(v2) {
                            let j = choose|j: int| 0 <= j < olda.len() && olda[j] == v2;
                            assert(a@[j] == v2);
                        }
                    }
                } else {
                    if p < half {
                        assert(a@[a@.len() - 1] == v2);
                        assert(sorted@[p as int].row == v2);
                    } else {
                        assert(!a@.contains(v2)) by {
                            if a@.contains(v2) {
                                let j = choose|j: int| 0 <= j < a@.len() && a@[j] == v2;
                                assert(j < olda.len());
                            }
                        }
                        assert(!(exists|p2: int|
                            0 <= p2 < half && (#[trigger] sorted@[p2]).row == v2)) by {
                            if exists|p2: int|
                                0 <= p2 < half && (#[trigger] sorted@[p2]).row == v2 {
                                let p2 = choose|p2: int|
                                    0 <= p2 < half && (#[trigger] sorted@[p2]).row == v2;
                                assert(p2 != p as int);
                            }
                        }
                    }
                }
            }
        }
    }
    proof {
        lemma_cnt_all(sorted@, half as int, n as int);
        assert forall|va: usize, vb: usize| a@.contains(va) && b@.contains(vb) implies rank_le(
            items@[va as int],
            items@[vb as int],
        ) by {
            assert(va < n && vb < n) by {
                let ja = choose|j: int| 0 <= j < a@.len() && a@[j] == va;
                let jb = choose|j: int| 0 <= j < b@.len() && b@[j] == vb;
            }
            let pa = choose|p: int| 0 <= p < half && (#[trigger] sorted@[p]).row == va;
            assert(row_present(sorted@, vb as int));
            let pb = choose|p: int| 0 <= p < sorted@.len() && (#[trigger] sorted@[p]).row == vb;
            assert(pb >= half) by {
                if pb < half {
                    assert(a@.contains(vb));
                }
            }
            assert(rank_le(sorted@[pa], sorted@[pb]));
            assert(sorted@[pa] == items@[va as int]) by {
                assert(sorted@.contains(sorted@[pa]));
                let k = choose|k: int| 0 <= k < items@.len() && items@[k] == sorted@[pa];
                assert(items@[k].row == k);
            }
            assert(sorted@[pb] == items@[vb as int]) by {
                assert(sorted@.contains(sorted@[pb]));
                let k = choose|k: int| 0 <= k < items@.len() && items@[k] == sorted@[pb];
                assert(items@[k].row == k);
            }
        }
    }
    (a, b)
}

/// Whether two sparse vectors hold the same entries.
pub fn sv_eq(a: &Vec<Entry>, b: &Vec<Entry>) -> (r: bool)
    ensures
        r <==> a@ == b@,
{
    if a.len() != b.len() {
        proof {
            assert(a@.len() != b@.len());
        }
        return false;
    }
    let n = a.len();
    for i in 0..n
        invariant
            n == a.len() == b.len(),
            forall|k: int| 0 <= k < i ==> a@[k] == b@[k],
    {
        if a[i].index != b[i].index || a[i].value != b[i].value {
            return false;
        }
    }
    proof {
        assert(a@ =~= b@);
    }
    true
}

/// Whether two index lists are equal.
pub fn usize_vec_eq(a: &Vec<usize>, b: &Vec<usize>) -> (r: bool)
    ensures
        r <==> a@ == b@,
{
    if a.len() != b.len() {
        proof {
            assert(a@.len() != b@.len());
        }
        return false;
    }
    let n = a.len();
    for i in 0..n
        invariant
            n == a.len() == b.len(),
            forall|k: int| 0 <= k < i ==> a@[k] == b@[k],
    {
        if a[i] != b[i] {
            return false;
        }
    }
    proof {
        assert(a@ =~= b@);
    }
    true
}

/// Two index lists that split the rows `0 .. n` into a top half and a
/// bottom half: sorted, in range, complementary, balanced.
pub open spec fn halves_partition(n: int, a: Seq<usize>, b: Seq<usize>) -> bool {
    &&& a.len() == (n + 1) / 2
    &&& b.len() == n - (n + 1) / 2
    &&& forall|j1: int, j2: int| 0 <= j1 < j2 < a.len() ==> a[j1] < a[j2]
    &&& forall|j1: int, j2: int| 0 <= j1 < j2 < b.len() ==> b[j1] < b[j2]
    &&& forall|j: int| 0 <= j < a.len() ==> (#[trigger] a[j]) < n
    &&& forall|j: int| 0 <= j < b.len() ==> (#[trigger] b[j]) < n
    &&& forall|v: usize| v < n ==> (a.contains(v) <==> !b.contains(v))
}

/// The labels selected by an index list.
pub open spec fn sel_labels(labels: Seq<u32>, idx: Seq<usize>) -> Seq<u32> {
    Seq::new(idx.len(), |j: int| labels[idx[j] as int])
}

/// Selecting a label list through two complementary sorted index lists
/// splits it: together the selections hold exactly the original labels.
pub proof fn lemma_select_partition(labels: Seq<u32>, a: Seq<usize>, b: Seq<usize>)
    requires
        labels.len() <= MAX_ROWS,
        forall|j1: int, j2: int| 0 <= j1 < j2 < a.len() ==> a[j1] < a[j2],
        forall|j1: int, j2: int| 0 <= j1 < j2 < b.len() ==> b[j1] < b[j2],
        forall|j: int| 0 <= j < a.len() ==> (#[trigger] a[j]) < labels.len(),
        forall|j: int| 0 <= j < b.len() ==> (#[trigger] b[j]) < labels.len(),
        forall|v: usize| v < labels.len() ==> (a.contains(v) <==> !b.contains(v)),
    ensures
        sel_labels(labels, a).to_multiset().add(sel_labels(labels, b).to_multiset())
            == labels.to_multiset(),
    decreases labels.len(), (if labels.len() > 0 && a.contains(((labels.len() - 1) as usize)) {
        0int
    } else {
        1int
    }),
{
    broadcast use vstd::seq_lib::group_to_multiset_ensures;

    let n = labels.len() as int;
    if n == 0 {
        assert(a.len() == 0 && b.len() == 0) by {
            if a.len() > 0 {
                assert(a[0] < 0);
            }
            if b.len() > 0 {
                assert(b[0] < 0);
            }
        }
        assert(sel_labels(labels, a) =~= Seq::<u32>::empty());
        assert(sel_labels(labels, b) =~= Seq::<u32>::empty());
        assert(labels =~= Seq::<u32>::empty());
        assert(sel_labels(labels, a).to_multiset().add(sel_labels(labels, b).to_multiset())
            =~= labels.to_multiset());
    } else {
        let lastv = (n - 1) as usize;
        if a.contains(lastv) {
            assert(a.len() > 0);
            let k = choose|k: int| 0 <= k < a.len() && a[k] == lastv;
            assert(k == a.len() - 1) by {
                if k < a.len() - 1 {
                    assert(a[k] < a[a.len() - 1]);
                    assert(a[a.len() - 1] < labels.len());
                }
            }
            let a2 = a.drop_last();
            let labels2 = labels.drop_last();
            assert(forall|j: int| 0 <= j < a2.len() ==> #[trigger] a2[j] == a[j]);
            assert(forall|j: int| 0 <= j < a2.len() ==> (#[trigger] a2[j]) < lastv) by {
                assert(forall|j: int| 0 <= j < a2.len() ==> (#[trigger] a[j]) < a[a.len() - 1]);
            }
            assert(forall|j: int| 0 <= j < b.len() ==> (#[trigger] b[j]) < n - 1) by {
                assert(!b.contains(lastv));
                assert forall|j: int| 0 <= j < b.len() implies (#[trigger] b[j]) < n - 1 by {
                    assert(b[j] != lastv);
                }
            }
            assert forall|v: usize| v < labels2.len() implies (a2.contains(v) <==> !b.contains(
                v,
            )) by {
                assert(a.contains(v) <==> !b.contains(v));
                if a.contains(v) {
                    let k2 = choose|k2: int| 0 <= k2 < a.len() && a[k2] == v;
                    assert(a[a.len() - 1] == lastv);
                    assert(v != lastv);
                    assert(k2 < a.len() - 1);
                    assert(a2[k2] == v);
                }
                if a2.contains(v) {
                    let k2 = choose|k2: int| 0 <= k2 < a2.len() && a2[k2] == v;
                    assert(a[k2] == v);
                }
            }
            lemma_select_partition(labels2, a2, b);
            assert(sel_labels(labels2, b) =~= sel_labels(labels, b)) by {
                assert(forall|j: int|
                    0 <= j < b.len() ==> labels2[b[j] as int] == labels[(#[trigger] b[j]) as int]);
            }
            assert(sel_labels(labels, a) =~= sel_labels(labels2, a2).push(labels[n - 1])) by {
                assert(forall|j: int|
                    0 <= j < a2.len() ==> labels2[a2[j] as int] == labels[(#[trigger] a[j]) as int]);
            }
            assert(labels =~= labels2.push(labels[n - 1]));
            assert(sel_labels(labels, a).to_multiset() == sel_labels(
                labels2,
                a2,
            ).to_multiset().insert(labels[n - 1]));
            assert(labels.to_multiset() == labels2.to_multiset().insert(labels[n - 1]));
            assert(sel_labels(labels, a).to_multiset().add(sel_labels(labels, b).to_multiset())
                =~= labels.to_multiset());
        } else {
            assert(b.contains(lastv)) by {
                assert(lastv < labels.len());
            }
            lemma_select_partition(labels, b, a);
            assert(sel_labels(labels, a).to_multiset().add(sel_labels(labels, b).to_multiset())
                =~= sel_labels(labels, b).to_multiset().add(sel_labels(labels, a).to_multiset()));
        }
    }
}

/// All rows of the sequence are identical.
pub open spec fn rows_identical(rows: Seq<Vec<Entry>>) -> bool {
    forall|i: int| 0 <= i < rows.len() ==> (#[trigger] rows[i])@ == rows[0]@
}

/// All rows of the matrix are identical.
pub open spec fn all_rows_equal(m: &SparseMat) -> bool {
    rows_identical(m.rows@)
}

/// The L2-normalised sum of the selected rows.
fn centroid_of_rows(mat: &SparseMat, idx: &Vec<usize>) -> (r: Vec<Entry>)
    requires
        mat.wf(),
        mat.bounded(SCALE as int),
        forall|j: int| 0 <= j < idx@.len() ==> (#[trigger] idx@[j]) < mat.rows@.len(),
        idx@.len() <= MAX_ROWS,
    ensures
        sv_wf(r@, mat.n_cols as int),
        sv_bounded(r@, SCALE as int),
        r@ == cent_of(mat.rows@, mat.n_cols as nat, idx@),
{
    let n_cols = mat.n_cols;
    let mut acc: Vec<i64> = vec![0i64; n_cols];
    assert(forall|c: int| 0 <= c < n_cols ==> acc@[c] == 0);
    let n = idx.len();
    for j in 0..n
        invariant
            n == idx@.len(),
            n <= MAX_ROWS,
            n_cols == mat.n_cols,
            mat.wf(),
            mat.bounded(SCALE as int),
            forall|j2: int| 0 <= j2 < idx@.len() ==> (#[trigger] idx@[j2]) < mat.rows@.len(),
            acc@.len() == n_cols,
            forall|c: int|
                0 <= c < n_cols ==> #[trigger] acc@[c] as int == sel_col_sum(
                    mat.rows@,
                    idx@.take(j as int),
                    c,
                ),
            forall|c: int|
                0 <= c < n_cols ==> abs1(#[trigger] acc@[c] as int) <= (j as int) * SCALE,
    {
        let row_i = idx[j];
        proof {
            assert((j as int) * SCALE <= (MAX_ROWS - 1) * SCALE) by (nonlinear_arith)
                requires 0 <= j as int <= MAX_ROWS - 1,
            ;
            assert((MAX_ROWS - 1) * SCALE <= MAX_ACC - VAL_MAX);
            assert((j as int) * SCALE + SCALE == (j as int + 1) * SCALE) by (nonlinear_arith);
            crate::sparse::lemma_take_succ(idx@, j as int);
            assert(idx@.take(j + 1).drop_last() =~= idx@.take(j as int));
        }
        acc_add_row(&mut acc, &mat.rows[row_i]);
        proof {
            assert forall|c: int| 0 <= c < n_cols implies abs1(#[trigger] acc@[c] as int) <= (
            j as int + 1) * SCALE by {
                lemma_sv_at_bound(mat.rows@[row_i as int]@, mat.n_cols as int, SCALE as int, c);
            }
        }
    }
    proof {
        assert(idx@.take(n as int) =~= idx@);
        assert(acc@ =~= spec_raw_weight_rows(mat.rows@, mat.n_cols as nat, idx@));
        assert(forall|c: int|
            0 <= c < acc@.len() ==> abs1(#[trigger] acc@[c] as int) <= MAX_ACC as int) by {
            assert((n as int) * SCALE <= MAX_ACC as int) by (nonlinear_arith)
                requires 0 <= n as int <= MAX_ROWS,
            ;
        }
        lemma_sparse_of_wf(acc@, MAX_ACC as int);
    }
    let sp = dense_to_sparse(&acc);
    proof {
        lemma_sv_len(sp@, n_cols as int);
    }
    let nm = l2_normalize(&sp);
    proof {
        lemma_normalize_wf(sp@, n_cols as int);
    }
    nm
}

/// The similarity difference of row `i`: its dot product with the first
/// centroid minus its dot product with the second.
pub open spec fn sim_key_rows(rows: Seq<Vec<Entry>>, c0: Seq<Entry>, c1: Seq<Entry>, i: int) -> int {
    spec_dot(rows[i]@, c0) - spec_dot(rows[i]@, c1)
}

/// As `sim_key_rows`, over a matrix.
pub open spec fn sim_key(mat: &SparseMat, c0: Seq<Entry>, c1: Seq<Entry>, i: int) -> int {
    sim_key_rows(mat.rows@, c0, c1, i)
}

/// The two index lists split the rows by similarity to a centroid pair:
/// every row of `a` ranks at least as close to the first centroid as
/// every row of `b` (ties broken by row index).
pub open spec fn ranked_rows(
    rows: Seq<Vec<Entry>>,
    c0: Seq<Entry>,
    c1: Seq<Entry>,
    a: Seq<usize>,
    b: Seq<usize>,
) -> bool {
    forall|va: usize, vb: usize|
        a.contains(va) && b.contains(vb) ==> (sim_key_rows(rows, c0, c1, va as int) > sim_key_rows(
            rows,
            c0,
            c1,
            vb as int,
        ) || (sim_key_rows(rows, c0, c1, va as int) == sim_key_rows(rows, c0, c1, vb as int) && va
            < vb))
}

/// As `ranked_rows`, over a matrix.
pub open spec fn ranked_partition(
    mat: &SparseMat,
    c0: Seq<Entry>,
    c1: Seq<Entry>,
    a: Seq<usize>,
    b: Seq<usize>,
) -> bool {
    ranked_rows(mat.rows@, c0, c1, a, b)
}

/// The L2-normalised sum of the selected rows, as a spec-level function.
pub open spec fn cent_of(rows: Seq<Vec<Entry>>, n_cols: nat, sel: Seq<usize>) -> Seq<Entry> {
    spec_normalize(spec_sparse_of(spec_raw_weight_rows(rows, n_cols, sel)))
}

/// A child row sequence that selects the given rows of the parent.
pub open spec fn rows_selected(
    parent: Seq<Vec<Entry>>,
    idx: Seq<usize>,
    child: Seq<Vec<Entry>>,
) -> bool {
    &&& child.len() == idx.len()
    &&& forall|j: int| 0 <= j < idx.len() ==> (#[trigger] child[j])@ == parent[idx[j] as int]@
}

/// A balanced 2-means outcome over a centroid matrix: the index lists
/// are balanced complementary halves, ranked by similarity either to
/// the two seed rows or to the centroids of some balanced partition
/// (the previous round's assignment).
pub open spec fn cluster_split_ok(
    rows: Seq<Vec<Entry>>,
    n_cols: nat,
    ia: Seq<usize>,
    ib: Seq<usize>,
) -> bool {
    &&& halves_partition(rows.len() as int, ia, ib)
    &&& (ranked_rows(rows, rows[0]@, rows[1]@, ia, ib) || exists|pa: Seq<usize>, pb: Seq<usize>|
        #[trigger] halves_partition(rows.len() as int, pa, pb) && ranked_rows(
            rows,
            cent_of(rows, n_cols, pa),
            cent_of(rows, n_cols, pb),
            ia,
            ib,
        ))
}

/// Ranks every row by its similarity difference to the two centroids and
/// splits the rows into balanced halves.
fn assign_balanced(mat: &SparseMat, c0: &Vec<Entry>, c1: &Vec<Entry>) -> (r: (
    Vec<usize>,
    Vec<usize>,
))
    requires
        mat.wf(),
        mat.bounded(SCALE as int),
        mat.rows@.len() <= MAX_ROWS,
        sv_wf(c0@, mat.n_cols as int),
        sv_bounded(c0@, SCALE as int),
        sv_wf(c1@, mat.n_cols as int),
        sv_bounded(c1@, SCALE as int),
    ensures
        halves_partition(mat.rows@.len() as int, r.0@, r.1@),
        ranked_partition(mat, c0@, c1@, r.0@, r.1@),
{
    let n = mat.rows_len();
    let mut items: Vec<RankItem> = Vec::new();
    for i in 0..n
        invariant
            n == mat.rows@.len(),
            n <= MAX_ROWS,
            mat.wf(),
            mat.bounded(SCALE as int),
            sv_wf(c0@, mat.n_cols as int),
            sv_bounded(c0@, SCALE as int),
            sv_wf(c1@, mat.n_cols as int),
            sv_bounded(c1@, SCALE as int),
            items@.len() == i,
            forall|k: int| 0 <= k < i ==> (#[trigger] items@[k]).row == k,
            forall|k: int| 0 <= k < i ==> (#[trigger] items@[k]).key == sim_key(mat, c0@, c1@, k),
    {
        proof {
            lemma_sv_len(mat.rows@[i as int]@, mat.n_cols as int);
        }
        let d0 = crate::sparse::sv_dot(&mat.rows[i], c0);
        let d1 = crate::sparse::sv_dot(&mat.rows[i], c1);
        items.push(RankItem { key: d0 - d1, row: i });
    }
    let r = rank_and_halve(&items);
    proof {
        assert forall|va: usize, vb: usize| r.0@.contains(va) && r.1@.contains(vb) implies (
        sim_key(mat, c0@, c1@, va as int) > sim_key(mat, c0@, c1@, vb as int) || (sim_key(
            mat,
            c0@,
            c1@,
            va as int,
        ) == sim_key(mat, c0@, c1@, vb as int) && va < vb)) by {
            assert(va < n && vb < n) by {
                let ja = choose|j: int| 0 <= j < r.0@.len() && r.0@[j] == va;
                let jb = choose|j: int| 0 <= j < r.1@.len() && r.1@[j] == vb;
            }
            assert(va != vb) by {
                if va == vb {
                    assert(r.0@.contains(vb) && r.1@.contains(vb));
                }
            }
            assert(rank_le(items@[va as int], items@[vb as int]));
        }
    }
    r
}

/// The total similarity of the selected rows to their cluster centroid.
fn objective(mat: &SparseMat, sel: &Vec<usize>, c: &Vec<Entry>) -> (r: i128)
    requires
        mat.wf(),
        mat.bounded(SCALE as int),
        sv_wf(c@, mat.n_cols as int),
        sv_bounded(c@, SCALE as int),
        forall|j: int| 0 <= j < sel@.len() ==> (#[trigger] sel@[j]) < mat.rows@.len(),
        sel@.len() <= MAX_ROWS,
    ensures
        abs1(r as int) <= 0x2_0000_0000_0000_0000_0000,
{
    let n = sel.len();
    let mut acc: i128 = 0;
    for j in 0..n
        invariant
            n == sel@.len(),
            n <= MAX_ROWS,
            mat.wf(),
            mat.bounded(SCALE as int),
            sv_wf(c@, mat.n_cols as int),
            sv_bounded(c@, SCALE as int),
            forall|j2: int| 0 <= j2 < sel@.len() ==> (#[trigger] sel@[j2]) < mat.rows@.len(),
            abs1(acc as int) <= (j as int) * 0x0200_0000_0000_0000,
    {
        let row_i = sel[j];
        proof {
            lemma_sv_len(mat.rows@[row_i as int]@, mat.n_cols as int);
            assert((j as int) * 0x0200_0000_0000_0000 + 0x0200_0000_0000_0000 == (j as int + 1)
                * 0x0200_0000_0000_0000) by (nonlinear_arith);
        }
        let d = crate::sparse::sv_dot(&mat.rows[row_i], c);
        acc = acc + (d as i128);
    }
    proof {
        assert((n as int) * 0x0200_0000_0000_0000 <= 0x2_0000_0000_0000_0000_0000)
            by (nonlinear_arith)
            requires 0 <= n as int <= MAX_ROWS,
        ;
    }
    acc
}

/// Splits the rows of a centroid matrix into two balanced clusters by
/// iterated balanced 2-means: each round recomputes the two centroids
/// and re-ranks the rows, stopping when the assignment is unchanged,
/// when the total objective moves by less than `epsilon`, or at the
/// iteration cap. Returns `None` exactly when no split is possible:
/// fewer than two rows, or all rows identical.
pub fn split_cluster_indices(mat: &SparseMat, hp: &ClusterHyperParam) -> (r: Option<
    (Vec<usize>, Vec<usize>),
>)
    requires
        mat.wf(),
        mat.bounded(SCALE as int),
        mat.rows@.len() <= MAX_ROWS,
        hp.k_means_max_iter >= 1,
        hp.epsilon >= 1,
    ensures
        r is None <==> (mat.rows@.len() <= 1 || all_rows_equal(mat)),
        r is Some ==> halves_partition(mat.rows@.len() as int, r.unwrap().0@, r.unwrap().1@),
        r is Some ==> cluster_split_ok(
            mat.rows@,
            mat.n_cols as nat,
            r.unwrap().0@,
            r.unwrap().1@,
        ),
{
    let n = mat.rows_len();
    if n <= 1 {
        return None;
    }
    let mut all_eq = true;
    for i in 0..n
        invariant
            n == mat.rows@.len(),
            all_eq <==> forall|k: int| 0 <= k < i ==> (#[trigger] mat.rows@[k])@ == mat.rows@[0]@,
    {
        if !sv_eq(&mat.rows[i], &mat.rows[0]) {
            proof {
                assert((#[trigger] mat.rows@[i as int])@ != mat.rows@[0]@);
            }
            all_eq = false;
        }
    }
    if all_eq {
        return None;
    }
    let c0 = crate::sparse::sv_clone(&mat.rows[0]);
    let c1 = crate::sparse::sv_clone(&mat.rows[1]);
    let first = assign_balanced(mat, &c0, &c1);
    let mut a = first.0;
    let mut b = first.1;
    proof {
        assert(c0@ == mat.rows@[0]@ && c1@ == mat.rows@[1]@);
        assert(ranked_rows(mat.rows@, mat.rows@[0]@, mat.rows@[1]@, a@, b@));
    }
    let mut prev_obj: i128 = objective(mat, &a, &c0) + objective(mat, &b, &c1);
    let eps = hp.epsilon as i128;
    let max_iter = hp.k_means_max_iter;
    let mut it: usize = 1;
    while it < max_iter
        invariant
            mat.wf(),
            mat.bounded(SCALE as int),
            mat.rows@.len() <= MAX_ROWS,
            halves_partition(mat.rows@.len() as int, a@, b@),
            cluster_split_ok(mat.rows@, mat.n_cols as nat, a@, b@),
            abs1(prev_obj as int) <= 0x4_0000_0000_0000_0000_0000,
            eps == hp.epsilon as int,
            1 <= eps,
        decreases max_iter - it,
    {
        let n0 = centroid_of_rows(mat, &a);
        let n1 = centroid_of_rows(mat, &b);
        let ghost pa = a@;
        let ghost pb = b@;
        let next = assign_balanced(mat, &n0, &n1);
        let unchanged = usize_vec_eq(&next.0, &a) && usize_vec_eq(&next.1, &b);
        if unchanged {
            break;
        }
        let obj = objective(mat, &next.0, &n0) + objective(mat, &next.1, &n1);
        a = next.0;
        b = next.1;
        proof {
            assert(halves_partition(mat.rows@.len() as int, pa, pb));
            assert(ranked_rows(
                mat.rows@,
                cent_of(mat.rows@, mat.n_cols as nat, pa),
                cent_of(mat.rows@, mat.n_cols as nat, pb),
                a@,
                b@,
            ));
        }
        if obj - prev_obj < eps && prev_obj - obj < eps {
            break;
        }
        prev_obj = obj;
        it = it + 1;
    }
    let r = Some((a, b));
    proof {
        assert(cluster_split_ok(mat.rows@, mat.n_cols as nat, r.unwrap().0@, r.unwrap().1@));
    }
    r
}

/// A set of labels together with the matrix of their centroids (one row
/// per label, in the dataset's full feature space).
pub struct LabelCluster {
    pub labels: Vec<u32>,
    pub feature_matrix: SparseMat,
}

impl LabelCluster {
    /// Non-empty, one centroid row per label, labels strictly increasing,
    /// matrix well formed with normalised values.
    pub open spec fn wf(&self) -> bool {
        &&& 1 <= self.labels@.len() <= MAX_ROWS
        &&& self.labels@.len() == self.feature_matrix.rows@.len()
        &&& forall|j1: int, j2: int|
            0 <= j1 < j2 < self.labels@.len() ==> self.labels@[j1] < self.labels@[j2]
        &&& self.feature_matrix.wf()
        &&& self.feature_matrix.bounded(SCALE as int)
    }

    /// Builds the root label cluster of a dataset: one pruned,
    /// L2-normalised centroid per label that occurs in some example,
    /// labels in increasing order, centroids in the dataset's full
    /// feature space. Returns `None` when no example carries any label.
    pub fn new_from_dataset(ds: &DataSet, centroid_threshold: i64) -> (r: Option<LabelCluster>)
        requires
            ds.wf(),
            centroid_threshold >= 0,
        ensures
            r is None <==> (forall|l: u32| !(#[trigger] label_has_example(ds, l as int))),
            r matches Some(c) ==> {
                &&& c.wf()
                &&& c.feature_matrix.n_cols == ds.n_features
                &&& forall|l: u32|
                    c.labels@.contains(l) <==> (l < ds.n_labels && label_has_example(
                        ds,
                        l as int,
                    ))
                &&& forall|j: int|
                    0 <= j < c.labels@.len() ==> (#[trigger] c.feature_matrix.rows@[j])@
                        == spec_centroid(ds, c.labels@[j] as int, centroid_threshold as int)
            },
    {
        let centroids = compute_label_centroids(ds, centroid_threshold);
        let labels = centroids.0;
        let vecs = centroids.1;
        if labels.len() == 0 {
            proof {
                assert forall|l: u32| !(#[trigger] label_has_example(ds, l as int)) by {
                    if label_has_example(ds, l as int) {
                        let i = choose|i: int|
                            0 <= i < ds.label_sets@.len() && (
                            #[trigger] ds.label_sets@[i])@.contains(l);
                        assert(l < ds.n_labels);
                        assert(labels@.contains(l));
                    }
                }
            }
            return None;
        }
        proof {
            crate::dataset::lemma_sorted_u32_len(labels@, ds.n_labels as int);
            let l0 = labels@[0];
            assert(labels@.contains(l0));
            assert(label_has_example(ds, l0 as int));
        }
        Some(
            LabelCluster {
                labels,
                feature_matrix: SparseMat { rows: vecs, n_cols: ds.n_features as usize },
            },
        )
    }

    /// Number of labels in the cluster.
    pub fn len(&self) -> (r: usize)
        ensures
            r == self.labels@.len(),
    {
        self.labels.len()
    }

    /// The sub-cluster holding the selected labels and their centroid
    /// rows. Columns are not shrunk: centroids stay in the dataset's
    /// feature space so that children can be compared with one another.
    pub fn take_labels_by_indices(&self, idx: &Vec<usize>) -> (c: LabelCluster)
        requires
            self.wf(),
            1 <= idx@.len() <= MAX_ROWS,
            forall|j: int| 0 <= j < idx@.len() ==> (#[trigger] idx@[j]) < self.labels@.len(),
        ensures
            (forall|j1: int, j2: int| 0 <= j1 < j2 < idx@.len() ==> idx@[j1] < idx@[j2])
                ==> c.wf(),
            c.labels@ == sel_labels(self.labels@, idx@),
            c.labels@.len() == idx@.len(),
            c.feature_matrix.n_cols == self.feature_matrix.n_cols,
            forall|j: int|
                0 <= j < idx@.len() ==> (#[trigger] c.feature_matrix.rows@[j])@
                    == self.feature_matrix.rows@[idx@[j] as int]@,
            forall|l: u32| c.labels@.contains(l) ==> self.labels@.contains(l),
    {
        let n = idx.len();
        let mut labels: Vec<u32> = Vec::new();
        for j in 0..n
            invariant
                n == idx@.len(),
                self.wf(),
                forall|k: int| 0 <= k < idx@.len() ==> (#[trigger] idx@[k]) < self.labels@.len(),
                labels@.len() == j,
                forall|k: int| 0 <= k < j ==> #[trigger] labels@[k] == self.labels@[idx@[k] as int],
        {
            labels.push(self.labels[idx[j]]);
        }
        let feature_matrix = self.feature_matrix.copy_outer_dims(idx);
        proof {
            assert(labels@ =~= sel_labels(self.labels@, idx@));
            assert forall|j: int|
                0 <= j < feature_matrix.rows@.len() implies sv_wf(
                (#[trigger] feature_matrix.rows@[j])@,
                feature_matrix.n_cols as int,
            ) && sv_bounded((#[trigger] feature_matrix.rows@[j])@, SCALE as int) by {
                assert(feature_matrix.rows@[j]@ == self.feature_matrix.rows@[idx@[j] as int]@);
            }
            assert forall|l: u32| labels@.contains(l) implies self.labels@.contains(l) by {
                let k = choose|k: int| 0 <= k < labels@.len() && labels@[k] == l;
                assert(self.labels@[idx@[k] as int] == l);
            }
        }
        LabelCluster { labels, feature_matrix }
    }

    /// Splits the cluster into two balanced sub-clusters by balanced
    /// 2-means over the centroid rows. Returns `None` exactly when the
    /// cluster is degenerate (one label, or all centroids identical);
    /// otherwise the two children partition the labels and their sizes
    /// differ by at most one.
    pub fn split(&self, hp: &ClusterHyperParam) -> (r: Option<Vec<LabelCluster>>)
        requires
            self.wf(),
            hp.k_means_max_iter >= 1,
            hp.epsilon >= 1,
        ensures
            r is None <==> (self.labels@.len() <= 1 || all_rows_equal(&self.feature_matrix)),
            r is Some ==> {
                let cs = r.unwrap();
                &&& cs@.len() == 2
                &&& cs@[0].wf()
                &&& cs@[1].wf()
                &&& cs@[0].labels@.len() == (self.labels@.len() + 1) / 2
                &&& cs@[1].labels@.len() == self.labels@.len() - (self.labels@.len() + 1) / 2
                &&& cs@[0].labels@.to_multiset().add(cs@[1].labels@.to_multiset())
                    == self.labels@.to_multiset()
                &&& forall|l: u32| cs@[0].labels@.contains(l) ==> self.labels@.contains(l)
                &&& forall|l: u32| cs@[1].labels@.contains(l) ==> self.labels@.contains(l)
                &&& cs@[0].feature_matrix.n_cols == self.feature_matrix.n_cols
                &&& cs@[1].feature_matrix.n_cols == self.feature_matrix.n_cols
                &&& exists|ia: Seq<usize>, ib: Seq<usize>|
                    {
                        &&& #[trigger] cluster_split_ok(
                            self.feature_matrix.rows@,
                            self.feature_matrix.n_cols as nat,
                            ia,
                            ib,
                        )
                        &&& cs@[0].labels@ == sel_labels(self.labels@, ia)
                        &&& cs@[1].labels@ == sel_labels(self.labels@, ib)
                        &&& rows_selected(self.feature_matrix.rows@, ia, cs@[0].feature_matrix.rows@)
                        &&& rows_selected(self.feature_matrix.rows@, ib, cs@[1].feature_matrix.rows@)
                    }
            },
    {
        let n = self.labels.len();
        match split_cluster_indices(&self.feature_matrix, hp) {
            None => None,
            Some((ia, ib)) => {
                proof {
                    lemma_select_partition(self.labels@, ia@, ib@);
                }
                let ca = self.take_labels_by_indices(&ia);
                let cb = self.take_labels_by_indices(&ib);
                let mut cs: Vec<LabelCluster> = Vec::new();
                cs.push(ca);
                cs.push(cb);
                proof {
                    assert(cluster_split_ok(
                        self.feature_matrix.rows@,
                        self.feature_matrix.n_cols as nat,
                        ia@,
                        ib@,
                    ));
                    assert(cs@[0].labels@ == sel_labels(self.labels@, ia@));
                    assert(cs@[1].labels@ == sel_labels(self.labels@, ib@));
                    assert(rows_selected(self.feature_matrix.rows@, ia@, cs@[0].feature_matrix.rows@));
                    assert(rows_selected(self.feature_matrix.rows@, ib@, cs@[1].feature_matrix.rows@));
                }
                Some(cs)
            },
        }
    }
}

} // verus!
