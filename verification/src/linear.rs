//! A one-vs-rest multi-label linear model, trained by the centroid
//! method: each output's weight vector is the L2-normalised sum of its
//! positive examples' feature vectors, pruned of near-zero weights and
//! mapped back to global feature coordinates.
//!
//! The surrounding design treats the per-label solver as a collaborator
//! behind this interface; any routine producing per-output sparse weight
//! vectors in global coordinates fits. The deterministic centroid rule
//! used here always converges, so the iteration cap and tolerance in the
//! hyper-parameters never cut it short.

use vstd::prelude::*;
use crate::sparse::{
    Entry, MAX_ROWS, MAX_ACC, VAL_MAX, abs1, sv_wf, sv_bounded, sv_at, spec_prune, spec_normalize,
    spec_sparse_of, lemma_sparse_of_wf, lemma_normalize_wf, lemma_prune_wf, lemma_sv_len,
    lemma_sv_at_bound, acc_add_row, dense_to_sparse, l2_normalize, prune_with_threshold,
    U32_COLS,
};
use crate::fx::SCALE;
use crate::matrix::SparseMat;
use crate::hyper::LinearHyperParam;

verus! {

/// A multi-label linear model: one sparse weight vector per output, in
/// global feature coordinates.
#[derive(Debug, PartialEq)]
pub struct MultiLabelClassifier {
    pub weights: Vec<Vec<Entry>>,
}

/// The column sums of the selected rows.
pub open spec fn sel_col_sum(rows: Seq<Vec<Entry>>, sel: Seq<usize>, c: int) -> int
    decreases sel.len(),
{
    if sel.len() == 0 {
        0
    } else {
        sel_col_sum(rows, sel.drop_last(), c) + sv_at(rows[sel.last() as int]@, c)
    }
}

/// The raw local weight vector of one output: the dense column sums of
/// its positive rows, over a bare row sequence.
pub open spec fn spec_raw_weight_rows(rows: Seq<Vec<Entry>>, n_cols: nat, sel: Seq<usize>) -> Seq<
    i64,
> {
    Seq::new(n_cols, |c: int| sel_col_sum(rows, sel, c) as i64)
}

/// The raw local weight vector of one output: the dense column sums of
/// its positive rows.
pub open spec fn spec_raw_weight(m: &SparseMat, sel: Seq<usize>) -> Seq<i64> {
    spec_raw_weight_rows(m.rows@, m.n_cols as nat, sel)
}

/// A local sparse vector rewritten in global coordinates.
pub open spec fn spec_to_global(w: Seq<Entry>, itf: Seq<u32>) -> Seq<Entry> {
    Seq::new(w.len(), |j: int| Entry { index: itf[w[j].index as int], value: w[j].value })
}

/// The finished weight vector of one output, over a bare row sequence:
/// positives summed, L2-normalised, pruned at the weight threshold,
/// mapped to global coordinates.
pub open spec fn spec_weight_rows(
    rows: Seq<Vec<Entry>>,
    n_cols: nat,
    sel: Seq<usize>,
    itf: Seq<u32>,
    t: int,
) -> Seq<Entry> {
    spec_to_global(
        spec_prune(spec_normalize(spec_sparse_of(spec_raw_weight_rows(rows, n_cols, sel))), t),
        itf,
    )
}

/// The finished weight vector of one output: positives summed,
/// L2-normalised, pruned at the weight threshold, mapped to global
/// coordinates.
pub open spec fn spec_weight(m: &SparseMat, sel: Seq<usize>, itf: Seq<u32>, t: int) -> Seq<
    Entry,
> {
    spec_weight_rows(m.rows@, m.n_cols as nat, sel, itf, t)
}

/// Trains a one-vs-rest multi-label linear model: output `k`'s weight
/// vector is the pruned, normalised centroid of the rows listed in
/// `label_to_example_indices[k]`, in global feature coordinates.
///
/// Of the hyper-parameters, only `weight_threshold` shapes the result:
/// the loss, regularisation, `c`, `epsilon` and `max_iter` settings
/// select variants of iterative solvers, and the centroid rule does not
/// consult them.
pub fn train_multi_label(
    m: &SparseMat,
    label_to_example_indices: &Vec<Vec<usize>>,
    index_to_feature: &Vec<u32>,
    hp: &LinearHyperParam,
) -> (r: MultiLabelClassifier)
    requires
        m.wf(),
        m.bounded(SCALE as int),
        index_to_feature@.len() == m.n_cols,
        forall|k1: int, k2: int|
            0 <= k1 < k2 < index_to_feature@.len() ==> index_to_feature@[k1]
                < index_to_feature@[k2],
        forall|k: int, j: int|
            0 <= k < label_to_example_indices@.len() && 0 <= j
                < label_to_example_indices@[k]@.len() ==> (#[trigger] label_to_example_indices@[k]@[j])
                < m.rows@.len(),
        forall|k: int|
            0 <= k < label_to_example_indices@.len()
                ==> (#[trigger] label_to_example_indices@[k])@.len() <= MAX_ROWS,
        hp.weight_threshold >= 0,
    ensures
        r.weights@.len() == label_to_example_indices@.len(),
        forall|k: int|
            0 <= k < r.weights@.len() ==> (#[trigger] r.weights@[k])@ == spec_weight(
                m,
                label_to_example_indices@[k]@,
                index_to_feature@,
                hp.weight_threshold as int,
            ),
        forall|k: int|
            0 <= k < r.weights@.len() ==> sv_wf((#[trigger] r.weights@[k])@, U32_COLS as int),
{
    let kk = label_to_example_indices.len();
    let mut weights: Vec<Vec<Entry>> = Vec::new();
    for k in 0..kk
        invariant
            kk == label_to_example_indices@.len(),
            m.wf(),
            m.bounded(SCALE as int),
            index_to_feature@.len() == m.n_cols,
            forall|k1: int, k2: int|
                0 <= k1 < k2 < index_to_feature@.len() ==> index_to_feature@[k1]
                    < index_to_feature@[k2],
            forall|k2: int, j: int|
                0 <= k2 < label_to_example_indices@.len() && 0 <= j
                    < label_to_example_indices@[k2]@.len()
                    ==> (#[trigger] label_to_example_indices@[k2]@[j]) < m.rows@.len(),
            forall|k2: int|
                0 <= k2 < label_to_example_indices@.len()
                    ==> (#[trigger] label_to_example_indices@[k2])@.len() <= MAX_ROWS,
            hp.weight_threshold >= 0,
            weights@.len() == k,
            forall|k2: int|
                0 <= k2 < k ==> (#[trigger] weights@[k2])@ == spec_weight(
                    m,
                    label_to_example_indices@[k2]@,
                    index_to_feature@,
                    hp.weight_threshold as int,
                ),
            forall|k2: int|
                0 <= k2 < k ==> sv_wf((#[trigger] weights@[k2])@, U32_COLS as int),
    {
        let w = train_one(m, &label_to_example_indices[k], index_to_feature, hp.weight_threshold);
        weights.push(w);
    }
    MultiLabelClassifier { weights }
}

/// Trains one output's weight vector.
fn train_one(m: &SparseMat, sel: &Vec<usize>, itf: &Vec<u32>, threshold: i64) -> (r: Vec<Entry>)
    requires
        m.wf(),
        m.bounded(SCALE as int),
        itf@.len() == m.n_cols,
        forall|k1: int, k2: int| 0 <= k1 < k2 < itf@.len() ==> itf@[k1] < itf@[k2],
        forall|j: int| 0 <= j < sel@.len() ==> (#[trigger] sel@[j]) < m.rows@.len(),
        sel@.len() <= MAX_ROWS,
        threshold >= 0,
    ensures
        r@ == spec_weight(m, sel@, itf@, threshold as int),
        sv_wf(r@, U32_COLS as int),
{
    let n_cols = m.n_cols;
    let mut acc: Vec<i64> = vec![0i64; n_cols];
    assert(forall|c: int| 0 <= c < n_cols ==> acc@[c] == 0);
    let n = sel.len();
    for j in 0..n
        invariant
            n == sel@.len(),
            n <= MAX_ROWS,
            n_cols == m.n_cols,
            m.wf(),
            m.bounded(SCALE as int),
            forall|j2: int| 0 <= j2 < sel@.len() ==> (#[trigger] sel@[j2]) < m.rows@.len(),
            acc@.len() == n_cols,
            forall|c: int|
                0 <= c < n_cols ==> #[trigger] acc@[c] as int == sel_col_sum(
                    m.rows@,
                    sel@.take(j as int),
                    c,
                ),
            forall|c: int|
                0 <= c < n_cols ==> abs1(#[trigger] acc@[c] as int) <= (j as int) * SCALE,
    {
        let row_i = sel[j];
        proof {
            assert((j as int) * SCALE <= (MAX_ROWS - 1) * SCALE) by (nonlinear_arith)
                requires 0 <= j as int <= MAX_ROWS - 1,
            ;
            assert((MAX_ROWS - 1) * SCALE <= MAX_ACC - VAL_MAX);
            assert((j as int) * SCALE + SCALE == (j as int + 1) * SCALE) by (nonlinear_arith);
            crate::sparse::lemma_take_succ(sel@, j as int);
            assert(sel@.take(j + 1).drop_last() =~= sel@.take(j as int));
        }
        acc_add_row(&mut acc, &m.rows[row_i]);
        proof {
            assert forall|c: int| 0 <= c < n_cols implies abs1(#[trigger] acc@[c] as int) <= (
            j as int + 1) * SCALE by {
                lemma_sv_at_bound(m.rows@[row_i as int]@, m.n_cols as int, SCALE as int, c);
            }
        }
    }
    proof {
        assert(sel@.take(n as int) =~= sel@);
        assert(acc@ =~= spec_raw_weight(m, sel@));
        assert(forall|c: int|
            0 <= c < acc@.len() ==> abs1(#[trigger] acc@[c] as int) <= MAX_ACC as int) by {
            assert((n as int) * SCALE <= MAX_ACC as int) by (nonlinear_arith)
                requires 0 <= n as int <= MAX_ROWS,
            ;
        }
        lemma_sparse_of_wf(acc@, MAX_ACC as int);
    }
    let sp = dense_to_sparse(&acc);
    proof {
        lemma_sv_len(sp@, n_cols as int);
    }
    let nm = l2_normalize(&sp);
    proof {
        lemma_normalize_wf(sp@, n_cols as int);
    }
    let pr = prune_with_threshold(&nm, threshold);
    proof {
        lemma_prune_wf(nm@, n_cols as int, SCALE as int, threshold as int);
    }
    let np = pr.len();
    let mut r: Vec<Entry> = Vec::new();
    for j in 0..np
        invariant
            np == pr@.len(),
            sv_wf(pr@, n_cols as int),
            n_cols == m.n_cols,
            itf@.len() == m.n_cols,
            forall|k1: int, k2: int| 0 <= k1 < k2 < itf@.len() ==> itf@[k1] < itf@[k2],
            r@.len() == j,
            forall|q: int|
                0 <= q < j ==> #[trigger] r@[q] == (Entry {
                    index: itf@[pr@[q].index as int],
                    value: pr@[q].value,
                }),
    {
        r.push(Entry { index: itf[pr[j].index as usize], value: pr[j].value });
    }
    proof {
        assert(r@ =~= spec_to_global(pr@, itf@));
        assert forall|j1: int, j2: int| 0 <= j1 < j2 < r@.len() implies r@[j1].index
            < r@[j2].index by {
            assert(pr@[j1].index < pr@[j2].index);
        }
    }
    r
}

} // verus!
