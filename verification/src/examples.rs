//! Training examples for one subtree: a row-selected, column-compacted
//! feature matrix, the map from local columns back to global features,
//! and the examples' label sets.

use vstd::prelude::*;
use crate::sparse::{
    Entry, MAX_ROWS, sv_wf, sv_bounded, sv_at, sv_clone, lemma_sv_at_found,
};
use crate::fx::SCALE;
use crate::matrix::SparseMat;
use crate::dataset::{DataSet, label_set_contains};

verus! {

/// Two label sets share at least one label.
pub open spec fn sets_intersect(a: Seq<u32>, b: Seq<u32>) -> bool {
    exists|x: u32| #![auto] a.contains(x) && b.contains(x)
}

/// The (sorted) indices among the first `n` label sets that contain `l`.
pub open spec fn spec_examples_with_label_in(sets: Seq<Vec<u32>>, l: u32, n: int) -> Seq<usize>
    decreases n,
{
    if n <= 0 {
        Seq::empty()
    } else {
        let rest = spec_examples_with_label_in(sets, l, n - 1);
        if sets[n - 1]@.contains(l) {
            rest.push((n - 1) as usize)
        } else {
            rest
        }
    }
}

/// The (sorted) indices among the first `n` examples whose label set
/// contains `l`.
pub open spec fn spec_examples_with_label(te: &TrainingExamples, l: u32, n: int) -> Seq<usize> {
    spec_examples_with_label_in(te.label_sets@, l, n)
}

/// The membership lists agree on label-set sequences with equal views.
pub proof fn lemma_examples_with_label_congruent(
    a: Seq<Vec<u32>>,
    b: Seq<Vec<u32>>,
    l: u32,
    n: int,
)
    requires
        n <= a.len(),
        n <= b.len(),
        forall|i: int| 0 <= i < n ==> (#[trigger] a[i])@ == b[i]@,
    ensures
        spec_examples_with_label_in(a, l, n) == spec_examples_with_label_in(b, l, n),
    decreases n,
{
    if n > 0 {
        lemma_examples_with_label_congruent(a, b, l, n - 1);
    }
}

/// The (sorted) indices among the first `n` label sets that intersect
/// `ls`.
pub open spec fn spec_examples_with_labels_in(sets: Seq<Vec<u32>>, ls: Seq<u32>, n: int) -> Seq<
    usize,
>
    decreases n,
{
    if n <= 0 {
        Seq::empty()
    } else {
        let rest = spec_examples_with_labels_in(sets, ls, n - 1);
        if sets_intersect(sets[n - 1]@, ls) {
            rest.push((n - 1) as usize)
        } else {
            rest
        }
    }
}

/// The (sorted) indices among the first `n` examples whose label set
/// intersects `ls`.
pub open spec fn spec_examples_with_labels(te: &TrainingExamples, ls: Seq<u32>, n: int) -> Seq<
    usize,
> {
    spec_examples_with_labels_in(te.label_sets@, ls, n)
}

/// The intersection lists agree on label-set sequences with equal views.
pub proof fn lemma_examples_with_labels_congruent(
    a: Seq<Vec<u32>>,
    b: Seq<Vec<u32>>,
    ls: Seq<u32>,
    n: int,
)
    requires
        n <= a.len(),
        n <= b.len(),
        forall|i: int| 0 <= i < n ==> (#[trigger] a[i])@ == b[i]@,
    ensures
        spec_examples_with_labels_in(a, ls, n) == spec_examples_with_labels_in(b, ls, n),
    decreases n,
{
    if n > 0 {
        lemma_examples_with_labels_congruent(a, b, ls, n - 1);
    }
}

/// The training examples a subtree is trained on.
pub struct TrainingExamples {
    pub feature_matrix: SparseMat,
    pub index_to_feature: Vec<u32>,
    pub label_sets: Vec<Vec<u32>>,
    pub bias_index: u32,
}

impl TrainingExamples {
    /// Well-formedness: a non-empty matrix of normalised values, one
    /// label set per row, a strictly increasing local-to-global column
    /// map ending at the bias feature, and the bias column (local value
    /// one) present as the last entry of every row.
    pub open spec fn wf(&self) -> bool {
        &&& self.feature_matrix.wf()
        &&& self.feature_matrix.bounded(SCALE as int)
        &&& 1 <= self.feature_matrix.rows@.len() <= MAX_ROWS
        &&& self.feature_matrix.rows@.len() == self.label_sets@.len()
        &&& self.index_to_feature@.len() == self.feature_matrix.n_cols
        &&& 1 <= self.feature_matrix.n_cols
        &&& forall|k1: int, k2: int|
            0 <= k1 < k2 < self.index_to_feature@.len() ==> self.index_to_feature@[k1]
                < self.index_to_feature@[k2]
        &&& forall|k: int|
            0 <= k < self.index_to_feature@.len() ==> (#[trigger] self.index_to_feature@[k])
                <= self.bias_index
        &&& self.index_to_feature@[self.index_to_feature@.len() - 1] == self.bias_index
        &&& forall|i: int|
            0 <= i < self.feature_matrix.rows@.len() ==> (#[trigger] self.feature_matrix.rows@[i])@.len() >= 1
        &&& forall|i: int|
            0 <= i < self.feature_matrix.rows@.len() ==> (#[trigger] self.feature_matrix.rows@[i])@.last()
                == (Entry { index: (self.feature_matrix.n_cols - 1) as u32, value: SCALE })
        &&& forall|i: int, j1: int, j2: int|
            0 <= i < self.label_sets@.len() && 0 <= j1 < j2 < self.label_sets@[i]@.len()
                ==> self.label_sets@[i]@[j1] < self.label_sets@[i]@[j2]
    }

    /// A row in global feature coordinates: each entry's local column
    /// translated through `index_to_feature`.
    pub open spec fn global_row(&self, i: int) -> Seq<Entry> {
        Seq::new(
            self.feature_matrix.rows@[i]@.len(),
            |j: int|
                Entry {
                    index: self.index_to_feature@[self.feature_matrix.rows@[i]@[j].index as int],
                    value: self.feature_matrix.rows@[i]@[j].value,
                },
        )
    }

    /// Number of examples.
    pub fn len(&self) -> (r: usize)
        ensures
            r == self.feature_matrix.rows@.len(),
    {
        self.feature_matrix.rows_len()
    }

    /// Number of local feature columns (bias included).
    pub fn n_features(&self) -> (r: usize)
        ensures
            r == self.feature_matrix.n_cols,
    {
        self.feature_matrix.cols()
    }

    /// Builds the root training examples from a dataset whose feature
    /// lists are already L2-normalised: appends the bias column (global
    /// index `n_features`, value one) to every example; the column map
    /// starts as the identity.
    pub fn new_from_dataset(ds: &DataSet) -> (r: TrainingExamples)
        requires
            ds.wf(),
            1 <= ds.feature_lists@.len(),
            forall|i: int|
                0 <= i < ds.feature_lists@.len() ==> sv_bounded(
                    (#[trigger] ds.feature_lists@[i])@,
                    SCALE as int,
                ),
        ensures
            r.wf(),
            r.bias_index == ds.n_features,
            r.feature_matrix.n_cols == ds.n_features + 1,
            r.feature_matrix.rows@.len() == ds.feature_lists@.len(),
            r.label_sets@.len() == ds.label_sets@.len(),
            forall|i: int|
                0 <= i < ds.label_sets@.len() ==> (#[trigger] r.label_sets@[i])@
                    == ds.label_sets@[i]@,
            forall|i: int|
                0 <= i < ds.feature_lists@.len() ==> (#[trigger] r.feature_matrix.rows@[i])@
                    == ds.feature_lists@[i]@.push(
                    Entry { index: ds.n_features, value: SCALE },
                ),
            forall|k: int|
                0 <= k < r.index_to_feature@.len() ==> (#[trigger] r.index_to_feature@[k]) == k,
    {
        let n = ds.feature_lists.len();
        let n_cols = (ds.n_features + 1) as usize;
        let bias = Entry { index: ds.n_features, value: SCALE };
        let mut rows: Vec<Vec<Entry>> = Vec::new();
        for i in 0..n
            invariant
                n == ds.feature_lists@.len(),
                ds.wf(),
                bias == (Entry { index: ds.n_features, value: SCALE }),
                rows@.len() == i,
                forall|k: int|
                    0 <= k < i ==> (#[trigger] rows@[k])@ == ds.feature_lists@[k]@.push(bias),
        {
            let mut row = sv_clone(&ds.feature_lists[i]);
            row.push(bias);
            rows.push(row);
        }
        let mut index_to_feature: Vec<u32> = Vec::new();
        for k in 0..n_cols
            invariant
                n_cols == ds.n_features + 1,
                index_to_feature@.len() == k,
                forall|k2: int|
                    0 <= k2 < k ==> (#[trigger] index_to_feature@[k2]) == k2,
        {
            index_to_feature.push(k as u32);
        }
        let mut label_sets: Vec<Vec<u32>> = Vec::new();
        let nl = ds.label_sets.len();
        for i in 0..nl
            invariant
                nl == ds.label_sets@.len(),
                label_sets@.len() == i,
                forall|k: int| 0 <= k < i ==> (#[trigger] label_sets@[k])@ == ds.label_sets@[k]@,
        {
            let mut ls: Vec<u32> = Vec::new();
            let m = ds.label_sets[i].len();
            for j in 0..m
                invariant
                    i < nl == ds.label_sets@.len(),
                    m == ds.label_sets@[i as int]@.len(),
                    ls@.len() == j,
                    forall|k: int| 0 <= k < j ==> #[trigger] ls@[k] == ds.label_sets@[i as int]@[k],
            {
                ls.push(ds.label_sets[i][j]);
            }
            proof {
                assert(ls@ =~= ds.label_sets@[i as int]@);
            }
            label_sets.push(ls);
        }
        let r = TrainingExamples {
            feature_matrix: SparseMat { rows, n_cols },
            index_to_feature,
            label_sets,
            bias_index: ds.n_features,
        };
        proof {
            assert forall|i: int|
                0 <= i < r.feature_matrix.rows@.len() implies sv_wf(
                (#[trigger] r.feature_matrix.rows@[i])@,
                n_cols as int,
            ) && sv_bounded((#[trigger] r.feature_matrix.rows@[i])@, SCALE as int) && r.feature_matrix.rows@[i]@.len() >= 1
                && r.feature_matrix.rows@[i]@.last() == (Entry {
                index: (n_cols - 1) as u32,
                value: SCALE,
            }) by {
                let orig = ds.feature_lists@[i]@;
                assert(r.feature_matrix.rows@[i]@ == orig.push(bias));
                assert(forall|j: int| 0 <= j < orig.len() ==> orig.push(bias)[j] == orig[j]);
                assert(orig.push(bias).last() == bias);
            }
        }
        r
    }

    /// The (sorted) indices of the examples whose label set contains
    /// `label`.
    pub fn find_examples_with_label(&self, label: u32) -> (r: Vec<usize>)
        requires
            self.wf(),
        ensures
            r@ == spec_examples_with_label(self, label, self.label_sets@.len() as int),
            forall|j1: int, j2: int| 0 <= j1 < j2 < r@.len() ==> r@[j1] < r@[j2],
            forall|j: int| 0 <= j < r@.len() ==> (#[trigger] r@[j]) < self.label_sets@.len(),
            forall|i: usize|
                i < self.label_sets@.len() ==> (r@.contains(i) <==> self.label_sets@[i as int]@.contains(
                    label,
                )),
    {
        let n = self.label_sets.len();
        let mut r: Vec<usize> = Vec::new();
        for i in 0..n
            invariant
                n == self.label_sets@.len(),
                r@ == spec_examples_with_label(self, label, i as int),
                forall|j1: int, j2: int| 0 <= j1 < j2 < r@.len() ==> r@[j1] < r@[j2],
                forall|j: int| 0 <= j < r@.len() ==> (#[trigger] r@[j]) < i,
                forall|i2: usize|
                    i2 < i ==> (r@.contains(i2) <==> self.label_sets@[i2 as int]@.contains(label)),
        {
            let ghost old_r = r@;
            if label_set_contains(&self.label_sets[i], label) {
                r.push(i);
            }
            proof {
                assert forall|i2: usize|
                    i2 < i + 1 implies (r@.contains(i2) <==> self.label_sets@[i2 as int]@.contains(
                    label,
                )) by {
                    if i2 < i {
                        assert(old_r.contains(i2) <==> r@.contains(i2)) by {
                            if r@.contains(i2) && r@.len() > old_r.len() {
                                let j = choose|j: int| 0 <= j < r@.len() && r@[j] == i2;
                                assert(j < old_r.len());
                            }
                            if old_r.contains(i2) {
                                let j = choose|j: int| 0 <= j < old_r.len() && old_r[j] == i2;
                                assert(r@[j] == i2);
                            }
                        }
                    } else {
                        if self.label_sets@[i2 as int]@.contains(label) {
                            assert(r@[r@.len() - 1] == i2);
                        } else {
                            if r@.contains(i2) {
                                let j = choose|j: int| 0 <= j < r@.len() && r@[j] == i2;
                                assert(j < old_r.len());
                                assert(false);
                            }
                        }
                    }
                }
            }
        }
        r
    }

    /// The (sorted) indices of the examples whose label set intersects
    /// the given label list.
    pub fn find_examples_with_labels(&self, labels: &Vec<u32>) -> (r: Vec<usize>)
        requires
            self.wf(),
        ensures
            r@ == spec_examples_with_labels(self, labels@, self.label_sets@.len() as int),
            forall|j1: int, j2: int| 0 <= j1 < j2 < r@.len() ==> r@[j1] < r@[j2],
            forall|j: int| 0 <= j < r@.len() ==> (#[trigger] r@[j]) < self.label_sets@.len(),
            forall|i: usize|
                i < self.label_sets@.len() ==> (r@.contains(i) <==> sets_intersect(
                    self.label_sets@[i as int]@,
                    labels@,
                )),
    {
        let n = self.label_sets.len();
        let mut r: Vec<usize> = Vec::new();
        for i in 0..n
            invariant
                n == self.label_sets@.len(),
                r@ == spec_examples_with_labels(self, labels@, i as int),
                forall|j1: int, j2: int| 0 <= j1 < j2 < r@.len() ==> r@[j1] < r@[j2],
                forall|j: int| 0 <= j < r@.len() ==> (#[trigger] r@[j]) < i,
                forall|i2: usize|
                    i2 < i ==> (r@.contains(i2) <==> sets_intersect(
                        self.label_sets@[i2 as int]@,
                        labels@,
                    )),
        {
            let ghost old_r = r@;
            if sets_intersect_exec(&self.label_sets[i], labels) {
                r.push(i);
            }
            proof {
                assert forall|i2: usize|
                    i2 < i + 1 implies (r@.contains(i2) <==> sets_intersect(
                    self.label_sets@[i2 as int]@,
                    labels@,
                )) by {
                    if i2 < i {
                        assert(old_r.contains(i2) <==> r@.contains(i2)) by {
                            if r@.contains(i2) && r@.len() > old_r.len() {
                                let j = choose|j: int| 0 <= j < r@.len() && r@[j] == i2;
                                assert(j < old_r.len());
                            }
                            if old_r.contains(i2) {
                                let j = choose|j: int| 0 <= j < old_r.len() && old_r[j] == i2;
                                assert(r@[j] == i2);
                            }
                        }
                    } else {
                        if sets_intersect(self.label_sets@[i2 as int]@, labels@) {
                            assert(r@[r@.len() - 1] == i2);
                        } else {
                            if r@.contains(i2) {
                                let j = choose|j: int| 0 <= j < r@.len() && r@[j] == i2;
                                assert(j < old_r.len());
                                assert(false);
                            }
                        }
                    }
                }
            }
        }
        r
    }
}

/// Whether the two label lists share an element.
pub fn sets_intersect_exec(a: &Vec<u32>, b: &Vec<u32>) -> (r: bool)
    ensures
        r == sets_intersect(a@, b@),
{
    let n = a.len();
    for j in 0..n
        invariant
            n == a@.len(),
            forall|k: int| 0 <= k < j ==> !b@.contains(#[trigger] a@[k]),
    {
        if label_set_contains(b, a[j]) {
            proof {
                assert(a@.contains(a@[j as int]));
            }
            return true;
        }
    }
    proof {
        if sets_intersect(a@, b@) {
            let x = choose|x: u32| #![auto] a@.contains(x) && b@.contains(x);
            let k = choose|k: int| 0 <= k < a@.len() && a@[k] == x;
            assert(false);
        }
    }
    false
}

impl TrainingExamples {
    /// The training examples of a child node: the selected rows with
    /// empty columns dropped; `index_to_feature` is re-composed through
    /// this set's own map, so it keeps referring to the dataset's global
    /// feature space, and the bias column survives (it is non-zero in
    /// every row). Each selected row keeps exactly its global-coordinate
    /// content.
    pub fn take_examples_by_indices(&self, idx: &Vec<usize>) -> (r: TrainingExamples)
        requires
            self.wf(),
            1 <= idx@.len() <= crate::sparse::MAX_ROWS,
            forall|j: int|
                0 <= j < idx@.len() ==> (#[trigger] idx@[j]) < self.feature_matrix.rows@.len(),
        ensures
            r.wf(),
            r.bias_index == self.bias_index,
            r.feature_matrix.rows@.len() == idx@.len(),
            r.label_sets@.len() == idx@.len(),
            forall|j: int|
                0 <= j < idx@.len() ==> (#[trigger] r.label_sets@[j])@
                    == self.label_sets@[idx@[j] as int]@,
            forall|j: int|
                0 <= j < idx@.len() ==> #[trigger] r.global_row(j) == self.global_row(
                    idx@[j] as int,
                ),
            forall|c: int|
                0 <= c < r.feature_matrix.n_cols ==> crate::matrix::col_used(
                    r.feature_matrix.rows@,
                    c,
                ),
    {
        let selected = self.feature_matrix.copy_outer_dims(idx);
        proof {
            assert forall|i: int| 0 <= i < selected.rows@.len() implies sv_wf(
                (#[trigger] selected.rows@[i])@,
                selected.n_cols as int,
            ) by {
                assert(selected.rows@[i]@ == self.feature_matrix.rows@[idx@[i] as int]@);
            }
        }
        let pair = selected.shrink_column_indices();
        let shrunk = pair.0;
        let old_col = pair.1;
        let n_new = old_col.len();
        let mut index_to_feature: Vec<u32> = Vec::new();
        for k in 0..n_new
            invariant
                n_new == old_col@.len(),
                self.wf(),
                forall|k2: int|
                    0 <= k2 < old_col@.len() ==> (#[trigger] old_col@[k2])
                        < self.feature_matrix.n_cols,
                index_to_feature@.len() == k,
                forall|k2: int|
                    0 <= k2 < k ==> (#[trigger] index_to_feature@[k2])
                        == self.index_to_feature@[old_col@[k2] as int],
        {
            index_to_feature.push(self.index_to_feature[old_col[k] as usize]);
        }
        let mut label_sets: Vec<Vec<u32>> = Vec::new();
        let n_sel = idx.len();
        for j in 0..n_sel
            invariant
                n_sel == idx@.len(),
                self.wf(),
                forall|j2: int|
                    0 <= j2 < idx@.len() ==> (#[trigger] idx@[j2]) < self.label_sets@.len(),
                label_sets@.len() == j,
                forall|j2: int|
                    0 <= j2 < j ==> (#[trigger] label_sets@[j2])@
                        == self.label_sets@[idx@[j2] as int]@,
        {
            let src = &self.label_sets[idx[j]];
            let mut ls: Vec<u32> = Vec::new();
            let m = src.len();
            for q in 0..m
                invariant
                    m == src@.len(),
                    ls@.len() == q,
                    forall|k: int| 0 <= k < q ==> #[trigger] ls@[k] == src@[k],
            {
                ls.push(src[q]);
            }
            proof {
                assert(ls@ =~= src@);
            }
            label_sets.push(ls);
        }
        let r = TrainingExamples {
            feature_matrix: shrunk,
            index_to_feature,
            label_sets,
            bias_index: self.bias_index,
        };
        proof {
            let oldcols = self.feature_matrix.n_cols as int;
            // The bias column (the last old column) is used by every
            // selected row, so it is retained as the last new column.
            let row0 = selected.rows@[0]@;
            assert(row0 == self.feature_matrix.rows@[idx@[0] as int]@);
            assert(row0.len() >= 1);
            assert(row0.last() == (Entry { index: (oldcols - 1) as u32, value: SCALE }));
            let j0 = row0.len() - 1;
            assert(r.feature_matrix.rows@[0]@[j0].value == SCALE);
            assert(old_col@[r.feature_matrix.rows@[0]@[j0].index as int] == (oldcols - 1) as u32);
            let kb = r.feature_matrix.rows@[0]@[j0].index as int;
            assert(kb == old_col@.len() - 1) by {
                if kb < old_col@.len() - 1 {
                    assert(old_col@[kb] < old_col@[old_col@.len() - 1]);
                    assert(old_col@[old_col@.len() - 1] < oldcols);
                }
            }
            // The new column map is strictly increasing and ends at the
            // bias feature.
            assert forall|k1: int, k2: int|
                0 <= k1 < k2 < r.index_to_feature@.len() implies r.index_to_feature@[k1]
                < r.index_to_feature@[k2] by {
                assert(old_col@[k1] < old_col@[k2]);
            }
            assert(r.index_to_feature@[r.index_to_feature@.len() - 1] == self.bias_index) by {
                assert(old_col@[old_col@.len() - 1] == (oldcols - 1) as u32);
                assert(self.index_to_feature@[oldcols - 1] == self.bias_index);
            }
            // Every row keeps its bias entry as the last entry of the row.
            assert forall|i: int|
                0 <= i < r.feature_matrix.rows@.len() implies (
            #[trigger] r.feature_matrix.rows@[i])@.len() >= 1 && r.feature_matrix.rows@[i]@.last()
                == (Entry { index: (r.feature_matrix.n_cols - 1) as u32, value: SCALE }) by {
                let srow = selected.rows@[i]@;
                assert(srow == self.feature_matrix.rows@[idx@[i] as int]@);
                assert(srow.last() == (Entry { index: (oldcols - 1) as u32, value: SCALE }));
                let jl = srow.len() - 1;
                assert(r.feature_matrix.rows@[i]@[jl].value == srow[jl].value);
                assert(old_col@[r.feature_matrix.rows@[i]@[jl].index as int] == srow[jl].index);
                let kx = r.feature_matrix.rows@[i]@[jl].index as int;
                assert(kx == old_col@.len() - 1) by {
                    if kx < old_col@.len() - 1 {
                        assert(old_col@[kx] < old_col@[old_col@.len() - 1]);
                        assert(old_col@[old_col@.len() - 1] < oldcols);
                    }
                }
            }
            // Values are unchanged, so the matrix stays bounded.
            assert forall|i: int|
                0 <= i < r.feature_matrix.rows@.len() implies sv_bounded(
                (#[trigger] r.feature_matrix.rows@[i])@,
                SCALE as int,
            ) by {
                let srow = selected.rows@[i]@;
                assert(srow == self.feature_matrix.rows@[idx@[i] as int]@);
                assert forall|j: int|
                    0 <= j < r.feature_matrix.rows@[i]@.len() implies crate::sparse::abs1(
                    (#[trigger] r.feature_matrix.rows@[i]@[j]).value as int,
                ) <= SCALE as int by {
                    assert(r.feature_matrix.rows@[i]@[j].value == srow[j].value);
                }
            }
            // Each selected row keeps its global-coordinate content.
            assert forall|j: int|
                0 <= j < idx@.len() implies #[trigger] r.global_row(j) == self.global_row(
                idx@[j] as int,
            ) by {
                let srow = selected.rows@[j]@;
                assert(srow == self.feature_matrix.rows@[idx@[j] as int]@);
                assert forall|q: int|
                    0 <= q < r.global_row(j).len() implies r.global_row(j)[q] == self.global_row(
                    idx@[j] as int,
                )[q] by {
                    assert(r.feature_matrix.rows@[j]@[q].value == srow[q].value);
                    assert(old_col@[r.feature_matrix.rows@[j]@[q].index as int] == srow[q].index);
                    assert(r.index_to_feature@[r.feature_matrix.rows@[j]@[q].index as int]
                        == self.index_to_feature@[srow[q].index as int]);
                }
                assert(r.global_row(j) =~= self.global_row(idx@[j] as int));
            }
        }
        r
    }
}

/// At a branch, an example matches the parent's label set exactly when
/// it matches some child's: if the children's labels cover the parent's,
/// the children's example sets cover the parent's example set.
pub proof fn lemma_example_partition(
    te: &TrainingExamples,
    la: Seq<u32>,
    lb: Seq<u32>,
    lp: Seq<u32>,
)
    requires
        forall|l: u32| lp.contains(l) <==> (la.contains(l) || lb.contains(l)),
    ensures
        forall|i: int|
            0 <= i < te.label_sets@.len() ==> (sets_intersect(
                (#[trigger] te.label_sets@[i])@,
                lp,
            ) <==> (sets_intersect(te.label_sets@[i]@, la) || sets_intersect(
                te.label_sets@[i]@,
                lb,
            ))),
{
    assert forall|i: int|
        0 <= i < te.label_sets@.len() implies (sets_intersect(
        (#[trigger] te.label_sets@[i])@,
        lp,
    ) <==> (sets_intersect(te.label_sets@[i]@, la) || sets_intersect(
        te.label_sets@[i]@,
        lb,
    ))) by {
        let s = te.label_sets@[i]@;
        if sets_intersect(s, lp) {
            let x = choose|x: u32| #![auto] s.contains(x) && lp.contains(x);
            assert(la.contains(x) || lb.contains(x));
        }
        if sets_intersect(s, la) {
            let x = choose|x: u32| #![auto] s.contains(x) && la.contains(x);
            assert(lp.contains(x));
        }
        if sets_intersect(s, lb) {
            let x = choose|x: u32| #![auto] s.contains(x) && lb.contains(x);
            assert(lp.contains(x));
        }
    }
}

/// Feature remap transitivity: selecting examples twice composes the
/// row selections, and every retained row keeps its global-coordinate
/// content from the original set.
pub proof fn lemma_take_examples_compose(
    t1: &TrainingExamples,
    t2: &TrainingExamples,
    t3: &TrainingExamples,
    idx1: Seq<usize>,
    idx2: Seq<usize>,
)
    requires
        idx1.len() == t2.feature_matrix.rows@.len(),
        idx2.len() == t3.feature_matrix.rows@.len(),
        forall|j: int| 0 <= j < idx1.len() ==> (#[trigger] idx1[j]) < t1.feature_matrix.rows@.len(),
        forall|j: int| 0 <= j < idx2.len() ==> (#[trigger] idx2[j]) < t2.feature_matrix.rows@.len(),
        forall|j: int| 0 <= j < idx1.len() ==> #[trigger] t2.global_row(j) == t1.global_row(idx1[j] as int),
        forall|j: int| 0 <= j < idx2.len() ==> #[trigger] t3.global_row(j) == t2.global_row(idx2[j] as int),
    ensures
        forall|j: int|
            0 <= j < idx2.len() ==> #[trigger] t3.global_row(j) == t1.global_row(
                idx1[idx2[j] as int] as int,
            ),
{
}

/// The bias column: the last local column maps to the bias feature and
/// holds the value one in every row.
pub proof fn lemma_bias_column(te: &TrainingExamples)
    requires
        te.wf(),
    ensures
        te.index_to_feature@[te.feature_matrix.n_cols - 1] == te.bias_index,
        forall|i: int|
            0 <= i < te.feature_matrix.rows@.len() ==> sv_at(
                (#[trigger] te.feature_matrix.rows@[i])@,
                te.feature_matrix.n_cols - 1,
            ) == SCALE,
{
    assert forall|i: int|
        0 <= i < te.feature_matrix.rows@.len() implies sv_at(
        (#[trigger] te.feature_matrix.rows@[i])@,
        te.feature_matrix.n_cols - 1,
    ) == SCALE by {
        let row = te.feature_matrix.rows@[i]@;
        assert(row[row.len() - 1] == (Entry {
            index: (te.feature_matrix.n_cols - 1) as u32,
            value: SCALE,
        }));
        lemma_sv_at_found(row, te.feature_matrix.n_cols as int, row.len() - 1);
    }
}

} // verus!
