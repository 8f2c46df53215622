//! The input dataset and its validation.

use vstd::prelude::*;
use crate::sparse::{Entry, MAX_COLS, MAX_ROWS, VAL_MAX, abs1, sv_wf, sv_bounded};
use crate::error::DatasetError;

verus! {

/// A strictly increasing sequence of label indices below `n`.
pub open spec fn labels_wf(s: Seq<u32>, n: int) -> bool {
    &&& forall|i: int| 0 <= i < s.len() ==> (#[trigger] s[i]) < n
    &&& forall|i: int, j: int| 0 <= i < j < s.len() ==> s[i] < s[j]
}

/// An immutable multi-label dataset: one sparse feature vector and one
/// label set per example.
pub struct DataSet {
    pub n_features: u32,
    pub n_labels: u32,
    pub feature_lists: Vec<Vec<Entry>>,
    pub label_sets: Vec<Vec<u32>>,
}

impl DataSet {
    /// A well-formed dataset: matching lengths, sizes within the
    /// fixed-point caps, sorted in-range feature lists and label sets,
    /// and feature values within the accumulator range.
    pub open spec fn wf(&self) -> bool {
        &&& self.feature_lists@.len() == self.label_sets@.len()
        &&& self.feature_lists@.len() <= MAX_ROWS
        &&& self.n_features < MAX_COLS
        &&& self.n_labels <= MAX_ROWS
        &&& forall|i: int|
            0 <= i < self.feature_lists@.len() ==> sv_wf(
                (#[trigger] self.feature_lists@[i])@,
                self.n_features as int,
            )
        &&& forall|i: int|
            0 <= i < self.feature_lists@.len() ==> sv_bounded(
                (#[trigger] self.feature_lists@[i])@,
                VAL_MAX as int,
            )
        &&& forall|i: int|
            0 <= i < self.label_sets@.len() ==> labels_wf(
                (#[trigger] self.label_sets@[i])@,
                self.n_labels as int,
            )
    }

    /// Checks the dataset against every well-formedness condition:
    /// succeeds exactly on well-formed datasets.
    pub fn validate(&self) -> (r: Result<(), DatasetError>)
        ensures
            r is Ok <==> self.wf(),
    {
        if self.feature_lists.len() != self.label_sets.len() {
            return Err(DatasetError::LengthMismatch);
        }
        if self.feature_lists.len() > MAX_ROWS {
            return Err(DatasetError::TooManyExamples);
        }
        if self.n_features as usize >= MAX_COLS {
            return Err(DatasetError::TooManyFeatures);
        }
        if self.n_labels as usize > MAX_ROWS {
            return Err(DatasetError::TooManyLabels);
        }
        let n = self.feature_lists.len();
        for i in 0..n
            invariant
                n == self.feature_lists@.len(),
                n == self.label_sets@.len(),
                forall|k: int|
                    0 <= k < i ==> sv_wf(
                        (#[trigger] self.feature_lists@[k])@,
                        self.n_features as int,
                    ),
                forall|k: int|
                    0 <= k < i ==> sv_bounded((#[trigger] self.feature_lists@[k])@, VAL_MAX as int),
                forall|k: int|
                    0 <= k < i ==> labels_wf((#[trigger] self.label_sets@[k])@, self.n_labels as int),
        {
            if !check_feature_list(&self.feature_lists[i], self.n_features) {
                return Err(DatasetError::FeatureListMalformed);
            }
            if !check_value_bounds(&self.feature_lists[i]) {
                return Err(DatasetError::ValueOutOfRange);
            }
            if !check_label_set(&self.label_sets[i], self.n_labels) {
                return Err(DatasetError::LabelSetMalformed);
            }
        }
        Ok(())
    }
}

/// Checks that a feature list is sorted strictly by index with every
/// index below `n_features`.
pub fn check_feature_list(v: &Vec<Entry>, n_features: u32) -> (r: bool)
    ensures
        r == sv_wf(v@, n_features as int),
{
    let n = v.len();
    for i in 0..n
        invariant
            n == v.len(),
            forall|k: int| 0 <= k < i ==> (#[trigger] v@[k]).index < n_features,
            forall|k: int| 0 < k < i ==> v@[k - 1].index < (#[trigger] v@[k]).index,
    {
        if v[i].index >= n_features {
            return false;
        }
        if i > 0 && v[i - 1].index >= v[i].index {
            return false;
        }
    }
    proof {
        lemma_adjacent_sorted_entries(v@);
    }
    true
}

/// Checks that every value's magnitude is within the accumulator range.
pub fn check_value_bounds(v: &Vec<Entry>) -> (r: bool)
    ensures
        r == sv_bounded(v@, VAL_MAX as int),
{
    let n = v.len();
    for i in 0..n
        invariant
            n == v.len(),
            forall|k: int| 0 <= k < i ==> abs1((#[trigger] v@[k]).value as int) <= VAL_MAX as int,
    {
        if v[i].value > VAL_MAX || v[i].value < -VAL_MAX {
            return false;
        }
    }
    true
}

/// Checks that a label set is sorted strictly with every label below
/// `n_labels`.
pub fn check_label_set(v: &Vec<u32>, n_labels: u32) -> (r: bool)
    ensures
        r == labels_wf(v@, n_labels as int),
{
    let n = v.len();
    for i in 0..n
        invariant
            n == v.len(),
            forall|k: int| 0 <= k < i ==> (#[trigger] v@[k]) < n_labels,
            forall|k: int| 0 < k < i ==> v@[k - 1] < (#[trigger] v@[k]),
    {
        if v[i] >= n_labels {
            return false;
        }
        if i > 0 && v[i - 1] >= v[i] {
            return false;
        }
    }
    proof {
        lemma_adjacent_sorted_u32(v@);
    }
    true
}

/// Adjacent order implies pairwise order for entry indices.
pub proof fn lemma_adjacent_sorted_entries(s: Seq<Entry>)
    requires
        forall|k: int| 0 < k < s.len() ==> s[k - 1].index < (#[trigger] s[k]).index,
    ensures
        forall|i: int, j: int| 0 <= i < j < s.len() ==> s[i].index < s[j].index,
{
    assert forall|i: int, j: int| 0 <= i < j < s.len() implies s[i].index < s[j].index by {
        lemma_pairwise_entries(s, i, j);
    }
}

proof fn lemma_pairwise_entries(s: Seq<Entry>, i: int, j: int)
    requires
        forall|k: int| 0 < k < s.len() ==> s[k - 1].index < (#[trigger] s[k]).index,
        0 <= i < j < s.len(),
    ensures
        s[i].index < s[j].index,
    decreases j - i,
{
    if i + 1 < j {
        lemma_pairwise_entries(s, i + 1, j);
    }
}

/// Adjacent order implies pairwise order for label indices.
pub proof fn lemma_adjacent_sorted_u32(s: Seq<u32>)
    requires
        forall|k: int| 0 < k < s.len() ==> s[k - 1] < (#[trigger] s[k]),
    ensures
        forall|i: int, j: int| 0 <= i < j < s.len() ==> s[i] < s[j],
{
    assert forall|i: int, j: int| 0 <= i < j < s.len() implies s[i] < s[j] by {
        lemma_pairwise_u32(s, i, j);
    }
}

proof fn lemma_pairwise_u32(s: Seq<u32>, i: int, j: int)
    requires
        forall|k: int| 0 < k < s.len() ==> s[k - 1] < (#[trigger] s[k]),
        0 <= i < j < s.len(),
    ensures
        s[i] < s[j],
    decreases j - i,
{
    if i + 1 < j {
        lemma_pairwise_u32(s, i + 1, j);
    }
}

/// Whether the sorted label set `s` contains `l`.
pub fn label_set_contains(v: &Vec<u32>, l: u32) -> (r: bool)
    ensures
        r == v@.contains(l),
{
    let n = v.len();
    for i in 0..n
        invariant
            n == v.len(),
            forall|k: int| 0 <= k < i ==> (#[trigger] v@[k]) != l,
    {
        if v[i] == l {
            assert(v@[i as int] == l);
            return true;
        }
    }
    assert(forall|k: int| 0 <= k < v@.len() ==> (#[trigger] v@[k]) != l);
    false
}

/// A strictly increasing list of numbers below `n` has at most `n` items.
pub proof fn lemma_sorted_u32_len(s: Seq<u32>, n: int)
    requires
        n >= 0,
        forall|j: int| 0 <= j < s.len() ==> (#[trigger] s[j]) < n,
        forall|j1: int, j2: int| 0 <= j1 < j2 < s.len() ==> s[j1] < s[j2],
    ensures
        s.len() <= n,
    decreases s.len(),
{
    if s.len() > 0 {
        let t = s.drop_last();
        assert(forall|j: int| 0 <= j < t.len() ==> #[trigger] t[j] == s[j]);
        lemma_sorted_u32_len(t, s[s.len() - 1] as int);
        assert((s[s.len() - 1] as int) < n);
    }
}

/// A strictly increasing list of indices below `n` has at most `n` items.
pub proof fn lemma_sorted_usize_len(s: Seq<usize>, n: int)
    requires
        n >= 0,
        forall|j: int| 0 <= j < s.len() ==> (#[trigger] s[j]) < n,
        forall|j1: int, j2: int| 0 <= j1 < j2 < s.len() ==> s[j1] < s[j2],
    ensures
        s.len() <= n,
    decreases s.len(),
{
    if s.len() > 0 {
        let t = s.drop_last();
        assert(forall|j: int| 0 <= j < t.len() ==> #[trigger] t[j] == s[j]);
        lemma_sorted_usize_len(t, s[s.len() - 1] as int);
        assert((s[s.len() - 1] as int) < n);
    }
}

} // verus!
