//! Error types for training.

use vstd::prelude::*;

verus! {

/// A hyper-parameter bound that validation found violated.
#[derive(Clone, Copy, Debug, PartialEq, Eq, Structural)]
pub enum HyperParamError {
    NTreesZero,
    MinBranchSizeTooSmall,
    CentroidThresholdNegative,
    MaxDepthZero,
    LinearCNotPositive,
    LinearEpsilonNotPositive,
    LinearMaxIterZero,
    LinearWeightThresholdNegative,
    ClusterMaxIterZero,
    ClusterEpsilonNotPositive,
}

impl HyperParamError {
    /// A human-readable message naming the violated bound. The original
    /// interpolated the offending value; string formatting is not
    /// available in verified code, so the static part stands alone.
    pub fn message(&self) -> (r: &'static str)
        ensures
            self is NTreesZero ==> r@ == "n_trees must be positive"@,
            self is MinBranchSizeTooSmall ==> r@ == "min_branch_size must be greater than 1"@,
            self is CentroidThresholdNegative ==> r@
                == "centroid_threshold must be non-negative"@,
            self is MaxDepthZero ==> r@ == "max_depth must be positive"@,
            self is LinearCNotPositive ==> r@ == "linear: C must be positive"@,
            self is LinearEpsilonNotPositive ==> r@ == "linear: epsilon must be positive"@,
            self is LinearMaxIterZero ==> r@ == "linear: max_iter must be positive"@,
            self is LinearWeightThresholdNegative ==> r@
                == "linear: weight_threshold must be non-negative"@,
            self is ClusterMaxIterZero ==> r@ == "cluster: k_means_max_iter must be positive"@,
            self is ClusterEpsilonNotPositive ==> r@ == "cluster: epsilon must be positive"@,
    {
        match self {
            HyperParamError::NTreesZero => "n_trees must be positive",
            HyperParamError::MinBranchSizeTooSmall => "min_branch_size must be greater than 1",
            HyperParamError::CentroidThresholdNegative => "centroid_threshold must be non-negative",
            HyperParamError::MaxDepthZero => "max_depth must be positive",
            HyperParamError::LinearCNotPositive => "linear: C must be positive",
            HyperParamError::LinearEpsilonNotPositive => "linear: epsilon must be positive",
            HyperParamError::LinearMaxIterZero => "linear: max_iter must be positive",
            HyperParamError::LinearWeightThresholdNegative => {
                "linear: weight_threshold must be non-negative"
            },
            HyperParamError::ClusterMaxIterZero => "cluster: k_means_max_iter must be positive",
            HyperParamError::ClusterEpsilonNotPositive => "cluster: epsilon must be positive",
        }
    }
}

/// A way in which an input dataset can be malformed.
#[derive(Clone, Copy, Debug, PartialEq, Eq, Structural)]
pub enum DatasetError {
    LengthMismatch,
    TooManyExamples,
    TooManyFeatures,
    TooManyLabels,
    FeatureListMalformed,
    LabelSetMalformed,
    ValueOutOfRange,
    NoLabelAssignments,
}

impl DatasetError {
    /// A human-readable message naming the defect.
    pub fn message(&self) -> (r: &'static str)
        ensures
            self is LengthMismatch ==> r@ == "feature and label list lengths disagree"@,
            self is TooManyExamples ==> r@ == "too many examples"@,
            self is TooManyFeatures ==> r@ == "too many features"@,
            self is TooManyLabels ==> r@ == "too many labels"@,
            self is FeatureListMalformed ==> r@
                == "feature list not sorted strictly by in-range index"@,
            self is LabelSetMalformed ==> r@
                == "label set not sorted strictly by in-range index"@,
            self is ValueOutOfRange ==> r@ == "feature value out of fixed-point range"@,
            self is NoLabelAssignments ==> r@ == "no example carries any label"@,
    {
        match self {
            DatasetError::LengthMismatch => "feature and label list lengths disagree",
            DatasetError::TooManyExamples => "too many examples",
            DatasetError::TooManyFeatures => "too many features",
            DatasetError::TooManyLabels => "too many labels",
            DatasetError::FeatureListMalformed => {
                "feature list not sorted strictly by in-range index"
            },
            DatasetError::LabelSetMalformed => "label set not sorted strictly by in-range index",
            DatasetError::ValueOutOfRange => "feature value out of fixed-point range",
            DatasetError::NoLabelAssignments => "no example carries any label",
        }
    }
}

/// A fatal training error.
#[derive(Clone, Copy, Debug, PartialEq, Eq, Structural)]
pub enum TrainError {
    InvalidHyperParam(HyperParamError),
    MalformedDataset(DatasetError),
}

} // verus!
