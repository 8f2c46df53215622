use parabel::error::HyperParamError;
use parabel::hyper::HyperParam;

#[test]
fn default_hyper_params_are_valid() {
    let hp = HyperParam::default();
    assert!(hp.validate().is_ok());
    assert_eq!(hp.n_trees, 3);
    assert_eq!(hp.min_branch_size, 100);
    assert_eq!(hp.max_depth, 20);
    assert_eq!(hp.centroid_threshold, 0);
}

#[test]
fn zero_trees_is_rejected() {
    let mut hp = HyperParam::default();
    hp.n_trees = 0;
    assert_eq!(hp.validate(), Err(HyperParamError::NTreesZero));
    assert!(HyperParamError::NTreesZero.message().contains("n_trees"));
}

#[test]
fn small_min_branch_size_is_rejected() {
    let mut hp = HyperParam::default();
    hp.min_branch_size = 1;
    assert_eq!(hp.validate(), Err(HyperParamError::MinBranchSizeTooSmall));
    assert!(HyperParamError::MinBranchSizeTooSmall.message().contains("min_branch_size"));
}

#[test]
fn negative_centroid_threshold_is_rejected() {
    let mut hp = HyperParam::default();
    hp.centroid_threshold = -1;
    assert_eq!(hp.validate(), Err(HyperParamError::CentroidThresholdNegative));
    assert!(HyperParamError::CentroidThresholdNegative.message().contains("centroid_threshold"));
}

#[test]
fn zero_max_depth_is_rejected() {
    let mut hp = HyperParam::default();
    hp.max_depth = 0;
    assert_eq!(hp.validate(), Err(HyperParamError::MaxDepthZero));
    assert!(HyperParamError::MaxDepthZero.message().contains("max_depth"));
}

#[test]
fn non_positive_linear_c_is_rejected() {
    let mut hp = HyperParam::default();
    hp.linear.c = 0;
    assert_eq!(hp.validate(), Err(HyperParamError::LinearCNotPositive));
}

#[test]
fn non_positive_linear_epsilon_is_rejected() {
    let mut hp = HyperParam::default();
    hp.linear.epsilon = -3;
    assert_eq!(hp.validate(), Err(HyperParamError::LinearEpsilonNotPositive));
}

#[test]
fn zero_linear_max_iter_is_rejected() {
    let mut hp = HyperParam::default();
    hp.linear.max_iter = 0;
    assert_eq!(hp.validate(), Err(HyperParamError::LinearMaxIterZero));
}

#[test]
fn negative_weight_threshold_is_rejected() {
    let mut hp = HyperParam::default();
    hp.linear.weight_threshold = -1;
    assert_eq!(hp.validate(), Err(HyperParamError::LinearWeightThresholdNegative));
}

#[test]
fn zero_cluster_max_iter_is_rejected() {
    let mut hp = HyperParam::default();
    hp.cluster.k_means_max_iter = 0;
    assert_eq!(hp.validate(), Err(HyperParamError::ClusterMaxIterZero));
}

#[test]
fn non_positive_cluster_epsilon_is_rejected() {
    let mut hp = HyperParam::default();
    hp.cluster.epsilon = 0;
    assert_eq!(hp.validate(), Err(HyperParamError::ClusterEpsilonNotPositive));
}

#[test]
fn first_violated_bound_wins() {
    let mut hp = HyperParam::default();
    hp.n_trees = 0;
    hp.max_depth = 0;
    assert_eq!(hp.validate(), Err(HyperParamError::NTreesZero));
}
