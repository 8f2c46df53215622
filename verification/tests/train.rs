use parabel::dataset::DataSet;
use parabel::error::{DatasetError, HyperParamError, TrainError};
use parabel::hyper::HyperParam;
use parabel::sparse::Entry;
use parabel::tree::TreeNode;
use parabel::SCALE;

fn fx(x: f64) -> i64 {
    (x * SCALE as f64).round() as i64
}

fn small_hp() -> HyperParam {
    let mut hp = HyperParam::default();
    hp.n_trees = 1;
    hp.min_branch_size = 2;
    hp.max_depth = 4;
    hp
}

fn single_example_dataset() -> DataSet {
    DataSet {
        n_features: 3,
        n_labels: 4,
        feature_lists: vec![vec![
            Entry { index: 0, value: fx(0.5) },
            Entry { index: 2, value: fx(1.5) },
        ]],
        label_sets: vec![vec![0, 2, 3]],
    }
}

fn three_example_dataset() -> DataSet {
    DataSet {
        n_features: 4,
        n_labels: 3,
        feature_lists: vec![
            vec![Entry { index: 0, value: fx(1.0) }, Entry { index: 2, value: fx(2.0) }],
            vec![Entry { index: 1, value: fx(1.0) }, Entry { index: 3, value: fx(2.0) }],
            vec![Entry { index: 0, value: fx(1.0) }, Entry { index: 3, value: fx(2.0) }],
        ],
        label_sets: vec![vec![0, 1], vec![0, 2], vec![1, 2]],
    }
}

fn leaf_labels_of(node: &TreeNode, out: &mut Vec<u32>) {
    match node {
        TreeNode::Branch { children, .. } => {
            for c in children {
                leaf_labels_of(c, out);
            }
        }
        TreeNode::Leaf { labels, .. } => out.extend(labels.iter().copied()),
    }
}

fn depth_of(node: &TreeNode) -> usize {
    match node {
        TreeNode::Branch { children, .. } => {
            1 + children.iter().map(depth_of).max().unwrap_or(0)
        }
        TreeNode::Leaf { .. } => 1,
    }
}

#[test]
fn single_example_gives_single_leaf() {
    let model = small_hp().train(single_example_dataset()).unwrap();
    assert_eq!(model.trees.len(), 1);
    assert_eq!(model.n_features, 3);
    match &model.trees[0].root {
        TreeNode::Leaf { labels, classifier } => {
            assert_eq!(labels, &vec![0, 2, 3]);
            assert_eq!(classifier.weights.len(), 3);
        }
        TreeNode::Branch { .. } => panic!("expected a leaf root"),
    }
}

#[test]
fn depth_one_gives_single_node_leaf_trees() {
    let mut hp = small_hp();
    hp.max_depth = 1;
    let model = hp.train(three_example_dataset()).unwrap();
    assert_eq!(model.trees.len(), 1);
    match &model.trees[0].root {
        TreeNode::Leaf { labels, .. } => assert_eq!(labels, &vec![0, 1, 2]),
        TreeNode::Branch { .. } => panic!("expected a leaf root at depth cap 1"),
    }
}

#[test]
fn leaves_hold_exactly_the_used_labels() {
    let mut hp = small_hp();
    hp.n_trees = 2;
    let model = hp.train(three_example_dataset()).unwrap();
    assert_eq!(model.trees.len(), 2);
    for tree in &model.trees {
        let mut labels = Vec::new();
        leaf_labels_of(&tree.root, &mut labels);
        labels.sort();
        assert_eq!(labels, vec![0, 1, 2]);
        assert!(depth_of(&tree.root) <= hp.max_depth);
    }
}

#[test]
fn branches_have_at_least_two_children() {
    let mut hp = small_hp();
    hp.max_depth = 8;
    let model = hp.train(three_example_dataset()).unwrap();
    fn check(node: &TreeNode) {
        match node {
            TreeNode::Branch { children, classifier } => {
                assert!(children.len() >= 2);
                assert_eq!(classifier.weights.len(), children.len());
                for c in children {
                    check(c);
                }
            }
            TreeNode::Leaf { labels, classifier } => {
                assert!(!labels.is_empty());
                assert_eq!(classifier.weights.len(), labels.len());
            }
        }
    }
    check(&model.trees[0].root);
}

#[test]
fn training_is_deterministic() {
    let hp = small_hp();
    let m1 = hp.train(three_example_dataset()).unwrap();
    let m2 = hp.train(three_example_dataset()).unwrap();
    assert_eq!(m1, m2);
}

#[test]
fn invalid_hyper_params_abort_training() {
    let mut hp = small_hp();
    hp.n_trees = 0;
    assert_eq!(
        hp.train(three_example_dataset()),
        Err(TrainError::InvalidHyperParam(HyperParamError::NTreesZero))
    );
}

#[test]
fn mismatched_lengths_are_malformed() {
    let mut ds = three_example_dataset();
    ds.label_sets.pop();
    assert_eq!(
        small_hp().train(ds),
        Err(TrainError::MalformedDataset(DatasetError::LengthMismatch))
    );
}

#[test]
fn out_of_range_feature_index_is_malformed() {
    let mut ds = three_example_dataset();
    ds.feature_lists[0][1].index = 4;
    assert_eq!(
        small_hp().train(ds),
        Err(TrainError::MalformedDataset(DatasetError::FeatureListMalformed))
    );
}

#[test]
fn out_of_range_label_is_malformed() {
    let mut ds = three_example_dataset();
    ds.label_sets[2] = vec![1, 3];
    assert_eq!(
        small_hp().train(ds),
        Err(TrainError::MalformedDataset(DatasetError::LabelSetMalformed))
    );
}

#[test]
fn dataset_without_labels_is_rejected() {
    let mut ds = three_example_dataset();
    ds.label_sets = vec![vec![], vec![], vec![]];
    assert_eq!(
        small_hp().train(ds),
        Err(TrainError::MalformedDataset(DatasetError::NoLabelAssignments))
    );
}

#[test]
fn disjoint_clusters_are_recovered_by_the_first_split() {
    // Two groups of labels with disjoint, linearly separable features.
    let ds = DataSet {
        n_features: 4,
        n_labels: 4,
        feature_lists: vec![
            vec![Entry { index: 0, value: fx(1.0) }],
            vec![Entry { index: 1, value: fx(1.0) }],
            vec![Entry { index: 2, value: fx(1.0) }],
            vec![Entry { index: 3, value: fx(1.0) }],
        ],
        label_sets: vec![vec![0], vec![1], vec![2], vec![3]],
    };
    let mut hp = small_hp();
    hp.max_depth = 2;
    let model = hp.train(ds).unwrap();
    match &model.trees[0].root {
        TreeNode::Branch { children, .. } => {
            assert_eq!(children.len(), 2);
            let mut sizes: Vec<usize> = children
                .iter()
                .map(|c| {
                    let mut ls = Vec::new();
                    leaf_labels_of(c, &mut ls);
                    ls.len()
                })
                .collect();
            sizes.sort();
            assert_eq!(sizes, vec![2, 2]);
        }
        TreeNode::Leaf { .. } => panic!("expected a branch"),
    }
}
