use parabel::cluster::{compute_label_centroids, LabelCluster};
use parabel::hyper::ClusterHyperParam;
use parabel::matrix::SparseMat;
use parabel::dataset::DataSet;
use parabel::sparse::Entry;
use parabel::SCALE;

fn fx(x: f64) -> i64 {
    (x * SCALE as f64).round() as i64
}

fn cluster_from(ds: &DataSet) -> LabelCluster {
    let (labels, vecs) = compute_label_centroids(ds, 0);
    LabelCluster {
        labels,
        feature_matrix: SparseMat { rows: vecs, n_cols: ds.n_features as usize },
    }
}

fn hp() -> ClusterHyperParam {
    ClusterHyperParam { k_means_max_iter: 10, epsilon: 7 }
}

#[test]
fn split_is_balanced_and_partitions_the_labels() {
    let ds = DataSet {
        n_features: 4,
        n_labels: 5,
        feature_lists: vec![
            vec![Entry { index: 0, value: fx(1.0) }],
            vec![Entry { index: 1, value: fx(1.0) }],
            vec![Entry { index: 2, value: fx(1.0) }],
            vec![Entry { index: 3, value: fx(1.0) }],
            vec![Entry { index: 0, value: fx(1.0) }, Entry { index: 1, value: fx(1.0) }],
        ],
        label_sets: vec![vec![0], vec![1], vec![2], vec![3], vec![4]],
    };
    let cluster = cluster_from(&ds);
    assert_eq!(cluster.len(), 5);
    let children = cluster.split(&hp()).expect("five distinct centroids must split");
    assert_eq!(children.len(), 2);
    let (a, b) = (&children[0], &children[1]);
    assert!((a.len() as i64 - b.len() as i64).abs() <= 1);
    let mut all: Vec<u32> = a.labels.iter().chain(b.labels.iter()).copied().collect();
    all.sort();
    assert_eq!(all, vec![0, 1, 2, 3, 4]);
}

#[test]
fn singleton_cluster_does_not_split() {
    let ds = DataSet {
        n_features: 2,
        n_labels: 1,
        feature_lists: vec![vec![Entry { index: 0, value: fx(1.0) }]],
        label_sets: vec![vec![0]],
    };
    let cluster = cluster_from(&ds);
    assert!(cluster.split(&hp()).is_none());
}

#[test]
fn identical_centroids_do_not_split() {
    let ds = DataSet {
        n_features: 2,
        n_labels: 3,
        feature_lists: vec![vec![Entry { index: 0, value: fx(2.0) }]],
        label_sets: vec![vec![0, 1, 2]],
    };
    let cluster = cluster_from(&ds);
    assert_eq!(cluster.len(), 3);
    assert!(cluster.split(&hp()).is_none());
}

#[test]
fn separable_groups_are_recovered() {
    // Labels 0 and 1 live on features {0, 1}; labels 2 and 3 on
    // features {2, 3}. The first split must recover the two groups.
    let ds = DataSet {
        n_features: 4,
        n_labels: 4,
        feature_lists: vec![
            vec![Entry { index: 0, value: fx(1.0) }, Entry { index: 1, value: fx(1.0) }],
            vec![Entry { index: 0, value: fx(1.0) }, Entry { index: 1, value: fx(1.0) }],
            vec![Entry { index: 2, value: fx(1.0) }, Entry { index: 3, value: fx(1.0) }],
            vec![Entry { index: 2, value: fx(1.0) }, Entry { index: 3, value: fx(1.0) }],
        ],
        label_sets: vec![vec![0], vec![1], vec![2], vec![3]],
    };
    let cluster = cluster_from(&ds);
    let children = cluster.split(&hp()).expect("distinct centroids must split");
    let mut groups: Vec<Vec<u32>> = children.iter().map(|c| c.labels.clone()).collect();
    groups.sort();
    assert_eq!(groups, vec![vec![0, 1], vec![2, 3]]);
}
