use parabel::cluster::compute_label_centroids;
use parabel::dataset::DataSet;
use parabel::sparse::Entry;
use parabel::SCALE;

fn fx(x: f64) -> i64 {
    (x * SCALE as f64).round() as i64
}

fn approx(value: i64, expected: f64) -> bool {
    (value as f64 / SCALE as f64 - expected).abs() < 1e-4
}

fn fixture() -> DataSet {
    DataSet {
        n_features: 4,
        n_labels: 3,
        feature_lists: vec![
            vec![Entry { index: 0, value: fx(1.0) }, Entry { index: 2, value: fx(2.0) }],
            vec![Entry { index: 1, value: fx(1.0) }, Entry { index: 3, value: fx(2.0) }],
            vec![Entry { index: 0, value: fx(1.0) }, Entry { index: 3, value: fx(2.0) }],
        ],
        label_sets: vec![vec![0, 1], vec![0, 2], vec![1, 2]],
    }
}

#[test]
fn test_compute_label_centroids() {
    let dataset = fixture();
    let threshold = fx(1.0 / 18f64.sqrt() + 1e-4);
    let (labels, vecs) = compute_label_centroids(&dataset, threshold);
    assert_eq!(labels, vec![0, 1, 2]);
    assert_eq!(vecs.len(), 3);

    let s10 = 10f64.sqrt();
    let c0 = &vecs[0];
    assert_eq!(c0.iter().map(|e| e.index).collect::<Vec<_>>(), vec![0, 1, 2, 3]);
    assert!(approx(c0[0].value, 1.0 / s10));
    assert!(approx(c0[1].value, 1.0 / s10));
    assert!(approx(c0[2].value, 2.0 / s10));
    assert!(approx(c0[3].value, 2.0 / s10));

    let s12 = 12f64.sqrt();
    let c1 = &vecs[1];
    assert_eq!(c1.iter().map(|e| e.index).collect::<Vec<_>>(), vec![0, 2, 3]);
    assert!(approx(c1[0].value, 2.0 / s12));
    assert!(approx(c1[1].value, 2.0 / s12));
    assert!(approx(c1[2].value, 2.0 / s12));

    // The entries at features 0 and 1 fall below the threshold and are pruned.
    let s18 = 18f64.sqrt();
    let c2 = &vecs[2];
    assert_eq!(c2.iter().map(|e| e.index).collect::<Vec<_>>(), vec![3]);
    assert!(approx(c2[0].value, 4.0 / s18));
}

#[test]
fn centroids_are_l2_normalized() {
    let dataset = fixture();
    let (_, vecs) = compute_label_centroids(&dataset, 0);
    for v in &vecs {
        let ss: f64 = v
            .iter()
            .map(|e| {
                let x = e.value as f64 / SCALE as f64;
                x * x
            })
            .sum();
        assert!((ss - 1.0).abs() < 1e-4, "sum of squares was {}", ss);
    }
}

#[test]
fn raising_the_threshold_never_adds_entries() {
    let dataset = fixture();
    let t1 = fx(0.1);
    let t2 = fx(0.3);
    let (labels1, vecs1) = compute_label_centroids(&dataset, t1);
    let (labels2, vecs2) = compute_label_centroids(&dataset, t2);
    assert_eq!(labels1, labels2);
    for (v1, v2) in vecs1.iter().zip(vecs2.iter()) {
        for e in v2 {
            assert!(v1.contains(e), "entry {:?} appeared only at the higher threshold", e);
        }
        assert!(v2.len() <= v1.len());
    }
}

#[test]
fn unused_labels_get_no_centroid() {
    let dataset = DataSet {
        n_features: 2,
        n_labels: 5,
        feature_lists: vec![vec![Entry { index: 0, value: fx(1.0) }]],
        label_sets: vec![vec![1, 3]],
    };
    let (labels, vecs) = compute_label_centroids(&dataset, 0);
    assert_eq!(labels, vec![1, 3]);
    assert_eq!(vecs.len(), 2);
}
