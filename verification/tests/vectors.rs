use parabel::examples::TrainingExamples;
use parabel::dataset::DataSet;
use parabel::sparse::{l2_normalize, prune_with_threshold, sv_dot, Entry};
use parabel::SCALE;

fn fx(x: f64) -> i64 {
    (x * SCALE as f64).round() as i64
}

#[test]
fn normalize_three_four_five() {
    let v = vec![Entry { index: 0, value: fx(3.0) }, Entry { index: 1, value: fx(4.0) }];
    let r = l2_normalize(&v);
    // The norm is exactly 5.0 in fixed point, so the quotients truncate
    // from 0.6 and 0.8.
    assert_eq!(r.len(), 2);
    assert_eq!(r[0].value, 3 * SCALE / 5);
    assert_eq!(r[1].value, 4 * SCALE / 5);
}

#[test]
fn normalize_zero_vector_gives_empty() {
    let v = vec![Entry { index: 2, value: 0 }];
    assert!(l2_normalize(&v).is_empty());
}

#[test]
fn prune_drops_small_magnitudes() {
    let v = vec![
        Entry { index: 0, value: 100 },
        Entry { index: 1, value: -500 },
        Entry { index: 5, value: 400 },
    ];
    let r = prune_with_threshold(&v, 400);
    assert_eq!(r, vec![Entry { index: 1, value: -500 }, Entry { index: 5, value: 400 }]);
}

#[test]
fn dot_product_of_unit_vectors() {
    let a = vec![Entry { index: 0, value: SCALE }];
    let b = vec![Entry { index: 0, value: SCALE }, Entry { index: 3, value: SCALE }];
    assert_eq!(sv_dot(&a, &b), SCALE * SCALE);
    let c = vec![Entry { index: 3, value: SCALE }];
    assert_eq!(sv_dot(&a, &c), 0);
}

#[test]
fn bias_column_survives_row_selection() {
    let ds = DataSet {
        n_features: 3,
        n_labels: 2,
        feature_lists: vec![
            vec![Entry { index: 0, value: SCALE }],
            vec![Entry { index: 2, value: SCALE }],
            vec![Entry { index: 1, value: SCALE }],
        ],
        label_sets: vec![vec![0], vec![1], vec![0, 1]],
    };
    let te = TrainingExamples::new_from_dataset(&ds);
    assert_eq!(te.bias_index, 3);
    assert_eq!(te.feature_matrix.n_cols, 4);
    for row in &te.feature_matrix.rows {
        let last = row.last().unwrap();
        assert_eq!(last.index, 3);
        assert_eq!(last.value, SCALE);
    }

    // Select rows 0 and 2: column 2 becomes empty and is dropped, but the
    // bias column survives and the global indices are preserved.
    let child = te.take_examples_by_indices(&vec![0, 2]);
    assert_eq!(child.feature_matrix.rows.len(), 2);
    assert_eq!(*child.index_to_feature.last().unwrap(), 3);
    for (k, w) in child.index_to_feature.windows(2).map(|w| (w[0], w[1])).enumerate() {
        let _ = k;
        assert!(w.0 < w.1);
    }
    for row in &child.feature_matrix.rows {
        let last = row.last().unwrap();
        assert_eq!(last.index as usize, child.feature_matrix.n_cols - 1);
        assert_eq!(last.value, SCALE);
    }
    // Row 0 of the child is row 0 of the parent in global coordinates.
    let g: Vec<(u32, i64)> = child.feature_matrix.rows[0]
        .iter()
        .map(|e| (child.index_to_feature[e.index as usize], e.value))
        .collect();
    assert_eq!(g, vec![(0, SCALE), (3, SCALE)]);

    // A second selection composes: global indices still refer to the
    // original feature space.
    let grand = child.take_examples_by_indices(&vec![1]);
    let g2: Vec<(u32, i64)> = grand.feature_matrix.rows[0]
        .iter()
        .map(|e| (grand.index_to_feature[e.index as usize], e.value))
        .collect();
    assert_eq!(g2, vec![(1, SCALE), (3, SCALE)]);
}

#[test]
fn find_examples_by_label_and_by_label_set() {
    let ds = DataSet {
        n_features: 2,
        n_labels: 3,
        feature_lists: vec![
            vec![Entry { index: 0, value: SCALE }],
            vec![Entry { index: 1, value: SCALE }],
            vec![Entry { index: 0, value: SCALE }, Entry { index: 1, value: SCALE }],
        ],
        label_sets: vec![vec![0], vec![1, 2], vec![2]],
    };
    let te = TrainingExamples::new_from_dataset(&ds);
    assert_eq!(te.find_examples_with_label(2), vec![1, 2]);
    assert_eq!(te.find_examples_with_label(0), vec![0]);
    assert_eq!(te.find_examples_with_labels(&vec![0, 1]), vec![0, 1]);
    assert_eq!(te.find_examples_with_labels(&vec![2]), vec![1, 2]);

    // The union over the two disjoint halves covers every matching example.
    let union: Vec<usize> = {
        let mut u = te.find_examples_with_labels(&vec![0]);
        for i in te.find_examples_with_labels(&vec![1, 2]) {
            if !u.contains(&i) {
                u.push(i);
            }
        }
        u.sort();
        u
    };
    assert_eq!(union, te.find_examples_with_labels(&vec![0, 1, 2]));
}
