//! The tree trainer: recursive node induction, and the training entry
//! point that validates, prepares the shared state and grows the forest.

use vstd::prelude::*;
use vstd::multiset::Multiset;
use crate::sparse::{Entry, MAX_ROWS, sv_bounded, sv_wf, spec_normalize, lemma_normalize_wf};
use crate::fx::SCALE;
use crate::matrix::SparseMat;
use crate::dataset::{DataSet, lemma_sorted_u32_len, lemma_sorted_usize_len};
use crate::error::{TrainError, DatasetError};
use crate::hyper::{HyperParam, LinearHyperParam};
use crate::cluster::{LabelCluster, label_has_example, all_rows_equal, spec_centroid,
    spec_centroid_raw, centroid_col_upto, rows_identical, rows_selected, cluster_split_ok,
    sel_labels};
use crate::examples::{TrainingExamples, sets_intersect, spec_examples_with_label,
    spec_examples_with_labels, spec_examples_with_label_in, lemma_examples_with_label_congruent,
    spec_examples_with_labels_in, lemma_examples_with_labels_congruent};
use crate::linear::{MultiLabelClassifier, train_multi_label, spec_weight, spec_weight_rows};
use crate::progress::Progress;
use crate::tree::{TreeNode, Tree, Model, node_wf, node_height, nodes_height, node_leaf_labels,
    nodes_leaf_labels};

verus! {

/// Some example of the training set carries label `l`.
pub open spec fn label_covered(te: &TrainingExamples, l: u32) -> bool {
    exists|i: int| 0 <= i < te.label_sets@.len() && (#[trigger] te.label_sets@[i])@.contains(l)
}

/// Every label of the cluster is carried by some example.
pub open spec fn cluster_covered(te: &TrainingExamples, lc: &LabelCluster) -> bool {
    forall|q: int| 0 <= q < lc.labels@.len() ==> label_covered(te, #[trigger] lc.labels@[q])
}

/// Label `l` is carried by some example listed in `list`.
pub open spec fn list_covers_label(te: &TrainingExamples, list: Seq<usize>, l: u32) -> bool {
    exists|j: int|
        0 <= j < list.len() && (#[trigger] te.label_sets@[list[j] as int])@.contains(l)
}

/// Every label of `labels` is carried by some example listed in `list`.
pub open spec fn list_covers(te: &TrainingExamples, list: Seq<usize>, labels: Seq<u32>) -> bool {
    forall|q: int|
        0 <= q < labels.len() ==> #[trigger] list_covers_label(te, list, labels[q])
}

/// The label multisets of a list of clusters, joined.
pub open spec fn clusters_labels(cs: Seq<LabelCluster>) -> Multiset<u32>
    decreases cs.len(),
{
    if cs.len() == 0 {
        Multiset::empty()
    } else {
        clusters_labels(cs.drop_last()).add(cs.last().labels@.to_multiset())
    }
}

/// Every node of a trained subtree is what the trainer produces for its
/// label cluster: the branch/leaf decision follows the depth and size
/// limits and the split's outcome; a leaf holds exactly its cluster's
/// labels with one classifier output per label; a branch's children
/// are, in order, trained subtrees for the two halves of a balanced
/// 2-means split of the cluster, each over its selected centroid rows.
pub open spec fn node_trained(
    n: TreeNode,
    cl_labels: Seq<u32>,
    cl_rows: Seq<Vec<Entry>>,
    n_cols: nat,
    depth: int,
    hp: HyperParam,
) -> bool
    decreases n,
{
    &&& ((n is Branch) <==> (depth < hp.max_depth && cl_labels.len() >= hp.min_branch_size
        && cl_labels.len() > 1 && !rows_identical(cl_rows)))
    &&& match n {
        TreeNode::Leaf { classifier, labels } => {
            &&& labels@ == cl_labels
            &&& classifier.weights@.len() == cl_labels.len()
        },
        TreeNode::Branch { classifier, children } => {
            &&& children@.len() == 2
            &&& classifier.weights@.len() == 2
            &&& exists|
                ia: Seq<usize>,
                ib: Seq<usize>,
                crows0: Seq<Vec<Entry>>,
                crows1: Seq<Vec<Entry>>,
            |
                {
                    &&& #[trigger] cluster_split_ok(cl_rows, n_cols, ia, ib)
                    &&& #[trigger] rows_selected(cl_rows, ia, crows0)
                    &&& #[trigger] rows_selected(cl_rows, ib, crows1)
                    &&& node_trained(
                        children@[0],
                        sel_labels(cl_labels, ia),
                        crows0,
                        n_cols,
                        depth + 1,
                        hp,
                    )
                    &&& node_trained(
                        children@[1],
                        sel_labels(cl_labels, ib),
                        crows1,
                        n_cols,
                        depth + 1,
                        hp,
                    )
                }
        },
    }
}

/// Every tree of the model is a trained subtree for the given root
/// label cluster.
pub open spec fn forest_trained(
    m: Model,
    cl_labels: Seq<u32>,
    cl_rows: Seq<Vec<Entry>>,
    hp: HyperParam,
) -> bool {
    forall|t: int|
        0 <= t < m.trees@.len() ==> node_trained(
            (#[trigger] m.trees@[t]).root,
            cl_labels,
            cl_rows,
            m.n_features as nat,
            1,
            hp,
        )
}

/// Two label lists that split `parent`: balanced sizes and, together,
/// exactly the parent's labels.
pub open spec fn labels_split(parent: Seq<u32>, la: Seq<u32>, lb: Seq<u32>) -> bool {
    &&& la.len() == (parent.len() + 1) / 2
    &&& lb.len() == parent.len() - (parent.len() + 1) / 2
    &&& la.to_multiset().add(lb.to_multiset()) == parent.to_multiset()
}

proof fn lemma_nodes_height_bound(s: Seq<TreeNode>, m: int)
    requires
        forall|i: int| 0 <= i < s.len() ==> node_height(#[trigger] s[i]) <= m,
        m >= 0,
    ensures
        nodes_height(s) <= m,
    decreases s.len(),
{
    if s.len() > 0 {
        let t = s.drop_last();
        assert(forall|i: int| 0 <= i < t.len() ==> #[trigger] t[i] == s[i]);
        lemma_nodes_height_bound(t, m);
        assert(s[s.len() - 1] == s.last());
    }
}

/// A reusable trainer for the trees of one forest.
pub struct TreeTrainer {
    pub hyper_param: HyperParam,
    pub n_total_examples: usize,
}

impl TreeTrainer {
    /// Valid hyper-parameters and a total example count within range.
    pub open spec fn wf(&self) -> bool {
        &&& self.hyper_param.spec_validate() is Ok
        &&& 1 <= self.n_total_examples <= MAX_ROWS
    }

    /// The linear hyper-parameters for a node with `n_examples` examples:
    /// the regularisation constant adapted to the node's share of the
    /// training set.
    pub fn classifier_hyper_param(&self, n_examples: usize) -> (r: LinearHyperParam)
        requires
            self.wf(),
            1 <= n_examples <= self.n_total_examples,
        ensures
            r.c as int == self.hyper_param.linear.spec_adapted_c(
                n_examples as int,
                self.n_total_examples as int,
            ),
            r.weight_threshold == self.hyper_param.linear.weight_threshold,
    {
        self.hyper_param.linear.adapt_to_sample_size(n_examples, self.n_total_examples)
    }

    /// Trains the node's one-vs-rest classifier over the given examples,
    /// with one output per index list, and counts the trained outputs in
    /// the progress counter.
    fn train_classifier(
        &self,
        examples: &TrainingExamples,
        label_to_example_indices: &Vec<Vec<usize>>,
        progress: &mut Progress,
    ) -> (r: MultiLabelClassifier)
        requires
            self.wf(),
            examples.wf(),
            1 <= examples.feature_matrix.rows@.len() <= self.n_total_examples,
            forall|k: int, j: int|
                0 <= k < label_to_example_indices@.len() && 0 <= j
                    < label_to_example_indices@[k]@.len()
                    ==> (#[trigger] label_to_example_indices@[k]@[j])
                    < examples.feature_matrix.rows@.len(),
            forall|k: int|
                0 <= k < label_to_example_indices@.len()
                    ==> (#[trigger] label_to_example_indices@[k])@.len() <= MAX_ROWS,
        ensures
            r.weights@.len() == label_to_example_indices@.len(),
            forall|k: int|
                0 <= k < r.weights@.len() ==> (#[trigger] r.weights@[k])@ == spec_weight(
                    &examples.feature_matrix,
                    label_to_example_indices@[k]@,
                    examples.index_to_feature@,
                    self.hyper_param.linear.weight_threshold as int,
                ),
            final(progress).count == if old(progress).count + label_to_example_indices@.len()
                <= u64::MAX {
                old(progress).count + label_to_example_indices@.len()
            } else {
                u64::MAX as int
            },
            final(progress).count >= old(progress).count,
            final(progress).total == old(progress).total,
    {
        let hp = self.classifier_hyper_param(examples.len());
        let classifier = train_multi_label(
            &examples.feature_matrix,
            label_to_example_indices,
            &examples.index_to_feature,
            &hp,
        );
        progress.add(label_to_example_indices.len() as u64);
        classifier
    }

    /// Trains a leaf node holding the cluster's labels: one classifier
    /// output per label, positives found by label membership.
    fn train_leaf_node(
        &self,
        examples: &TrainingExamples,
        leaf_labels: &Vec<u32>,
        progress: &mut Progress,
    ) -> (r: TreeNode)
        requires
            self.wf(),
            examples.wf(),
            1 <= examples.feature_matrix.rows@.len() <= self.n_total_examples,
            1 <= leaf_labels@.len(),
        ensures
            node_wf(r),
            node_height(r) == 1,
            node_leaf_labels(r) == leaf_labels@.to_multiset(),
            r matches TreeNode::Leaf { classifier, labels } && ({
                &&& labels@ == leaf_labels@
                &&& classifier.weights@.len() == leaf_labels@.len()
                &&& forall|k: int|
                    0 <= k < leaf_labels@.len() ==> (#[trigger] classifier.weights@[k])@
                        == spec_weight(
                        &examples.feature_matrix,
                        spec_examples_with_label(
                            examples,
                            leaf_labels@[k],
                            examples.label_sets@.len() as int,
                        ),
                        examples.index_to_feature@,
                        self.hyper_param.linear.weight_threshold as int,
                    )
            }),
    {
        let kk = leaf_labels.len();
        let mut lists: Vec<Vec<usize>> = Vec::new();
        for k in 0..kk
            invariant
                kk == leaf_labels@.len(),
                examples.wf(),
                lists@.len() == k,
                forall|k2: int, j: int|
                    0 <= k2 < k && 0 <= j < lists@[k2]@.len() ==> (#[trigger] lists@[k2]@[j])
                        < examples.feature_matrix.rows@.len(),
                forall|k2: int| 0 <= k2 < k ==> (#[trigger] lists@[k2])@.len() <= MAX_ROWS,
                forall|k2: int|
                    0 <= k2 < k ==> (#[trigger] lists@[k2])@ == spec_examples_with_label(
                        examples,
                        leaf_labels@[k2],
                        examples.label_sets@.len() as int,
                    ),
        {
            let l = examples.find_examples_with_label(leaf_labels[k]);
            proof {
                lemma_sorted_usize_len(l@, examples.label_sets@.len() as int);
            }
            lists.push(l);
        }
        let classifier = self.train_classifier(examples, &lists, progress);
        let mut labels: Vec<u32> = Vec::new();
        for k in 0..kk
            invariant
                kk == leaf_labels@.len(),
                labels@.len() == k,
                forall|k2: int| 0 <= k2 < k ==> #[trigger] labels@[k2] == leaf_labels@[k2],
        {
            labels.push(leaf_labels[k]);
        }
        proof {
            assert(labels@ =~= leaf_labels@);
        }
        TreeNode::Leaf { classifier, labels }
    }

    /// Recursively trains the subtree for one label cluster: splits the
    /// cluster while the depth and size limits allow and the split
    /// succeeds, else trains a leaf. The resulting subtree is well
    /// formed, respects the depth budget, and its leaves hold exactly
    /// the cluster's labels.
    pub fn train_subtree(
        &self,
        depth: usize,
        examples: &TrainingExamples,
        label_cluster: &LabelCluster,
        progress: &mut Progress,
    ) -> (r: TreeNode)
        requires
            self.wf(),
            1 <= depth <= self.hyper_param.max_depth,
            examples.wf(),
            1 <= examples.feature_matrix.rows@.len() <= self.n_total_examples,
            label_cluster.wf(),
            cluster_covered(examples, label_cluster),
        ensures
            node_wf(r),
            node_height(r) <= self.hyper_param.max_depth - depth + 1,
            node_leaf_labels(r) == label_cluster.labels@.to_multiset(),
            node_trained(
                r,
                label_cluster.labels@,
                label_cluster.feature_matrix.rows@,
                label_cluster.feature_matrix.n_cols as nat,
                depth as int,
                self.hyper_param,
            ),
            (r is Branch) <==> (depth < self.hyper_param.max_depth
                && label_cluster.labels@.len() >= self.hyper_param.min_branch_size
                && label_cluster.labels@.len() > 1 && !all_rows_equal(
                &label_cluster.feature_matrix,
            )),
            !(r is Branch) ==> (r matches TreeNode::Leaf { classifier, labels } && ({
                &&& labels@ == label_cluster.labels@
                &&& classifier.weights@.len() == label_cluster.labels@.len()
                &&& forall|k: int|
                    0 <= k < label_cluster.labels@.len() ==> (#[trigger] classifier.weights@[k])@
                        == spec_weight(
                        &examples.feature_matrix,
                        spec_examples_with_label(
                            examples,
                            label_cluster.labels@[k],
                            examples.label_sets@.len() as int,
                        ),
                        examples.index_to_feature@,
                        self.hyper_param.linear.weight_threshold as int,
                    )
            })),
            (r is Branch) ==> (r matches TreeNode::Branch { classifier, children } && ({
                &&& children@.len() == 2
                &&& classifier.weights@.len() == 2
                &&& exists|la: Seq<u32>, lb: Seq<u32>|
                    {
                        &&& #[trigger] labels_split(label_cluster.labels@, la, lb)
                        &&& node_leaf_labels(children@[0]) == la.to_multiset()
                        &&& node_leaf_labels(children@[1]) == lb.to_multiset()
                        &&& classifier.weights@[0]@ == spec_weight(
                            &examples.feature_matrix,
                            spec_examples_with_labels(
                                examples,
                                la,
                                examples.label_sets@.len() as int,
                            ),
                            examples.index_to_feature@,
                            self.hyper_param.linear.weight_threshold as int,
                        )
                        &&& classifier.weights@[1]@ == spec_weight(
                            &examples.feature_matrix,
                            spec_examples_with_labels(
                                examples,
                                lb,
                                examples.label_sets@.len() as int,
                            ),
                            examples.index_to_feature@,
                            self.hyper_param.linear.weight_threshold as int,
                        )
                    }
            })),
        decreases self.hyper_param.max_depth - depth, 1int,
    {
        if depth < self.hyper_param.max_depth && label_cluster.len()
            >= self.hyper_param.min_branch_size {
            if let Some(label_clusters) = label_cluster.split(&self.hyper_param.cluster) {
                progress.add_total(label_clusters.len() as u64);

                let ghost c0 = label_clusters@[0];
                let ghost c1 = label_clusters@[1];
                let ex0 = examples.find_examples_with_labels(&label_clusters[0].labels);
                let ex1 = examples.find_examples_with_labels(&label_clusters[1].labels);
                let ghost gex0 = ex0@;
                let ghost gex1 = ex1@;
                proof {
                    lemma_sorted_usize_len(gex0, examples.label_sets@.len() as int);
                    lemma_sorted_usize_len(gex1, examples.label_sets@.len() as int);
                    assert forall|q: int| 0 <= q < c0.labels@.len() implies #[trigger] list_covers_label(
                        examples,
                        gex0,
                        c0.labels@[q],
                    ) by {
                        let l = c0.labels@[q];
                        assert(c0.labels@.contains(l));
                        assert(label_cluster.labels@.contains(l));
                        let qq = choose|qq: int|
                            0 <= qq < label_cluster.labels@.len() && label_cluster.labels@[qq] == l;
                        assert(label_covered(examples, l));
                        let i = choose|i: int|
                            0 <= i < examples.label_sets@.len() && (
                            #[trigger] examples.label_sets@[i])@.contains(l);
                        assert(sets_intersect(examples.label_sets@[i]@, c0.labels@));
                        assert(gex0.contains(i as usize));
                        let j = choose|j: int| 0 <= j < gex0.len() && gex0[j] == i as usize;
                        assert((examples.label_sets@[gex0[j] as int])@.contains(l));
                    }
                    assert forall|q: int| 0 <= q < c1.labels@.len() implies #[trigger] list_covers_label(
                        examples,
                        gex1,
                        c1.labels@[q],
                    ) by {
                        let l = c1.labels@[q];
                        assert(c1.labels@.contains(l));
                        assert(label_cluster.labels@.contains(l));
                        let qq = choose|qq: int|
                            0 <= qq < label_cluster.labels@.len() && label_cluster.labels@[qq] == l;
                        assert(label_covered(examples, l));
                        let i = choose|i: int|
                            0 <= i < examples.label_sets@.len() && (
                            #[trigger] examples.label_sets@[i])@.contains(l);
                        assert(sets_intersect(examples.label_sets@[i]@, c1.labels@));
                        assert(gex1.contains(i as usize));
                        let j = choose|j: int| 0 <= j < gex1.len() && gex1[j] == i as usize;
                        assert((examples.label_sets@[gex1[j] as int])@.contains(l));
                    }
                }
                let mut example_index_lists: Vec<Vec<usize>> = Vec::new();
                example_index_lists.push(ex0);
                example_index_lists.push(ex1);
                proof {
                    assert(example_index_lists@[0]@ == gex0);
                    assert(example_index_lists@[1]@ == gex1);
                    assert(list_covers(examples, gex0, c0.labels@));
                    assert(list_covers(examples, gex1, c1.labels@));
                    assert forall|k: int| 0 <= k < label_clusters@.len() implies list_covers(
                        examples,
                        (#[trigger] example_index_lists@[k])@,
                        label_clusters@[k].labels@,
                    ) by {
                        if k == 0 {
                        } else {
                            assert(k == 1);
                        }
                    }
                }

                let children = self.train_child_nodes(
                    depth,
                    examples,
                    &label_clusters,
                    &example_index_lists,
                    progress,
                );
                let classifier = self.train_classifier(examples, &example_index_lists, progress);
                proof {
                    assert(nodes_height(children@) <= self.hyper_param.max_depth - depth) by {
                        lemma_nodes_height_bound(
                            children@,
                            self.hyper_param.max_depth - depth,
                        );
                    }
                    assert(clusters_labels(label_clusters@)
                        == label_cluster.labels@.to_multiset()) by {
                        let cs = label_clusters@;
                        let cs1 = cs.drop_last();
                        assert(cs1.drop_last() =~= Seq::<LabelCluster>::empty());
                        assert(cs1.last() == c0);
                        assert(cs.last() == c1);
                        assert(clusters_labels(Seq::<LabelCluster>::empty())
                            == Multiset::<u32>::empty());
                        assert(clusters_labels(cs1) == Multiset::<u32>::empty().add(
                            c0.labels@.to_multiset(),
                        ));
                        assert(clusters_labels(cs) == clusters_labels(cs1).add(
                            c1.labels@.to_multiset(),
                        ));
                        assert(Multiset::<u32>::empty().add(c0.labels@.to_multiset()).add(
                            c1.labels@.to_multiset(),
                        ) =~= c0.labels@.to_multiset().add(c1.labels@.to_multiset()));
                    }
                }
                let ghost prows = label_cluster.feature_matrix.rows@;
                let ghost pcols = label_cluster.feature_matrix.n_cols as nat;
                let ghost (gia, gib) = choose|ia: Seq<usize>, ib: Seq<usize>|
                    {
                        &&& #[trigger] cluster_split_ok(prows, pcols, ia, ib)
                        &&& label_clusters@[0].labels@ == sel_labels(label_cluster.labels@, ia)
                        &&& label_clusters@[1].labels@ == sel_labels(label_cluster.labels@, ib)
                        &&& rows_selected(prows, ia, label_clusters@[0].feature_matrix.rows@)
                        &&& rows_selected(prows, ib, label_clusters@[1].feature_matrix.rows@)
                    };
                proof {
                    assert(cluster_split_ok(prows, pcols, gia, gib));
                    let wt = self.hyper_param.linear.weight_threshold as int;
                    let ne = examples.label_sets@.len() as int;
                    assert(labels_split(label_cluster.labels@, c0.labels@, c1.labels@));
                    assert(node_leaf_labels(children@[0]) == c0.labels@.to_multiset());
                    assert(node_leaf_labels(children@[1]) == c1.labels@.to_multiset());
                    assert(gex0 == spec_examples_with_labels(examples, c0.labels@, ne));
                    assert(gex1 == spec_examples_with_labels(examples, c1.labels@, ne));
                    assert(classifier.weights@[0]@ == spec_weight(
                        &examples.feature_matrix,
                        spec_examples_with_labels(examples, c0.labels@, ne),
                        examples.index_to_feature@,
                        wt,
                    ));
                    assert(classifier.weights@[1]@ == spec_weight(
                        &examples.feature_matrix,
                        spec_examples_with_labels(examples, c1.labels@, ne),
                        examples.index_to_feature@,
                        wt,
                    ));
                }
                return TreeNode::Branch { classifier, children };
            }
        }
        self.train_leaf_node(examples, &label_cluster.labels, progress)
    }

    /// Trains the child subtrees of a branch: each child gets its own
    /// shrunken copy of the examples that match its labels.
    fn train_child_nodes(
        &self,
        depth: usize,
        examples: &TrainingExamples,
        label_clusters: &Vec<LabelCluster>,
        example_index_lists: &Vec<Vec<usize>>,
        progress: &mut Progress,
    ) -> (r: Vec<TreeNode>)
        requires
            self.wf(),
            1 <= depth < self.hyper_param.max_depth,
            examples.wf(),
            1 <= examples.feature_matrix.rows@.len() <= self.n_total_examples,
            label_clusters@.len() == example_index_lists@.len(),
            forall|k: int| 0 <= k < label_clusters@.len() ==> (#[trigger] label_clusters@[k]).wf(),
            forall|k: int, j1: int, j2: int|
                0 <= k < example_index_lists@.len() && 0 <= j1 < j2
                    < example_index_lists@[k]@.len() ==> (#[trigger] example_index_lists@[k]@[j1])
                    < (#[trigger] example_index_lists@[k]@[j2]),
            forall|k: int, j: int|
                0 <= k < example_index_lists@.len() && 0 <= j < example_index_lists@[k]@.len()
                    ==> (#[trigger] example_index_lists@[k]@[j])
                    < examples.feature_matrix.rows@.len(),
            forall|k: int|
                0 <= k < label_clusters@.len() ==> list_covers(
                    examples,
                    (#[trigger] example_index_lists@[k])@,
                    label_clusters@[k].labels@,
                ),
        ensures
            r@.len() == label_clusters@.len(),
            forall|k: int| 0 <= k < r@.len() ==> node_wf(#[trigger] r@[k]),
            forall|k: int|
                0 <= k < r@.len() ==> node_height(#[trigger] r@[k]) <= self.hyper_param.max_depth
                    - depth,
            forall|k: int|
                0 <= k < r@.len() ==> node_leaf_labels(#[trigger] r@[k])
                    == label_clusters@[k].labels@.to_multiset(),
            forall|k: int|
                0 <= k < r@.len() ==> node_trained(
                    #[trigger] r@[k],
                    label_clusters@[k].labels@,
                    label_clusters@[k].feature_matrix.rows@,
                    label_clusters@[k].feature_matrix.n_cols as nat,
                    depth + 1,
                    self.hyper_param,
                ),
            nodes_leaf_labels(r@) == clusters_labels(label_clusters@),
        decreases self.hyper_param.max_depth - depth, 0int,
    {
        let kk = label_clusters.len();
        let mut r: Vec<TreeNode> = Vec::new();
        for k in 0..kk
            invariant
                kk == label_clusters@.len(),
                self.wf(),
                1 <= depth < self.hyper_param.max_depth,
                examples.wf(),
                1 <= examples.feature_matrix.rows@.len() <= self.n_total_examples,
                label_clusters@.len() == example_index_lists@.len(),
                forall|k2: int|
                    0 <= k2 < label_clusters@.len() ==> (#[trigger] label_clusters@[k2]).wf(),
                forall|k2: int, j1: int, j2: int|
                    0 <= k2 < example_index_lists@.len() && 0 <= j1 < j2
                        < example_index_lists@[k2]@.len()
                        ==> (#[trigger] example_index_lists@[k2]@[j1])
                        < (#[trigger] example_index_lists@[k2]@[j2]),
                forall|k2: int, j: int|
                    0 <= k2 < example_index_lists@.len() && 0 <= j
                        < example_index_lists@[k2]@.len()
                        ==> (#[trigger] example_index_lists@[k2]@[j])
                        < examples.feature_matrix.rows@.len(),
                forall|k2: int|
                    0 <= k2 < label_clusters@.len() ==> list_covers(
                        examples,
                        (#[trigger] example_index_lists@[k2])@,
                        label_clusters@[k2].labels@,
                    ),
                r@.len() == k,
                forall|k2: int| 0 <= k2 < k ==> node_wf(#[trigger] r@[k2]),
                forall|k2: int|
                    0 <= k2 < k ==> node_height(#[trigger] r@[k2])
                        <= self.hyper_param.max_depth - depth,
                forall|k2: int|
                    0 <= k2 < k ==> node_leaf_labels(#[trigger] r@[k2])
                        == label_clusters@[k2].labels@.to_multiset(),
                forall|k2: int|
                    0 <= k2 < k ==> node_trained(
                        #[trigger] r@[k2],
                        label_clusters@[k2].labels@,
                        label_clusters@[k2].feature_matrix.rows@,
                        label_clusters@[k2].feature_matrix.n_cols as nat,
                        depth + 1,
                        self.hyper_param,
                    ),
                nodes_leaf_labels(r@) == clusters_labels(label_clusters@.take(k as int)),
            decreases kk - k,
        {
            let cluster = &label_clusters[k];
            let list = &example_index_lists[k];
            proof {
                assert(list_covers(examples, list@, cluster.labels@));
                assert(list@.len() >= 1) by {
                    assert(cluster.labels@.len() >= 1);
                    assert(list_covers_label(examples, list@, cluster.labels@[0]));
                    let j = choose|j: int|
                        0 <= j < list@.len() && (#[trigger] examples.label_sets@[list@[j] as int])@.contains(
                            cluster.labels@[0],
                        );
                }
                lemma_sorted_usize_len(list@, examples.feature_matrix.rows@.len() as int);
            }
            let cluster_examples = examples.take_examples_by_indices(list);
            proof {
                assert(cluster_covered(&cluster_examples, cluster)) by {
                    assert forall|q: int| 0 <= q < cluster.labels@.len() implies label_covered(
                        &cluster_examples,
                        #[trigger] cluster.labels@[q],
                    ) by {
                        let l = cluster.labels@[q];
                        assert(list_covers_label(examples, list@, l));
                        let j = choose|j: int|
                            0 <= j < list@.len() && (
                            #[trigger] examples.label_sets@[list@[j] as int])@.contains(l);
                        assert((cluster_examples.label_sets@[j])@ == examples.label_sets@[list@[j] as int]@);
                        assert((cluster_examples.label_sets@[j])@.contains(l));
                    }
                }
            }
            let node = self.train_subtree(depth + 1, &cluster_examples, cluster, progress);
            let ghost old_r = r@;
            r.push(node);
            proof {
                assert(r@.drop_last() =~= old_r);
                assert(r@.last() == node);
                crate::sparse::lemma_take_succ(label_clusters@, k as int);
                assert(label_clusters@.take(k as int + 1).drop_last() =~= label_clusters@.take(
                    k as int,
                ));
                assert(label_clusters@.take(k as int + 1).last() == label_clusters@[k as int]);
            }
        }
        proof {
            assert(label_clusters@.take(kk as int) =~= label_clusters@);
        }
        r
    }
}

/// The root training matrix of a dataset: each example's feature list
/// L2-normalised with the bias entry appended, and the identity column
/// map over `n_features + 1` columns.
pub open spec fn root_matrix_of(ds: DataSet, rows: Seq<Vec<Entry>>, itf: Seq<u32>) -> bool {
    &&& rows.len() == ds.feature_lists@.len()
    &&& forall|i: int|
        0 <= i < rows.len() ==> (#[trigger] rows[i])@ == spec_normalize(
            ds.feature_lists@[i]@,
        ).push(Entry { index: ds.n_features, value: SCALE })
    &&& itf.len() == ds.n_features + 1
    &&& forall|k: int| 0 <= k < itf.len() ==> (#[trigger] itf[k]) == k
}

/// Some example of the dataset carries label `l`.
pub open spec fn dataset_label_used(ds: DataSet, l: u32) -> bool {
    exists|i: int| 0 <= i < ds.label_sets@.len() && (#[trigger] ds.label_sets@[i])@.contains(l)
}

/// Some example of the dataset carries some label.
pub open spec fn dataset_has_labels(ds: DataSet) -> bool {
    exists|l: u32| #[trigger] dataset_label_used(ds, l)
}

/// L2-normalises every feature list of the dataset.
fn normalize_dataset(ds: DataSet) -> (r: DataSet)
    requires
        ds.wf(),
    ensures
        r.wf(),
        r.n_features == ds.n_features,
        r.n_labels == ds.n_labels,
        r.feature_lists@.len() == ds.feature_lists@.len(),
        r.label_sets@.len() == ds.label_sets@.len(),
        forall|i: int|
            0 <= i < ds.label_sets@.len() ==> (#[trigger] r.label_sets@[i])@
                == ds.label_sets@[i]@,
        forall|i: int|
            0 <= i < ds.feature_lists@.len() ==> (#[trigger] r.feature_lists@[i])@
                == spec_normalize(ds.feature_lists@[i]@),
        forall|i: int|
            0 <= i < r.feature_lists@.len() ==> sv_bounded(
                (#[trigger] r.feature_lists@[i])@,
                SCALE as int,
            ),
{
    let DataSet { n_features, n_labels, feature_lists, label_sets } = ds;
    let n = feature_lists.len();
    let mut new_lists: Vec<Vec<Entry>> = Vec::new();
    for i in 0..n
        invariant
            n == feature_lists@.len(),
            n_features < crate::sparse::MAX_COLS,
            forall|k: int|
                0 <= k < feature_lists@.len() ==> sv_wf(
                    (#[trigger] feature_lists@[k])@,
                    n_features as int,
                ),
            forall|k: int|
                0 <= k < feature_lists@.len() ==> sv_bounded(
                    (#[trigger] feature_lists@[k])@,
                    crate::sparse::MAX_ACC as int,
                ),
            new_lists@.len() == i,
            forall|k: int|
                0 <= k < i ==> (#[trigger] new_lists@[k])@ == spec_normalize(feature_lists@[k]@),
            forall|k: int|
                0 <= k < i ==> sv_bounded((#[trigger] new_lists@[k])@, SCALE as int),
            forall|k: int|
                0 <= k < i ==> sv_wf((#[trigger] new_lists@[k])@, n_features as int),
    {
        proof {
            crate::sparse::lemma_sv_len(feature_lists@[i as int]@, n_features as int);
        }
        let nm = crate::sparse::l2_normalize(&feature_lists[i]);
        proof {
            lemma_normalize_wf(feature_lists@[i as int]@, n_features as int);
        }
        new_lists.push(nm);
    }
    DataSet { n_features, n_labels, feature_lists: new_lists, label_sets }
}

impl HyperParam {
    /// Trains a label-partitioning forest on the dataset.
    ///
    /// Validation comes first: invalid hyper-parameters and malformed
    /// datasets are rejected, and a dataset in which no example carries
    /// a label cannot seed a label cluster. The progress counter is
    /// sized `n_labels * n_trees`. On success the model holds
    /// exactly `n_trees` trees; every tree is well formed, stays within
    /// the depth limit, and its leaves hold exactly the labels that
    /// occur in the dataset, each once.
    pub fn train(&self, dataset: DataSet) -> (r: Result<Model, TrainError>)
        ensures
            r is Ok <==> (self.spec_validate() is Ok && dataset.wf() && dataset_has_labels(
                dataset,
            )),
            self.spec_validate() matches Err(e) ==> r == Err::<Model, TrainError>(
                TrainError::InvalidHyperParam(e),
            ),
            (self.spec_validate() is Ok && !dataset.wf()) ==> r matches Err(
                TrainError::MalformedDataset(_),
            ),
            (self.spec_validate() is Ok && dataset.wf() && !dataset_has_labels(dataset))
                ==> r == Err::<Model, TrainError>(
                TrainError::MalformedDataset(DatasetError::NoLabelAssignments),
            ),
            r matches Ok(m) ==> {
                &&& m.n_features == dataset.n_features
                &&& m.trees@.len() == self.n_trees
                &&& forall|t: int| 0 <= t < m.trees@.len() ==> node_wf((#[trigger] m.trees@[t]).root)
                &&& forall|t: int|
                    0 <= t < m.trees@.len() ==> node_height((#[trigger] m.trees@[t]).root)
                        <= self.max_depth
                &&& forall|t: int, l: u32|
                    0 <= t < m.trees@.len() ==> #[trigger] node_leaf_labels(
                        m.trees@[t].root,
                    ).count(l) == if l < dataset.n_labels && dataset_label_used(dataset, l) {
                        1int
                    } else {
                        0int
                    }
                &&& forall|t: int|
                    0 <= t < m.trees@.len() ==> ((#[trigger] m.trees@[t]).root matches TreeNode::Leaf {
                        labels,
                        ..
                    } ==> ({
                        &&& forall|j1: int, j2: int|
                            0 <= j1 < j2 < labels@.len() ==> labels@[j1] < labels@[j2]
                        &&& forall|l: u32|
                            labels@.contains(l) <==> (l < dataset.n_labels && dataset_label_used(
                                dataset,
                                l,
                            ))
                    }))
                &&& forall|t: int|
                    0 <= t < m.trees@.len() ==> ((#[trigger] m.trees@[t]).root is Branch ==> (
                    self.max_depth > 1 && node_leaf_labels(m.trees@[t].root).len()
                        >= self.min_branch_size))
                &&& dataset.feature_lists@.len() == 1 ==> forall|t: int|
                    0 <= t < m.trees@.len() ==> !((#[trigger] m.trees@[t]).root is Branch)
                &&& exists|cl_labels: Seq<u32>, cl_rows: Seq<Vec<Entry>>|
                    {
                        &&& #[trigger] forest_trained(m, cl_labels, cl_rows, *self)
                        &&& forall|j1: int, j2: int|
                            0 <= j1 < j2 < cl_labels.len() ==> cl_labels[j1] < cl_labels[j2]
                        &&& forall|l: u32|
                            cl_labels.contains(l) <==> (l < dataset.n_labels
                                && dataset_label_used(dataset, l))
                    }
                &&& exists|rr: Seq<Vec<Entry>>, itf: Seq<u32>|
                    {
                        &&& #[trigger] root_matrix_of(dataset, rr, itf)
                        &&& forall|t: int|
                            0 <= t < m.trees@.len() ==> ((#[trigger] m.trees@[t]).root matches TreeNode::Leaf {
                                classifier,
                                labels,
                            } ==> (forall|k: int|
                                0 <= k < labels@.len() ==> (#[trigger] classifier.weights@[k])@
                                    == spec_weight_rows(
                                    rr,
                                    (dataset.n_features + 1) as nat,
                                    spec_examples_with_label_in(
                                        dataset.label_sets@,
                                        labels@[k],
                                        dataset.label_sets@.len() as int,
                                    ),
                                    itf,
                                    self.linear.weight_threshold as int,
                                )))
                        &&& forall|t: int|
                            0 <= t < m.trees@.len() ==> ((#[trigger] m.trees@[t]).root matches TreeNode::Branch {
                                classifier,
                                children,
                            } ==> ({
                                &&& children@.len() == 2
                                &&& classifier.weights@.len() == 2
                                &&& exists|la: Seq<u32>, lb: Seq<u32>|
                                    {
                                        &&& #[trigger] la.to_multiset().add(lb.to_multiset())
                                            == node_leaf_labels(m.trees@[t].root)
                                        &&& node_leaf_labels(children@[0]) == la.to_multiset()
                                        &&& node_leaf_labels(children@[1]) == lb.to_multiset()
                                        &&& classifier.weights@[0]@ == spec_weight_rows(
                                            rr,
                                            (dataset.n_features + 1) as nat,
                                            spec_examples_with_labels_in(
                                                dataset.label_sets@,
                                                la,
                                                dataset.label_sets@.len() as int,
                                            ),
                                            itf,
                                            self.linear.weight_threshold as int,
                                        )
                                        &&& classifier.weights@[1]@ == spec_weight_rows(
                                            rr,
                                            (dataset.n_features + 1) as nat,
                                            spec_examples_with_labels_in(
                                                dataset.label_sets@,
                                                lb,
                                                dataset.label_sets@.len() as int,
                                            ),
                                            itf,
                                            self.linear.weight_threshold as int,
                                        )
                                    }
                            }))
                    }
            },
    {
        broadcast use vstd::seq_lib::group_to_multiset_ensures;

        if let Err(e) = self.validate() {
            return Err(TrainError::InvalidHyperParam(e));
        }
        if let Err(d) = dataset.validate() {
            return Err(TrainError::MalformedDataset(d));
        }
        let ghost orig = dataset;
        let n_features = dataset.n_features;
        let n_labels = dataset.n_labels;
        let ds = normalize_dataset(dataset);

        let maybe_cluster = LabelCluster::new_from_dataset(&ds, self.centroid_threshold);
        proof {
            assert forall|l: u32| label_has_example(&ds, l as int) implies dataset_label_used(
                orig,
                l,
            ) by {
                let i = choose|i: int|
                    0 <= i < ds.label_sets@.len() && (#[trigger] ds.label_sets@[i])@.contains(
                        l as u32,
                    );
                assert((orig.label_sets@[i])@.contains(l));
            }
            assert forall|l: u32| dataset_label_used(orig, l) implies label_has_example(
                &ds,
                l as int,
            ) by {
                let i = choose|i: int|
                    0 <= i < orig.label_sets@.len() && (#[trigger] orig.label_sets@[i])@.contains(
                        l,
                    );
                assert((ds.label_sets@[i])@.contains(l));
            }
        }
        let root_cluster = match maybe_cluster {
            None => {
                proof {
                    if dataset_has_labels(orig) {
                        let l = choose|l: u32| #[trigger] dataset_label_used(orig, l);
                        assert(label_has_example(&ds, l as int));
                    }
                }
                return Err(TrainError::MalformedDataset(DatasetError::NoLabelAssignments));
            },
            Some(c) => c,
        };
        proof {
            assert(dataset_has_labels(orig)) by {
                let l0 = root_cluster.labels@[0];
                assert(root_cluster.labels@.contains(l0));
                assert(dataset_label_used(orig, l0));
            }
            assert(ds.feature_lists@.len() >= 1) by {
                let l0 = root_cluster.labels@[0];
                assert(root_cluster.labels@.contains(l0));
                assert(label_has_example(&ds, l0 as int));
                let i = choose|i: int|
                    0 <= i < ds.label_sets@.len() && (#[trigger] ds.label_sets@[i])@.contains(l0);
            }
        }
        proof {
            if ds.feature_lists@.len() == 1 {
                assert forall|j: int|
                    0 <= j < root_cluster.feature_matrix.rows@.len() implies (
                #[trigger] root_cluster.feature_matrix.rows@[j])@
                    == root_cluster.feature_matrix.rows@[0]@ by {
                    let thr = self.centroid_threshold as int;
                    let l0 = root_cluster.labels@[0];
                    let lj = root_cluster.labels@[j];
                    assert(root_cluster.labels@.contains(l0));
                    assert(root_cluster.labels@.contains(lj));
                    assert(label_has_example(&ds, l0 as int));
                    assert(label_has_example(&ds, lj as int));
                    let i0 = choose|i: int|
                        0 <= i < ds.label_sets@.len() && (#[trigger] ds.label_sets@[i])@.contains(
                            l0,
                        );
                    let ij = choose|i: int|
                        0 <= i < ds.label_sets@.len() && (#[trigger] ds.label_sets@[i])@.contains(
                            lj,
                        );
                    assert(i0 == 0 && ij == 0);
                    assert(spec_centroid_raw(&ds, l0 as int) =~= spec_centroid_raw(
                        &ds,
                        lj as int,
                    )) by {
                        assert forall|c: int|
                            0 <= c < ds.n_features implies centroid_col_upto(&ds, l0 as int, c, 1)
                            == centroid_col_upto(&ds, lj as int, c, 1) by {
                            assert(centroid_col_upto(&ds, l0 as int, c, 0) == 0);
                            assert(centroid_col_upto(&ds, lj as int, c, 0) == 0);
                        }
                    }
                    assert(root_cluster.feature_matrix.rows@[j]@ == spec_centroid(
                        &ds,
                        lj as int,
                        thr,
                    ));
                    assert(root_cluster.feature_matrix.rows@[0]@ == spec_centroid(
                        &ds,
                        l0 as int,
                        thr,
                    ));
                }
                assert(all_rows_equal(&root_cluster.feature_matrix));
            }
        }
        let examples = TrainingExamples::new_from_dataset(&ds);
        let trainer = TreeTrainer { hyper_param: *self, n_total_examples: examples.len() };
        proof {
            assert(trainer.wf());
            assert(root_cluster.wf());
            assert(cluster_covered(&examples, &root_cluster)) by {
                assert forall|q: int| 0 <= q < root_cluster.labels@.len() implies label_covered(
                    &examples,
                    #[trigger] root_cluster.labels@[q],
                ) by {
                    let l = root_cluster.labels@[q];
                    assert(root_cluster.labels@.contains(l));
                    assert(label_has_example(&ds, l as int));
                    let i = choose|i: int|
                        0 <= i < ds.label_sets@.len() && (#[trigger] ds.label_sets@[i])@.contains(
                            l,
                        );
                    assert((examples.label_sets@[i])@.contains(l));
                }
            }
            assert(root_cluster.labels@.no_duplicates()) by {
                assert forall|j1: int, j2: int|
                    0 <= j1 < root_cluster.labels@.len() && 0 <= j2 < root_cluster.labels@.len()
                        && j1 != j2 implies root_cluster.labels@[j1] != root_cluster.labels@[j2] by {
                    if j1 < j2 {
                        assert(root_cluster.labels@[j1] < root_cluster.labels@[j2]);
                    } else {
                        assert(root_cluster.labels@[j2] < root_cluster.labels@[j1]);
                    }
                }
            }
            root_cluster.labels@.lemma_multiset_has_no_duplicates();
        }
        let ghost root_label_seq = root_cluster.labels@;
        let n_trees = self.n_trees;
        proof {
            assert((n_labels as int) * (n_trees as int) <= 0xFFFF_FFFF * 0xFFFF_FFFF_FFFF_FFFF)
                by (nonlinear_arith)
                requires
                    0 <= n_labels as int <= 0xFFFF_FFFF && 0 <= n_trees as int
                        <= 0xFFFF_FFFF_FFFF_FFFF,
            ;
        }
        let total_wide: u128 = (n_labels as u128) * (n_trees as u128);
        let total: u64 = if total_wide > 0xFFFF_FFFF_FFFF_FFFFu128 {
            0xFFFF_FFFF_FFFF_FFFFu64
        } else {
            total_wide as u64
        };
        let mut progress = Progress::new(total);
        let mut trees: Vec<Tree> = Vec::new();
        for t in 0..n_trees
            invariant
                trainer.wf(),
                trainer.hyper_param == *self,
                self.spec_validate() is Ok,
                examples.wf(),
                1 <= examples.feature_matrix.rows@.len() <= trainer.n_total_examples,
                root_cluster.wf(),
                cluster_covered(&examples, &root_cluster),
                root_cluster.labels@ == root_label_seq,
                ds.feature_lists@.len() == 1 ==> all_rows_equal(&root_cluster.feature_matrix),
                trees@.len() == t,
                forall|t2: int| 0 <= t2 < t ==> node_wf((#[trigger] trees@[t2]).root),
                forall|t2: int|
                    0 <= t2 < t ==> node_height((#[trigger] trees@[t2]).root) <= self.max_depth,
                forall|t2: int|
                    0 <= t2 < t ==> node_leaf_labels((#[trigger] trees@[t2]).root)
                        == root_label_seq.to_multiset(),
                forall|t2: int|
                    0 <= t2 < t ==> node_trained(
                        (#[trigger] trees@[t2]).root,
                        root_label_seq,
                        root_cluster.feature_matrix.rows@,
                        root_cluster.feature_matrix.n_cols as nat,
                        1,
                        *self,
                    ),
                forall|t2: int|
                    0 <= t2 < t ==> ((#[trigger] trees@[t2]).root is Branch || ((
                    #[trigger] trees@[t2]).root matches TreeNode::Leaf { labels, .. }
                        && labels@ == root_label_seq)),
                forall|t2: int|
                    0 <= t2 < t ==> ((#[trigger] trees@[t2]).root is Branch ==> (
                    self.max_depth > 1 && root_label_seq.len() >= self.min_branch_size)),
                ds.feature_lists@.len() == 1 ==> forall|t2: int|
                    0 <= t2 < t ==> !((#[trigger] trees@[t2]).root is Branch),
                forall|t2: int|
                    0 <= t2 < t ==> ((#[trigger] trees@[t2]).root matches TreeNode::Leaf {
                        classifier,
                        labels,
                    } ==> (forall|k: int|
                        0 <= k < labels@.len() ==> (#[trigger] classifier.weights@[k])@
                            == spec_weight(
                            &examples.feature_matrix,
                            spec_examples_with_label(
                                &examples,
                                labels@[k],
                                examples.label_sets@.len() as int,
                            ),
                            examples.index_to_feature@,
                            self.linear.weight_threshold as int,
                        ))),
                forall|t2: int|
                    0 <= t2 < t ==> ((#[trigger] trees@[t2]).root matches TreeNode::Branch {
                        classifier,
                        children,
                    } ==> ({
                        &&& children@.len() == 2
                        &&& classifier.weights@.len() == 2
                        &&& exists|la: Seq<u32>, lb: Seq<u32>|
                            {
                                &&& #[trigger] labels_split(root_label_seq, la, lb)
                                &&& node_leaf_labels(children@[0]) == la.to_multiset()
                                &&& node_leaf_labels(children@[1]) == lb.to_multiset()
                                &&& classifier.weights@[0]@ == spec_weight(
                                    &examples.feature_matrix,
                                    spec_examples_with_labels(
                                        &examples,
                                        la,
                                        examples.label_sets@.len() as int,
                                    ),
                                    examples.index_to_feature@,
                                    self.linear.weight_threshold as int,
                                )
                                &&& classifier.weights@[1]@ == spec_weight(
                                    &examples.feature_matrix,
                                    spec_examples_with_labels(
                                        &examples,
                                        lb,
                                        examples.label_sets@.len() as int,
                                    ),
                                    examples.index_to_feature@,
                                    self.linear.weight_threshold as int,
                                )
                            }
                    })),
        {
            let root = trainer.train_subtree(1, &examples, &root_cluster, &mut progress);
            trees.push(Tree { root });
        }
        let m = Model { trees, n_features };
        proof {
            assert(forest_trained(m, root_label_seq, root_cluster.feature_matrix.rows@, *self));
            let rr = examples.feature_matrix.rows@;
            let gitf = examples.index_to_feature@;
            assert(root_matrix_of(orig, rr, gitf));
            let nsets = orig.label_sets@.len() as int;
            assert forall|t: int|
                0 <= t < m.trees@.len() implies ((#[trigger] m.trees@[t]).root matches TreeNode::Leaf {
                classifier,
                labels,
            } ==> (forall|k: int|
                0 <= k < labels@.len() ==> (#[trigger] classifier.weights@[k])@
                    == spec_weight_rows(
                    rr,
                    (orig.n_features + 1) as nat,
                    spec_examples_with_label_in(orig.label_sets@, labels@[k], nsets),
                    gitf,
                    self.linear.weight_threshold as int,
                ))) by {
                match m.trees@[t].root {
                    TreeNode::Branch { .. } => {},
                    TreeNode::Leaf { classifier, labels } => {
                        assert forall|k: int|
                            0 <= k < labels@.len() implies (#[trigger] classifier.weights@[k])@
                            == spec_weight_rows(
                            rr,
                            (orig.n_features + 1) as nat,
                            spec_examples_with_label_in(orig.label_sets@, labels@[k], nsets),
                            gitf,
                            self.linear.weight_threshold as int,
                        ) by {
                            lemma_examples_with_label_congruent(
                                examples.label_sets@,
                                orig.label_sets@,
                                labels@[k],
                                nsets,
                            );
                        }
                    },
                }
            }
            assert forall|t: int, l: u32|
                0 <= t < m.trees@.len() implies #[trigger] node_leaf_labels(
                m.trees@[t].root,
            ).count(l) == if l < orig.n_labels && dataset_label_used(orig, l) {
                1int
            } else {
                0int
            } by {
                assert(node_leaf_labels(m.trees@[t].root) == root_label_seq.to_multiset());
                if l < orig.n_labels && dataset_label_used(orig, l) {
                    assert(root_label_seq.contains(l));
                    assert(root_label_seq.to_multiset().count(l) == 1);
                } else {
                    assert(!root_label_seq.contains(l));
                    assert(root_label_seq.to_multiset().count(l) == 0);
                }
            }
            assert forall|t: int|
                0 <= t < m.trees@.len() implies ((#[trigger] m.trees@[t]).root matches TreeNode::Branch {
                classifier,
                children,
            } ==> ({
                &&& children@.len() == 2
                &&& classifier.weights@.len() == 2
                &&& exists|la: Seq<u32>, lb: Seq<u32>|
                    {
                        &&& #[trigger] la.to_multiset().add(lb.to_multiset())
                            == node_leaf_labels(m.trees@[t].root)
                        &&& node_leaf_labels(children@[0]) == la.to_multiset()
                        &&& node_leaf_labels(children@[1]) == lb.to_multiset()
                        &&& classifier.weights@[0]@ == spec_weight_rows(
                            rr,
                            (orig.n_features + 1) as nat,
                            spec_examples_with_labels_in(orig.label_sets@, la, nsets),
                            gitf,
                            self.linear.weight_threshold as int,
                        )
                        &&& classifier.weights@[1]@ == spec_weight_rows(
                            rr,
                            (orig.n_features + 1) as nat,
                            spec_examples_with_labels_in(orig.label_sets@, lb, nsets),
                            gitf,
                            self.linear.weight_threshold as int,
                        )
                    }
            })) by {
                match m.trees@[t].root {
                    TreeNode::Branch { classifier, children } => {
                        let (la, lb) = choose|la: Seq<u32>, lb: Seq<u32>|
                            {
                                &&& #[trigger] labels_split(root_label_seq, la, lb)
                                &&& node_leaf_labels(children@[0]) == la.to_multiset()
                                &&& node_leaf_labels(children@[1]) == lb.to_multiset()
                                &&& classifier.weights@[0]@ == spec_weight(
                                    &examples.feature_matrix,
                                    spec_examples_with_labels(
                                        &examples,
                                        la,
                                        examples.label_sets@.len() as int,
                                    ),
                                    examples.index_to_feature@,
                                    self.linear.weight_threshold as int,
                                )
                                &&& classifier.weights@[1]@ == spec_weight(
                                    &examples.feature_matrix,
                                    spec_examples_with_labels(
                                        &examples,
                                        lb,
                                        examples.label_sets@.len() as int,
                                    ),
                                    examples.index_to_feature@,
                                    self.linear.weight_threshold as int,
                                )
                            };
                        lemma_examples_with_labels_congruent(
                            examples.label_sets@,
                            orig.label_sets@,
                            la,
                            nsets,
                        );
                        lemma_examples_with_labels_congruent(
                            examples.label_sets@,
                            orig.label_sets@,
                            lb,
                            nsets,
                        );
                        assert(la.to_multiset().add(lb.to_multiset())
                            == node_leaf_labels(m.trees@[t].root));
                        assert(classifier.weights@[0]@ == spec_weight_rows(
                            rr,
                            (orig.n_features + 1) as nat,
                            spec_examples_with_labels_in(orig.label_sets@, la, nsets),
                            gitf,
                            self.linear.weight_threshold as int,
                        ));
                        assert(classifier.weights@[1]@ == spec_weight_rows(
                            rr,
                            (orig.n_features + 1) as nat,
                            spec_examples_with_labels_in(orig.label_sets@, lb, nsets),
                            gitf,
                            self.linear.weight_threshold as int,
                        ));
                    },
                    TreeNode::Leaf { .. } => {},
                }
            }
        }
        Ok(m)
    }
}

} // verus!
