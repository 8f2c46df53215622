//! The trained model: trees of branch and leaf nodes.

use vstd::prelude::*;
use vstd::multiset::Multiset;
use crate::linear::MultiLabelClassifier;

verus! {

/// One node of a label-partitioning tree. A branch routes an example to
/// its children; a leaf scores the labels it holds.
#[derive(Debug, PartialEq)]
pub enum TreeNode {
    Branch { classifier: MultiLabelClassifier, children: Vec<TreeNode> },
    Leaf { classifier: MultiLabelClassifier, labels: Vec<u32> },
}

/// A single tree.
#[derive(Debug, PartialEq)]
pub struct Tree {
    pub root: TreeNode,
}

/// A trained forest.
#[derive(Debug, PartialEq)]
pub struct Model {
    pub trees: Vec<Tree>,
    pub n_features: u32,
}

/// Shape well-formedness: every branch has at least two children and one
/// classifier output per child; every leaf holds at least one label and
/// one classifier output per label.
pub open spec fn node_wf(n: TreeNode) -> bool
    decreases n,
{
    match n {
        TreeNode::Branch { classifier, children } => {
            &&& children@.len() >= 2
            &&& classifier.weights@.len() == children@.len()
            &&& forall|i: int| 0 <= i < children@.len() ==> node_wf(#[trigger] children@[i])
        },
        TreeNode::Leaf { classifier, labels } => {
            &&& labels@.len() >= 1
            &&& classifier.weights@.len() == labels@.len()
        },
    }
}

/// Height of the tallest tree in a forest slice.
pub open spec fn nodes_height(s: Seq<TreeNode>) -> int
    decreases s,
{
    if s.len() == 0 {
        0
    } else {
        let h = node_height(s.last());
        let r = nodes_height(s.drop_last());
        if h > r {
            h
        } else {
            r
        }
    }
}

/// Height of a node: 1 for a leaf, 1 more than the tallest child for a
/// branch.
pub open spec fn node_height(n: TreeNode) -> int
    decreases n,
{
    match n {
        TreeNode::Branch { classifier, children } => 1 + nodes_height(children@),
        TreeNode::Leaf { .. } => 1,
    }
}

/// The multiset of labels held by the leaves under a slice of nodes.
pub open spec fn nodes_leaf_labels(s: Seq<TreeNode>) -> Multiset<u32>
    decreases s,
{
    if s.len() == 0 {
        Multiset::empty()
    } else {
        nodes_leaf_labels(s.drop_last()).add(node_leaf_labels(s.last()))
    }
}

/// The multiset of labels held by the leaves under a node.
pub open spec fn node_leaf_labels(n: TreeNode) -> Multiset<u32>
    decreases n,
{
    match n {
        TreeNode::Branch { classifier, children } => nodes_leaf_labels(children@),
        TreeNode::Leaf { classifier, labels } => labels@.to_multiset(),
    }
}

} // verus!
