//! Hyper-parameters of the trainer and their validation.

use vstd::prelude::*;
use crate::error::HyperParamError;
use crate::fx::SCALE;

verus! {

/// Loss variant for the linear classifier trainer.
#[derive(Clone, Copy, Debug, PartialEq, Eq, Structural)]
pub enum LossType {
    SquaredHinge,
    Logistic,
}

/// Regularisation variant for the linear classifier trainer.
#[derive(Clone, Copy, Debug, PartialEq, Eq, Structural)]
pub enum RegularizationType {
    L1,
    L2,
}

/// Hyper-parameters of the linear classifier trainer. Fixed-point fields
/// are in units of `SCALE`.
#[derive(Clone, Copy, Debug, PartialEq, Eq, Structural)]
pub struct LinearHyperParam {
    pub loss_type: LossType,
    pub regularization: RegularizationType,
    pub c: i64,
    pub epsilon: i64,
    pub max_iter: usize,
    pub weight_threshold: i64,
    pub adapt_c_to_sample_size: bool,
}

/// Hyper-parameters of the balanced 2-means label clusterer.
#[derive(Clone, Copy, Debug, PartialEq, Eq, Structural)]
pub struct ClusterHyperParam {
    pub k_means_max_iter: usize,
    pub epsilon: i64,
}

/// Model training hyper-parameters.
#[derive(Clone, Copy, Debug, PartialEq, Eq, Structural)]
pub struct HyperParam {
    pub n_trees: usize,
    pub min_branch_size: usize,
    pub max_depth: usize,
    pub centroid_threshold: i64,
    pub linear: LinearHyperParam,
    pub cluster: ClusterHyperParam,
}

impl LinearHyperParam {
    /// The exact outcome of validating linear hyper-parameters.
    pub open spec fn spec_validate(&self) -> Result<(), HyperParamError> {
        if self.c <= 0 {
            Err(HyperParamError::LinearCNotPositive)
        } else if self.epsilon <= 0 {
            Err(HyperParamError::LinearEpsilonNotPositive)
        } else if self.max_iter == 0 {
            Err(HyperParamError::LinearMaxIterZero)
        } else if self.weight_threshold < 0 {
            Err(HyperParamError::LinearWeightThresholdNegative)
        } else {
            Ok(())
        }
    }

    /// Checks the linear hyper-parameter bounds.
    pub fn validate(&self) -> (r: Result<(), HyperParamError>)
        ensures
            r == self.spec_validate(),
    {
        if self.c <= 0 {
            Err(HyperParamError::LinearCNotPositive)
        } else if self.epsilon <= 0 {
            Err(HyperParamError::LinearEpsilonNotPositive)
        } else if self.max_iter == 0 {
            Err(HyperParamError::LinearMaxIterZero)
        } else if self.weight_threshold < 0 {
            Err(HyperParamError::LinearWeightThresholdNegative)
        } else {
            Ok(())
        }
    }

    /// The regularisation strength adapted to a node that trains on
    /// `node_n` of the `total_n` examples: `C' = max(1, C * node_n / total_n)`
    /// when adaptation is enabled, `C` unchanged otherwise.
    pub open spec fn spec_adapted_c(&self, node_n: int, total_n: int) -> int {
        if self.adapt_c_to_sample_size {
            let scaled = (self.c * node_n) / total_n;
            if scaled < 1 {
                1
            } else {
                scaled
            }
        } else {
            self.c as int
        }
    }

    /// Scales the regularisation constant in proportion to the node's
    /// share of the training examples, when the option is enabled.
    pub fn adapt_to_sample_size(&self, node_n: usize, total_n: usize) -> (r: LinearHyperParam)
        requires
            1 <= total_n <= crate::sparse::MAX_ROWS,
            node_n <= total_n,
            self.c >= 1,
        ensures
            r.c as int == self.spec_adapted_c(node_n as int, total_n as int),
            r.loss_type == self.loss_type,
            r.regularization == self.regularization,
            r.epsilon == self.epsilon,
            r.max_iter == self.max_iter,
            r.weight_threshold == self.weight_threshold,
            r.adapt_c_to_sample_size == self.adapt_c_to_sample_size,
    {
        if self.adapt_c_to_sample_size {
            proof {
                assert((self.c as int) * (node_n as int) <= (self.c as int) * (total_n as int)
                    && (self.c as int) * (node_n as int) >= 0) by (nonlinear_arith)
                    requires self.c >= 1 && 0 <= node_n <= total_n,
                ;
                vstd::arithmetic::div_mod::lemma_div_is_ordered(
                    (self.c as int) * (node_n as int),
                    (self.c as int) * (total_n as int),
                    total_n as int,
                );
                vstd::arithmetic::div_mod::lemma_div_multiples_vanish(
                    self.c as int,
                    total_n as int,
                );
                vstd::arithmetic::div_mod::lemma_div_pos_is_pos(
                    (self.c as int) * (node_n as int),
                    total_n as int,
                );
            }
            proof {
                assert((self.c as int) * (node_n as int) <= 0x8000_0000_0000_0000 * 0x0100_0000)
                    by (nonlinear_arith)
                    requires
                        1 <= self.c <= 0x8000_0000_0000_0000 && 0 <= node_n <= 0x0100_0000,
                ;
            }
            let wide: i128 = (self.c as i128) * (node_n as i128) / (total_n as i128);
            proof {
                vstd::arithmetic::mul::lemma_mul_is_commutative(self.c as int, total_n as int);
                assert(((total_n as int) * (self.c as int)) / (total_n as int) == self.c as int);
                assert(wide as int <= self.c as int);
            }
            let c = if wide < 1 {
                1i64
            } else {
                wide as i64
            };
            LinearHyperParam { c, ..*self }
        } else {
            LinearHyperParam { ..*self }
        }
    }
}

impl ClusterHyperParam {
    /// The exact outcome of validating clustering hyper-parameters.
    pub open spec fn spec_validate(&self) -> Result<(), HyperParamError> {
        if self.k_means_max_iter == 0 {
            Err(HyperParamError::ClusterMaxIterZero)
        } else if self.epsilon <= 0 {
            Err(HyperParamError::ClusterEpsilonNotPositive)
        } else {
            Ok(())
        }
    }

    /// Checks the clustering hyper-parameter bounds.
    pub fn validate(&self) -> (r: Result<(), HyperParamError>)
        ensures
            r == self.spec_validate(),
    {
        if self.k_means_max_iter == 0 {
            Err(HyperParamError::ClusterMaxIterZero)
        } else if self.epsilon <= 0 {
            Err(HyperParamError::ClusterEpsilonNotPositive)
        } else {
            Ok(())
        }
    }
}

impl HyperParam {
    /// The exact outcome of validation: the first violated bound, checked
    /// in a fixed order, or success when every bound holds.
    pub open spec fn spec_validate(&self) -> Result<(), HyperParamError> {
        if self.n_trees == 0 {
            Err(HyperParamError::NTreesZero)
        } else if self.min_branch_size <= 1 {
            Err(HyperParamError::MinBranchSizeTooSmall)
        } else if self.centroid_threshold < 0 {
            Err(HyperParamError::CentroidThresholdNegative)
        } else if self.max_depth == 0 {
            Err(HyperParamError::MaxDepthZero)
        } else if self.linear.spec_validate() is Err {
            self.linear.spec_validate()
        } else if self.cluster.spec_validate() is Err {
            self.cluster.spec_validate()
        } else {
            Ok(())
        }
    }

    /// Checks whether the hyper-parameter settings are valid: returns the
    /// error naming the first violated bound, if any.
    pub fn validate(&self) -> (r: Result<(), HyperParamError>)
        ensures
            r == self.spec_validate(),
            r is Ok <==> (self.n_trees >= 1 && self.min_branch_size > 1
                && self.centroid_threshold >= 0 && self.max_depth >= 1 && self.linear.c >= 1
                && self.linear.epsilon >= 1 && self.linear.max_iter >= 1
                && self.linear.weight_threshold >= 0 && self.cluster.k_means_max_iter >= 1
                && self.cluster.epsilon >= 1),
    {
        if self.n_trees == 0 {
            Err(HyperParamError::NTreesZero)
        } else if self.min_branch_size <= 1 {
            Err(HyperParamError::MinBranchSizeTooSmall)
        } else if self.centroid_threshold < 0 {
            Err(HyperParamError::CentroidThresholdNegative)
        } else if self.max_depth == 0 {
            Err(HyperParamError::MaxDepthZero)
        } else if let Err(e) = self.linear.validate() {
            Err(e)
        } else if let Err(e) = self.cluster.validate() {
            Err(e)
        } else {
            Ok(())
        }
    }
}

impl Default for HyperParam {
    /// The default settings: 3 trees, branches attempted on at least 100
    /// labels, depth capped at 20, no centroid pruning.
    fn default() -> (r: Self)
        ensures
            r.n_trees == 3,
            r.min_branch_size == 100,
            r.max_depth == 20,
            r.centroid_threshold == 0,
            r.spec_validate() is Ok,
    {
        HyperParam {
            n_trees: 3,
            min_branch_size: 100,
            max_depth: 20,
            centroid_threshold: 0,
            linear: LinearHyperParam {
                loss_type: LossType::SquaredHinge,
                regularization: RegularizationType::L2,
                c: SCALE,
                epsilon: SCALE / 10,
                max_iter: 20,
                weight_threshold: SCALE / 10,
                adapt_c_to_sample_size: false,
            },
            cluster: ClusterHyperParam { k_means_max_iter: 20, epsilon: 7 },
        }
    }
}

} // verus!
