//! A verified core for training Parabel-style label-partitioning tree
//! ensembles for extreme multi-label classification.
//!
//! Numeric feature values are fixed-point integers: a real value `x` is
//! represented by the integer `round(x * SCALE)` with `SCALE = 65536`.

pub mod cluster;
pub mod dataset;
pub mod error;
pub mod examples;
pub mod fx;
pub mod hyper;
pub mod linear;
pub mod progress;
pub mod matrix;
pub mod sparse;
pub mod trainer;
pub mod tree;

pub use fx::SCALE;
