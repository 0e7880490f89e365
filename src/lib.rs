//! Discrete core of a LambdaMART learning-to-rank trainer: SVMlight line
//! parsing, value ordering, query grouping, feature binning, ranking and
//! gradient pairs, best-first tree growth, and early stopping. Numbers are
//! carried as binary64 bit patterns and only compared; the arithmetic on
//! them (gradients, split scores, leaf outputs, metrics) is the caller's.
pub mod value;
pub mod dataset;
pub mod threshold;
pub mod ranking;
pub mod lambdamart;
pub mod tree;
pub mod metric;
pub mod svmlight;
