//! The benchmark workloads' own logic.

pub mod binary_trees;
