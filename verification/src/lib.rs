//! Exact L1-TV regularisation of integer-valued (real line) and
//! circle-valued one-dimensional signals, by dynamic programming over a
//! candidate set with an L1 distance transform.

pub mod arith;
pub mod dist_transform;
pub mod dp;
pub mod columns;
pub mod sorting;
pub mod objective;
pub mod real_valued;
pub mod candidates;
pub mod circle_valued;
pub mod circle_candidates;
pub mod circle_path;
pub mod real_path;
