//! Max-min p-dispersion: choose `p` of `n` points so that the smallest
//! distance between two chosen points is as large as possible.
//!
//! The solver works on a square table of distance keys: unsigned values
//! whose order is the order of the distances. `geometry` builds such a table
//! from integer points (squared Euclidean distances), `point_vec` is the bit
//! set of point indices, `search` decides whether a threshold can be beaten
//! by `p` points, and `solver` drives that decision over the candidate
//! thresholds by binary search. `model` states the problem the contracts
//! speak of.

pub mod geometry;
pub mod model;
pub mod point_vec;
pub mod search;
pub mod solver;

pub use geometry::{distance_matrix, Point};
pub use point_vec::PointVec;
pub use solver::{
    naive_solver, p_solver, solve_distances, solve_p_dispersion, FailureKind, NoPossibleDispersion,
};
