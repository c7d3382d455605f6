//! Search for cheap solving plans of linear systems over GF(2^8): the field
//! arithmetic, dense matrices of named variables with Gaussian elimination
//! and solution-space sizing, solving plans with their dominance order, and
//! the exhaustive frontier search with a randomized baseline.
pub mod field;
pub mod matrix;
pub mod names;
pub mod algo;
pub mod search;
pub mod sparse_matrix;
