//! Branch-and-reduce building blocks whose branching rule is chosen by
//! solving a weighted set-cover problem over a branching table.

pub mod bits;
pub mod branch;
pub mod branching_table;
pub mod clause;
pub mod error;
pub mod greedymerge;
pub mod mock;
pub mod set_cover;
pub mod solver;

pub use branching_table::{gather2, BranchingTable, CandidateClause};
pub use clause::{booleans, conjoin, Clause, DNF};
pub use error::Error;
pub use greedymerge::{bit_clauses, GreedyMerge, NaiveBranch, PairQueue};
pub use set_cover::remove_dominated;
pub use solver::{IPSolver, LPSolver};
pub use branch::{NoReducer, ReductionResult, TableSolver, VertexDecoding};
