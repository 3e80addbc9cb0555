//! Errors of the branching-rule search.

use vstd::prelude::*;

verus! {

/// Why a branching-rule search failed.
#[derive(Debug)]
pub enum Error {
    /// The set cover solver returned an infeasible solution.
    Infeasible,
    /// The gamma minimisation did not converge after the given number of iterations.
    ConvergenceFailed(usize),
    /// The underlying solver reported an error.
    SolverError(String),
}

} // verus!
