//! Plain data of the branch-and-reduce driver: reduction results, decoding
//! rules, and the table-solver interface that downstream problems implement.

use vstd::prelude::*;

use crate::branching_table::BranchingTable;

verus! {

/// Produces the [`BranchingTable`] of acceptable variable assignments for a
/// given region of the problem.
pub trait TableSolver<P> {
    /// Enumerate the branching table on the given `region` of variables.
    fn solve(&self, problem: &P, region: &[usize]) -> BranchingTable;
}

/// A no-op reducer for problems that do not benefit from local rewriting: it
/// returns the problem unchanged with zero fixed value.
pub struct NoReducer;

/// Decoding rule for one vertex that survived a non-trivial reduction.
///
/// When the final contraction result includes or excludes this vertex, the
/// pre-reduction vertices to report are given by `when_included` / `when_excluded`.
/// With `exclude_guards` non-empty, the branch is taken on whether any guard
/// is in the reduced solution rather than on `bit` itself.
#[derive(Debug, Clone)]
pub struct VertexDecoding {
    /// Index of the surviving vertex in the pre-reduction problem.
    pub bit: usize,
    /// Pre-reduction vertices to include when this vertex IS in the reduced solution.
    pub when_included: Vec<usize>,
    /// Pre-reduction vertices to include when this vertex is NOT in the reduced solution.
    pub when_excluded: Vec<usize>,
    /// Surviving clique-neighbor guards for a simplicial reduction.
    pub exclude_guards: Vec<usize>,
}

/// Output of a single reduction step: the rewritten problem with the metadata
/// needed to decode the solution of the unreduced problem from the reduced one.
#[derive(Debug, Clone)]
pub struct ReductionResult<P, V> {
    pub problem: P,
    pub fixed_value: V,
    pub vertex_map: Vec<usize>,
    /// Vertices (in the pre-reduction index space) that are definitively
    /// included in the optimal solution by this reduction step.
    pub fixed_set: Vec<usize>,
    /// Non-trivial vertex decodings produced by folding reductions.
    pub fold_updates: Vec<VertexDecoding>,
}

impl<P, V> ReductionResult<P, V> {
    /// The result of a reduction that changed nothing: `problem` itself with
    /// `fixed_value` and no remapping, fixed vertices or folds.
    pub fn unchanged(problem: P, fixed_value: V) -> (r: Self)
        ensures
            r.problem == problem,
            r.fixed_value == fixed_value,
            r.vertex_map@.len() == 0,
            r.fixed_set@.len() == 0,
            r.fold_updates@.len() == 0,
    {
        ReductionResult {
            problem,
            fixed_value,
            vertex_map: Vec::new(),
            fixed_set: Vec::new(),
            fold_updates: Vec::new(),
        }
    }

    /// The vertex map sends every vertex to itself.
    pub fn is_identity_map(&self) -> (r: bool)
        ensures
            r == (forall|i: int| 0 <= i < self.vertex_map@.len() ==> #[trigger] self.vertex_map@[i] as int == i),
    {
        let mut i: usize = 0;
        while i < self.vertex_map.len()
            invariant
                i <= self.vertex_map@.len(),
                forall|k: int| 0 <= k < i ==> #[trigger] self.vertex_map@[k] as int == k,
            decreases self.vertex_map@.len() - i,
        {
            if self.vertex_map[i] != i {
                return false;
            }
            i = i + 1;
        }
        true
    }
}

} // verus!
