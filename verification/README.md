# optimal-branching

Building blocks of a branch-and-reduce framework whose branching rule is
chosen by solving a weighted set-cover problem over a branching table.

## Layout

- `src/` — the verified library.
  - `clause.rs`: clauses (conjunctions of literals over bit variables), their
    literals, distances, negation, conjunction, and DNFs; laws on them.
  - `branching_table.rs`: branching tables, covered groups, the candidate
    clauses (the exact closure of the row clauses under merging), and the
    depth-first search for a single clause that covers the whole table; laws
    on coverage, merging and the search.
  - `set_cover.rs`: pruning of dominated candidates and the integer steps of
    the rule search.
  - `greedymerge.rs`: row clauses and the pair priority queue of the merge
    heuristic (an ordered set of entries beside a map from pair to priority).
  - `solver.rs`: solver settings and the group-to-subset index of the cover model.
  - `mock.rs`: the example problem (branch application, random variable selection).
  - `branch.rs`: reduction results and the table-solver interface.
  - `bits.rs`: bit counting.
- `app/` — the floating-point driver (`branch_and_reduce`, the branching
  factor γ, `minimize_gamma`, the greedy merge), the LP/IP set-cover solvers
  on `good_lp`, and the traits that downstream problems implement.
- `tests/` — tests of the library.
