//! Pruning of candidate clauses before the set-cover search.

use vstd::prelude::*;

use crate::branching_table::{lists, CandidateClause};
use crate::clause::{Clause, DNF};

verus! {

/// Candidate `k` covers the same groups as candidate `j`.
pub open spec fn same_cover(subsets: Seq<Vec<usize>>, j: int, k: int) -> bool {
    subsets[j]@ == subsets[k]@
}

/// Some entry of `reps` covers the same groups as candidate `k`.
pub open spec fn has_rep(subsets: Seq<Vec<usize>>, reps: Seq<usize>, k: int) -> bool {
    exists|p: int| 0 <= p < reps.len() && #[trigger] same_cover(subsets, reps[p] as int, k)
}

/// Among the first `n` candidates, candidate `k` is the first one of largest
/// key among those that cover the same groups as it does.
pub open spec fn undominated(subsets: Seq<Vec<usize>>, keys: Seq<u64>, k: int, n: int) -> bool {
    &&& forall|j: int| 0 <= j < k && #[trigger] same_cover(subsets, j, k) ==> keys[j] < keys[k]
    &&& forall|j: int| k < j < n && #[trigger] same_cover(subsets, j, k) ==> keys[j] <= keys[k]
}

proof fn lemma_undominated_extend(subsets: Seq<Vec<usize>>, keys: Seq<u64>, k: int, n: int)
    requires
        0 <= k < n,
    ensures
        undominated(subsets, keys, k, n + 1) ==> undominated(subsets, keys, k, n),
        !same_cover(subsets, n, k) ==> undominated(subsets, keys, k, n + 1) == undominated(
            subsets,
            keys,
            k,
            n,
        ),
{
}

/// Among the first `m` candidates, the first one of largest key in the class
/// of candidate `k`.
proof fn lemma_best_in_class(subsets: Seq<Vec<usize>>, keys: Seq<u64>, k: int, m: int) -> (j: int)
    requires
        0 <= k < m,
    ensures
        0 <= j < m,
        same_cover(subsets, j, k),
        forall|i: int| 0 <= i < m && #[trigger] same_cover(subsets, i, k) ==> keys[i] <= keys[j],
        forall|i: int| 0 <= i < j && #[trigger] same_cover(subsets, i, k) ==> keys[i] < keys[j],
    decreases m,
{
    if k < m - 1 {
        let j0 = lemma_best_in_class(subsets, keys, k, m - 1);
        if same_cover(subsets, m - 1, k) && keys[m - 1] > keys[j0] {
            m - 1
        } else {
            j0
        }
    } else if exists|i: int| 0 <= i < k && #[trigger] same_cover(subsets, i, k) {
        let i0 = choose|i: int| 0 <= i < k && #[trigger] same_cover(subsets, i, k);
        let j0 = lemma_best_in_class(subsets, keys, i0, m - 1);
        assert forall|i: int| 0 <= i < m - 1 && #[trigger] same_cover(subsets, i, k) implies same_cover(subsets, i, i0) by {}
        assert forall|i: int| 0 <= i < m - 1 && #[trigger] same_cover(subsets, i, i0) implies same_cover(subsets, i, k) by {}
        if keys[m - 1] > keys[j0] {
            m - 1
        } else {
            j0
        }
    } else {
        k
    }
}

/// Pruning loses no set of covered groups: every candidate has an undominated
/// candidate that covers the same groups with at least its key.
pub proof fn lemma_dominance_keeps_every_cover(subsets: Seq<Vec<usize>>, keys: Seq<u64>, k: int)
    requires
        0 <= k < subsets.len(),
    ensures
        exists|j: int|
            0 <= j < subsets.len() && same_cover(subsets, j, k) && keys[k] <= keys[j] && #[trigger] undominated(
                subsets,
                keys,
                j,
                subsets.len() as int,
            ),
{
    let n = subsets.len() as int;
    let j = lemma_best_in_class(subsets, keys, k, n);
    assert forall|i: int| 0 <= i < j && #[trigger] same_cover(subsets, i, j) implies keys[i] < keys[j] by {
        assert(same_cover(subsets, i, k));
    }
    assert forall|i: int| j < i < n && #[trigger] same_cover(subsets, i, j) implies keys[i] <= keys[j] by {
        assert(same_cover(subsets, i, k));
    }
    assert(same_cover(subsets, k, k));
    assert(undominated(subsets, keys, j, n));
}

/// Remove strictly dominated candidates: of the candidates that cover
/// identical groups, keep only the first one with the highest key. The keys
/// order the candidates as their size reductions do.
///
/// Returns the indices of the kept candidates, in increasing order.
pub fn remove_dominated(subsets: &[Vec<usize>], delta_rho: &[u64]) -> (r: Vec<usize>)
    requires
        delta_rho@.len() >= subsets@.len(),
    ensures
        forall|a: int, b: int| 0 <= a < b < r@.len() ==> r@[a] < r@[b],
        forall|t: int|
            0 <= t < r@.len() ==> (#[trigger] r@[t]) < subsets@.len() && undominated(
                subsets@,
                delta_rho@,
                r@[t] as int,
                subsets@.len() as int,
            ),
        forall|k: int|
            0 <= k < subsets@.len() && #[trigger] undominated(
                subsets@,
                delta_rho@,
                k,
                subsets@.len() as int,
            ) ==> lists(r@, k),
{
    let ghost s = subsets@;
    let ghost keys = delta_rho@;
    let n = subsets.len();
    let mut keep: Vec<bool> = Vec::new();
    let mut reps: Vec<usize> = Vec::new();
    let mut i: usize = 0;
    while i < n
        invariant
            n == s.len(),
            s == subsets@,
            keys == delta_rho@,
            keys.len() >= s.len(),
            i <= n,
            keep@.len() == i,
            forall|k: int| 0 <= k < i ==> #[trigger] keep@[k] == undominated(s, keys, k, i as int),
            forall|p: int|
                0 <= p < reps@.len() ==> (#[trigger] reps@[p]) < i && keep@[reps@[p] as int],
            forall|k: int| 0 <= k < i ==> #[trigger] has_rep(s, reps@, k),
            forall|p: int, q: int| 0 <= p < q < reps@.len() ==> reps@[p] != reps@[q],
        decreases n - i,
    {
        let mut p: usize = 0;
        let mut found = false;
        while p < reps.len() && !found
            invariant
                s == subsets@,
                i < n == s.len(),
                p <= reps@.len(),
                forall|p2: int| 0 <= p2 < reps@.len() ==> (#[trigger] reps@[p2]) < i,
                found ==> p < reps@.len() && same_cover(s, reps@[p as int] as int, i as int),
                forall|q: int| 0 <= q < p ==> !same_cover(s, #[trigger] reps@[q] as int, i as int),
            decreases reps@.len() - p + (if found { 0int } else { 1int }),
        {
            if same_items(&subsets[reps[p]], &subsets[i]) {
                found = true;
            } else {
                p = p + 1;
            }
        }
        let ghost old_keep = keep@;
        let ghost old_reps = reps@;
        if found {
            let r0 = reps[p];
            proof {
                assert(same_cover(s, r0 as int, i as int));
                assert(old_keep[r0 as int]);
                assert(undominated(s, keys, r0 as int, i as int));
            }
            if delta_rho[i] <= delta_rho[r0] {
                keep.push(false);
                proof {
                    assert(same_cover(s, r0 as int, i as int));
                    assert forall|k: int| 0 <= k < i + 1 implies #[trigger] keep@[k] == undominated(
                        s,
                        keys,
                        k,
                        i + 1,
                    ) by {
                        if k < i {
                            assert(keep@[k] == old_keep[k]);
                            if same_cover(s, i as int, k) {
                                assert(same_cover(s, r0 as int, k));
                                if undominated(s, keys, k, i as int) && k != r0 {
                                    if k < r0 {
                                        assert(same_cover(s, k, r0 as int));
                                    } else {
                                        assert(same_cover(s, r0 as int, k));
                                    }
                                }
                            }
                        } else {
                            assert(same_cover(s, r0 as int, i as int));
                        }
                    }
                }
            } else {
                keep.set(r0, false);
                keep.push(true);
                reps.set(p, i);
                proof {
                    assert(keep@ == old_keep.update(r0 as int, false).push(true));
                    assert(keys[i as int] > keys[r0 as int]);
                    assert forall|k: int| 0 <= k < i + 1 implies #[trigger] keep@[k] == undominated(
                        s,
                        keys,
                        k,
                        i + 1,
                    ) by {
                        if k < i {
                            if k != r0 {
                                assert(keep@[k] == old_keep[k]);
                                assert(old_keep[k] == undominated(s, keys, k, i as int));
                                lemma_undominated_extend(s, keys, k, i as int);
                                if same_cover(s, i as int, k) && undominated(s, keys, k, i as int) {
                                    assert(same_cover(s, r0 as int, k));
                                    assert(same_cover(s, k, r0 as int));
                                    assert(false);
                                }
                            } else {
                                assert(same_cover(s, i as int, k));
                                assert(!undominated(s, keys, k, i + 1));
                                assert(keep@[k] == false);
                            }
                        } else {
                            assert(keep@[k] == true);
                            assert forall|j: int| 0 <= j < k && #[trigger] same_cover(s, j, k) implies keys[j]
                                < keys[k] by {
                                assert(same_cover(s, j, r0 as int));
                                if j < r0 {
                                    assert(same_cover(s, j, r0 as int));
                                } else if j > r0 {
                                    assert(same_cover(s, j, r0 as int));
                                }
                            }
                        }
                    }
                    assert forall|p2: int| 0 <= p2 < reps@.len() implies (#[trigger] reps@[p2]) < i + 1
                        && keep@[reps@[p2] as int] by {
                        if p2 != p {
                            assert(reps@[p2] == old_reps[p2]);
                            assert(old_reps[p2] != old_reps[p as int]);
                        }
                    }
                    assert forall|k: int| 0 <= k < i + 1 implies #[trigger] has_rep(s, reps@, k) by {
                        if k < i {
                            assert(has_rep(s, old_reps, k));
                            let p2 = choose|p2: int|
                                0 <= p2 < old_reps.len() && #[trigger] same_cover(s, old_reps[p2] as int, k);
                            if p2 == p {
                                assert(same_cover(s, reps@[p as int] as int, k));
                            } else {
                                assert(reps@[p2] == old_reps[p2]);
                                assert(same_cover(s, reps@[p2] as int, k));
                            }
                        } else {
                            assert(same_cover(s, reps@[p as int] as int, k));
                        }
                    }
                }
            }
        } else {
            keep.push(true);
            reps.push(i);
            proof {
                assert forall|k: int| 0 <= k < i implies !#[trigger] same_cover(s, i as int, k) by {
                    if same_cover(s, i as int, k) {
                        assert(has_rep(s, old_reps, k));
                        let q = choose|q: int|
                            0 <= q < old_reps.len() && #[trigger] same_cover(s, old_reps[q] as int, k);
                        assert(same_cover(s, old_reps[q] as int, i as int));
                    }
                }
                assert forall|k: int| 0 <= k < i + 1 implies #[trigger] keep@[k] == undominated(
                    s,
                    keys,
                    k,
                    i + 1,
                ) by {
                    if k < i {
                        assert(keep@[k] == old_keep[k]);
                        assert(!same_cover(s, i as int, k));
                    } else {
                        assert forall|j: int| 0 <= j < k && #[trigger] same_cover(s, j, k) implies keys[j]
                            < keys[k] by {
                            assert(same_cover(s, i as int, j));
                        }
                    }
                }
                assert forall|p2: int| 0 <= p2 < reps@.len() implies (#[trigger] reps@[p2]) < i + 1
                    && keep@[reps@[p2] as int] by {
                    if p2 < old_reps.len() {
                        assert(reps@[p2] == old_reps[p2]);
                    }
                }
                assert forall|k: int| 0 <= k < i + 1 implies #[trigger] has_rep(s, reps@, k) by {
                    if k < i {
                        assert(has_rep(s, old_reps, k));
                        let p2 = choose|p2: int|
                            0 <= p2 < old_reps.len() && #[trigger] same_cover(s, old_reps[p2] as int, k);
                        assert(reps@[p2] == old_reps[p2]);
                        assert(same_cover(s, reps@[p2] as int, k));
                    } else {
                        assert(reps@[old_reps.len() as int] == i);
                        assert(same_cover(s, reps@[old_reps.len() as int] as int, k));
                    }
                }
            }
        }
        i = i + 1;
    }
    let mut kept: Vec<usize> = Vec::new();
    let mut k: usize = 0;
    while k < n
        invariant
            n == s.len(),
            keep@.len() == n,
            k <= n,
            forall|t: int| 0 <= t < n ==> #[trigger] keep@[t] == undominated(s, keys, t, n as int),
            forall|a: int, b: int| 0 <= a < b < kept@.len() ==> kept@[a] < kept@[b],
            forall|t: int|
                0 <= t < kept@.len() ==> (#[trigger] kept@[t]) < k && undominated(
                    s,
                    keys,
                    kept@[t] as int,
                    n as int,
                ),
            forall|t: int| 0 <= t < k && #[trigger] undominated(s, keys, t, n as int) ==> lists(kept@, t),
        decreases n - k,
    {
        let ghost old_kept = kept@;
        if keep[k] {
            kept.push(k);
            assert(kept@[kept@.len() - 1] == k);
        }
        assert forall|t: int| 0 <= t < k + 1 && #[trigger] undominated(s, keys, t, n as int) implies lists(
            kept@,
            t,
        ) by {
            if t < k {
                let q = choose|q: int| 0 <= q < old_kept.len() && old_kept[q] as int == t;
                assert(kept@[q] == old_kept[q]);
            } else {
                assert(keep@[t]);
                assert(kept@[kept@.len() - 1] as int == t);
            }
        }
        k = k + 1;
    }
    kept
}

/// The position in `kept` of the first kept candidate whose subset covers all
/// `num_groups` groups, if any.
pub fn first_full_cover(subsets: &[Vec<usize>], kept: &[usize], num_groups: usize) -> (r: Option<usize>)
    requires
        forall|t: int| 0 <= t < kept@.len() ==> (#[trigger] kept@[t]) < subsets@.len(),
    ensures
        r matches Some(k) ==> k < kept@.len() && subsets@[kept@[k as int] as int]@.len() == num_groups
            && forall|t: int| 0 <= t < k ==> subsets@[#[trigger] kept@[t] as int]@.len() != num_groups,
        r is None ==> forall|t: int| 0 <= t < kept@.len() ==> subsets@[#[trigger] kept@[t] as int]@.len() != num_groups,
{
    let mut k: usize = 0;
    while k < kept.len()
        invariant
            k <= kept@.len(),
            forall|t: int| 0 <= t < kept@.len() ==> (#[trigger] kept@[t]) < subsets@.len(),
            forall|t: int| 0 <= t < k ==> subsets@[#[trigger] kept@[t] as int]@.len() != num_groups,
        decreases kept@.len() - k,
    {
        if subsets[kept[k]].len() == num_groups {
            return Some(k);
        }
        k = k + 1;
    }
    None
}

/// The rule made of the clauses of the picked kept candidates, in the order picked.
pub fn rule_from_picks(candidates: &[CandidateClause], kept: &[usize], picked: &[usize]) -> (r: DNF)
    requires
        forall|t: int| 0 <= t < kept@.len() ==> (#[trigger] kept@[t]) < candidates@.len(),
        forall|t: int| 0 <= t < picked@.len() ==> (#[trigger] picked@[t]) < kept@.len(),
    ensures
        r.clauses@.len() == picked@.len(),
        forall|t: int| 0 <= t < picked@.len() ==> #[trigger] r.clauses@[t] == candidates@[kept@[picked@[t] as int] as int].clause,
{
    let mut clauses: Vec<Clause> = Vec::new();
    let mut t: usize = 0;
    while t < picked.len()
        invariant
            forall|u: int| 0 <= u < kept@.len() ==> (#[trigger] kept@[u]) < candidates@.len(),
            forall|u: int| 0 <= u < picked@.len() ==> (#[trigger] picked@[u]) < kept@.len(),
            t <= picked@.len(),
            clauses@.len() == t,
            forall|u: int| 0 <= u < t ==> #[trigger] clauses@[u] == candidates@[kept@[picked@[u] as int] as int].clause,
        decreases picked@.len() - t,
    {
        clauses.push(candidates[kept[picked[t]]].clause);
        t = t + 1;
    }
    DNF { clauses }
}

/// The two lists are equal.
fn same_items(a: &Vec<usize>, b: &Vec<usize>) -> (r: bool)
    ensures
        r == (a@ == b@),
{
    if a.len() != b.len() {
        return false;
    }
    let mut k: usize = 0;
    while k < a.len()
        invariant
            a@.len() == b@.len(),
            k <= a@.len(),
            forall|t: int| 0 <= t < k ==> a@[t] == b@[t],
        decreases a@.len() - k,
    {
        if a[k] != b[k] {
            return false;
        }
        k = k + 1;
    }
    assert(a@ =~= b@);
    true
}

} // verus!
