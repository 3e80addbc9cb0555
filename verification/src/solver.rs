//! Weighted set-cover solver settings and the group-to-subset index that the
//! cover model is built from.

use vstd::prelude::*;

verus! {

/// Integer Programming solver (exact).
pub struct IPSolver {
    pub max_itr: usize,
}

impl Default for IPSolver {
    fn default() -> (r: Self)
        ensures
            r.max_itr == 20,
    {
        Self { max_itr: 20 }
    }
}

/// LP Relaxation solver with probabilistic rounding.
pub struct LPSolver {
    pub max_itr: usize,
    pub seed: u64,
}

impl Default for LPSolver {
    fn default() -> (r: Self)
        ensures
            r.max_itr == 20,
            r.seed == 42,
    {
        Self { max_itr: 20, seed: 42 }
    }
}

/// Number of times `x` occurs in `s`.
pub open spec fn count_in(s: Seq<usize>, x: usize) -> nat
    decreases s.len(),
{
    if s.len() == 0 {
        0
    } else {
        count_in(s.drop_last(), x) + (if s.last() == x {
            1nat
        } else {
            0nat
        })
    }
}

/// The indices of the subsets among the first `upto` that hold group `g`, in
/// increasing order, each repeated as often as the subset lists `g`.
pub open spec fn holders(subsets: Seq<Vec<usize>>, g: usize, upto: int) -> Seq<usize>
    decreases upto,
{
    if upto <= 0 {
        Seq::empty()
    } else {
        holders(subsets, g, upto - 1) + Seq::new(
            count_in(subsets[upto - 1]@, g),
            |_k: int| (upto - 1) as usize,
        )
    }
}

proof fn lemma_count_in_positive(s: Seq<usize>, x: usize)
    ensures
        (count_in(s, x) > 0) == s.contains(x),
    decreases s.len(),
{
    if s.len() > 0 {
        lemma_count_in_positive(s.drop_last(), x);
        if s.drop_last().contains(x) {
            let k = choose|k: int| 0 <= k < s.drop_last().len() && s.drop_last()[k] == x;
            assert(s[k] == x);
        }
        if s.contains(x) && s.last() != x {
            let k = choose|k: int| 0 <= k < s.len() && s[k] == x;
            assert(k != s.len() - 1);
            assert(s.drop_last()[k] == x);
        }
        if s.last() == x {
            assert(s[s.len() - 1] == x);
        }
    }
}

/// Subset `i` is listed for group `g` exactly when it holds `g`.
pub proof fn lemma_holders_are_exact(subsets: Seq<Vec<usize>>, g: usize, upto: int, i: usize)
    requires
        0 <= upto <= subsets.len(),
        subsets.len() <= usize::MAX,
    ensures
        holders(subsets, g, upto).contains(i) == (i < upto && subsets[i as int]@.contains(g)),
    decreases upto,
{
    if upto > 0 {
        lemma_holders_are_exact(subsets, g, upto - 1, i);
        let u = upto - 1;
        let c = count_in(subsets[u]@, g);
        let tail = Seq::new(c, |_k: int| u as usize);
        let h = holders(subsets, g, upto);
        let h0 = holders(subsets, g, u);
        assert(h == h0 + tail);
        lemma_count_in_positive(subsets[u]@, g);
        if h.contains(i) {
            let k = choose|k: int| 0 <= k < h.len() && h[k] == i;
            if k < h0.len() {
                assert(h0[k] == i);
            } else {
                assert(tail[k - h0.len()] == u as usize);
            }
        }
        if i < upto && subsets[i as int]@.contains(g) {
            if i < u {
                let k = choose|k: int| 0 <= k < h0.len() && h0[k] == i;
                assert(h[k] == i);
            } else {
                assert(h[h0.len() as int] == i);
            }
        }
    }
}

/// For every group below `num_groups`, the subsets that hold it.
pub fn build_reverse_index(subsets: &[Vec<usize>], num_groups: usize) -> (r: Vec<Vec<usize>>)
    ensures
        r@.len() == num_groups,
        forall|g: int| 0 <= g < num_groups ==> (#[trigger] r@[g])@ == holders(subsets@, g as usize, subsets@.len() as int),
{
    let mut sets_id: Vec<Vec<usize>> = Vec::new();
    let mut g: usize = 0;
    while g < num_groups
        invariant
            g <= num_groups,
            sets_id@.len() == g,
            forall|h: int| 0 <= h < g ==> (#[trigger] sets_id@[h])@ == Seq::<usize>::empty(),
        decreases num_groups - g,
    {
        sets_id.push(Vec::new());
        g = g + 1;
    }
    let mut i: usize = 0;
    while i < subsets.len()
        invariant
            i <= subsets@.len(),
            sets_id@.len() == num_groups,
            forall|h: int| 0 <= h < num_groups ==> (#[trigger] sets_id@[h])@ == holders(subsets@, h as usize, i as int),
        decreases subsets@.len() - i,
    {
        let subset = &subsets[i];
        let mut t: usize = 0;
        while t < subset.len()
            invariant
                i < subsets@.len(),
                subset@ == subsets@[i as int]@,
                t <= subset@.len(),
                sets_id@.len() == num_groups,
                forall|h: int|
                    0 <= h < num_groups ==> (#[trigger] sets_id@[h])@ == holders(subsets@, h as usize, i as int)
                        + Seq::new(count_in(subset@.take(t as int), h as usize), |_k: int| i),
            decreases subset@.len() - t,
        {
            let j = subset[t];
            assert(subset@.take(t + 1).drop_last() =~= subset@.take(t as int));
            if j < num_groups {
                let mut row = sets_id[j].clone();
                let ghost old_row = sets_id@[j as int]@;
                assert(row@ == old_row);
                row.push(i);
                sets_id.set(j, row);
                assert forall|h: int|
                    0 <= h < num_groups implies (#[trigger] sets_id@[h])@ == holders(subsets@, h as usize, i as int)
                        + Seq::new(count_in(subset@.take(t + 1), h as usize), |_k: int| i) by {
                    if h == j {
                        assert(sets_id@[h]@ =~= holders(subsets@, h as usize, i as int) + Seq::new(
                            count_in(subset@.take(t + 1), h as usize),
                            |_k: int| i,
                        ));
                    }
                }
            } else {
                assert forall|h: int|
                    0 <= h < num_groups implies (#[trigger] sets_id@[h])@ == holders(subsets@, h as usize, i as int)
                        + Seq::new(count_in(subset@.take(t + 1), h as usize), |_k: int| i) by {
                    assert(subset@.take(t + 1).last() == j);
                }
            }
            t = t + 1;
        }
        assert forall|h: int| 0 <= h < num_groups implies (#[trigger] sets_id@[h])@ == holders(subsets@, h as usize, i + 1) by {
            assert(subset@.take(subset@.len() as int) =~= subset@);
            assert(holders(subsets@, h as usize, i + 1) =~= holders(subsets@, h as usize, i as int) + Seq::new(
                count_in(subset@, h as usize),
                |_k: int| i,
            ));
        }
        i = i + 1;
    }
    sets_id
}

} // verus!
