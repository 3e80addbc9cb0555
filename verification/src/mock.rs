//! A minimal, self-contained example problem: a toy problem whose "optimal
//! solution" is a fixed boolean vector.

use std::collections::HashSet;
use vstd::prelude::*;

use rand::rngs::StdRng;
use rand::seq::SliceRandom;
use rand::SeedableRng;

use crate::branching_table::lists;
use crate::clause::Clause;

verus! {

/// The seeded generator of `rand`, carried through opaquely.
#[verifier::external_type_specification]
#[verifier::external_body]
pub struct ExStdRng(StdRng);

/// A toy problem whose "optimal solution" is a fixed boolean vector.
///
/// Branching removes variables; the local value of a branch is the number of
/// correctly-assigned variables it fixes.
#[derive(Debug, Clone)]
pub struct MockProblem {
    pub optimal: Vec<bool>,
}

/// Measure that counts the number of remaining variables.
pub struct NumOfVariables;

/// Selector that picks `n` variables at random using a fixed seed.
pub struct RandomSelector {
    pub n: usize,
    pub seed: u64,
}

/// Bit `i` of `x` is set (`i < 64`).
pub open spec fn bit_set(x: u64, i: int) -> bool {
    (x >> (i as u64)) & 1 == 1
}

/// Branching on `clause` over `variables` removes variable `k`.
pub open spec fn removes(clause: Clause, variables: Seq<usize>, k: int) -> bool {
    exists|i: int| 0 <= i < variables.len() && variables[i] as int == k && #[trigger] bit_set(clause.mask, i)
}

/// The values of the variables below `upto` that branching on `clause` keeps.
pub open spec fn survivors(optimal: Seq<bool>, clause: Clause, variables: Seq<usize>, upto: int) -> Seq<bool>
    decreases upto,
{
    if upto <= 0 {
        Seq::empty()
    } else if removes(clause, variables, upto - 1) {
        survivors(optimal, clause, variables, upto - 1)
    } else {
        survivors(optimal, clause, variables, upto - 1).push(optimal[upto - 1])
    }
}

/// Among the first `upto` branching variables, the number that `clause` fixes
/// to their value in `optimal`.
pub open spec fn correct_count(optimal: Seq<bool>, clause: Clause, variables: Seq<usize>, upto: int) -> nat
    decreases upto,
{
    if upto <= 0 {
        0
    } else {
        correct_count(optimal, clause, variables, upto - 1) + (if bit_set(clause.mask, upto - 1) && bit_set(
            clause.val,
            upto - 1,
        ) == optimal[variables[upto - 1] as int] {
            1nat
        } else {
            0nat
        })
    }
}

/// The positions below `n` at which `clause` fixes the variable named there to
/// the value that `optimal` gives that variable.
pub open spec fn correct_positions(optimal: Seq<bool>, clause: Clause, variables: Seq<usize>, n: int) -> Set<
    int,
> {
    Set::new(
        |i: int|
            0 <= i < n && bit_set(clause.mask, i) && bit_set(clause.val, i) == optimal[variables[i] as int],
    )
}

/// The count of correctly fixed variables is the number of positions at which
/// the clause fixes the variable named there to that variable's optimal value.
pub proof fn lemma_correct_count_positions(optimal: Seq<bool>, clause: Clause, variables: Seq<usize>, n: int)
    requires
        0 <= n,
    ensures
        correct_positions(optimal, clause, variables, n).finite(),
        correct_count(optimal, clause, variables, n) == correct_positions(optimal, clause, variables, n).len(),
    decreases n,
{
    let s = correct_positions(optimal, clause, variables, n);
    if n == 0 {
        assert(s =~= Set::<int>::empty());
    } else {
        lemma_correct_count_positions(optimal, clause, variables, n - 1);
        let s0 = correct_positions(optimal, clause, variables, n - 1);
        assert(!s0.contains(n - 1));
        if s.contains(n - 1) {
            assert(s =~= s0.insert(n - 1));
        } else {
            assert(s =~= s0);
        }
    }
}

/// The count depends on the branching variables only through the optimal
/// values they name: two problems whose fixed variables carry the same optimal
/// values position by position get the same count from the same clause.
pub proof fn lemma_correct_count_by_named_values(
    optimal1: Seq<bool>,
    variables1: Seq<usize>,
    optimal2: Seq<bool>,
    variables2: Seq<usize>,
    clause: Clause,
    n: int,
)
    requires
        0 <= n <= variables1.len(),
        n <= variables2.len(),
        forall|i: int|
            0 <= i < n && #[trigger] bit_set(clause.mask, i) ==> variables1[i] < optimal1.len() && variables2[i]
                < optimal2.len() && optimal1[variables1[i] as int] == optimal2[variables2[i] as int],
    ensures
        correct_count(optimal1, clause, variables1, n) == correct_count(optimal2, clause, variables2, n),
    decreases n,
{
    if n > 0 {
        lemma_correct_count_by_named_values(optimal1, variables1, optimal2, variables2, clause, n - 1);
    }
}

/// Entry `k` of `a` is entry `p[k]` of `b`, and `p` picks each index of `b`
/// at most once.
pub open spec fn permutes(a: Seq<usize>, b: Seq<usize>, p: Seq<int>) -> bool {
    &&& p.len() == a.len()
    &&& forall|k: int| 0 <= k < p.len() ==> 0 <= #[trigger] p[k] < b.len()
    &&& forall|k1: int, k2: int| 0 <= k1 < p.len() && 0 <= k2 < p.len() && k1 != k2 ==> p[k1] != p[k2]
    &&& forall|k: int| 0 <= k < a.len() ==> #[trigger] a[k] == b[p[k]]
}

/// `a` lists the entries of `b` in another order.
pub open spec fn is_permutation(a: Seq<usize>, b: Seq<usize>) -> bool {
    &&& a.len() == b.len()
    &&& exists|p: Seq<int>| #[trigger] permutes(a, b, p)
}

/// Calls `rand::SeedableRng::seed_from_u64` for `StdRng`. Nothing is claimed
/// of the generator it returns.
#[verifier::external_body]
fn seeded_rng(seed: u64) -> (r: StdRng) {
    StdRng::seed_from_u64(seed)
}

/// Calls `rand::seq::SliceRandom::shuffle`, which only swaps entries: the
/// vector afterwards lists the same entries in some order that depends on the
/// generator. Which order is not claimed.
#[verifier::external_body]
fn shuffle(v: &mut Vec<usize>, rng: &mut StdRng)
    ensures
        is_permutation(final(v)@, old(v)@),
{
    v.shuffle(rng);
}

impl MockProblem {
    /// Apply a clause over `variables`: drop every variable that the clause
    /// constrains, and count those it sets to their optimal value. Every
    /// variable that the clause constrains must be a variable of the problem.
    pub fn apply_branch(&self, clause: &Clause, variables: &[usize]) -> (r: (MockProblem, usize))
        requires
            variables@.len() <= 64,
            forall|i: int|
                0 <= i < variables@.len() && #[trigger] bit_set(clause.mask, i) ==> variables@[i]
                    < self.optimal@.len(),
        ensures
            r.0.optimal@ == survivors(self.optimal@, *clause, variables@, self.optimal@.len() as int),
            r.1 == correct_count(self.optimal@, *clause, variables@, variables@.len() as int),
    {
        let n = self.optimal.len();
        let mut remain_mask: Vec<bool> = Vec::new();
        let mut k: usize = 0;
        while k < n
            invariant
                k <= n == self.optimal@.len(),
                remain_mask@.len() == k,
                forall|t: int| 0 <= t < k ==> #[trigger] remain_mask@[t],
            decreases n - k,
        {
            remain_mask.push(true);
            k = k + 1;
        }
        let mut correct: usize = 0;
        let mut i: usize = 0;
        while i < variables.len()
            invariant
                n == self.optimal@.len(),
                variables@.len() <= 64,
                forall|t: int|
                    0 <= t < variables@.len() && #[trigger] bit_set(clause.mask, t) ==> variables@[t] < n,
                i <= variables@.len(),
                remain_mask@.len() == n,
                forall|t: int|
                    0 <= t < n ==> #[trigger] remain_mask@[t] == !(exists|j: int|
                        0 <= j < i && variables@[j] as int == t && #[trigger] bit_set(clause.mask, j)),
                correct == correct_count(self.optimal@, *clause, variables@, i as int),
                correct <= i,
            decreases variables@.len() - i,
        {
            let var_idx = variables[i];
            let s: u64 = i as u64;
            if ((clause.mask >> s) & 1) == 1 {
                assert(bit_set(clause.mask, i as int));
                remain_mask.set(var_idx, false);
                let val_bit = (clause.val >> s) & 1;
                if (val_bit == 1) == self.optimal[var_idx] {
                    correct = correct + 1;
                }
            }
            assert forall|t: int|
                0 <= t < n implies #[trigger] remain_mask@[t] == !(exists|j: int|
                    0 <= j < i + 1 && variables@[j] as int == t && #[trigger] bit_set(clause.mask, j)) by {
                if bit_set(clause.mask, i as int) && t == var_idx {
                    assert(variables@[i as int] as int == t);
                }
            }
            i = i + 1;
        }
        let mut kept: Vec<bool> = Vec::new();
        let mut t: usize = 0;
        while t < n
            invariant
                n == self.optimal@.len(),
                t <= n,
                remain_mask@.len() == n,
                forall|u: int|
                    0 <= u < n ==> #[trigger] remain_mask@[u] == !removes(*clause, variables@, u),
                kept@ == survivors(self.optimal@, *clause, variables@, t as int),
            decreases n - t,
        {
            if remain_mask[t] {
                kept.push(self.optimal[t]);
            }
            t = t + 1;
        }
        (MockProblem { optimal: kept }, correct)
    }
}

impl RandomSelector {
    /// Pick `min(n, #variables)` distinct variables at random (the choice
    /// depends on `seed` and on the number of variables), in increasing order.
    pub fn select(&self, p: &MockProblem) -> (r: Vec<usize>)
        ensures
            r@.len() == (if self.n < p.optimal@.len() { self.n as int } else { p.optimal@.len() as int }),
            forall|a: int, b: int| 0 <= a < b < r@.len() ==> r@[a] < r@[b],
            forall|k: int| 0 <= k < r@.len() ==> (#[trigger] r@[k]) < p.optimal@.len(),
    {
        let len = p.optimal.len();
        let nv = if self.n < len {
            self.n
        } else {
            len
        };
        let mut rng = seeded_rng(self.seed.wrapping_add(len as u64));
        let mut indices: Vec<usize> = Vec::new();
        let mut i: usize = 0;
        while i < len
            invariant
                i <= len,
                indices@.len() == i,
                forall|k: int| 0 <= k < i ==> #[trigger] indices@[k] as int == k,
            decreases len - i,
        {
            indices.push(i);
            i = i + 1;
        }
        let ghost ordered = indices@;
        shuffle(&mut indices, &mut rng);
        proof {
            let p = choose|p: Seq<int>| #[trigger] permutes(indices@, ordered, p);
            assert forall|k1: int, k2: int|
                0 <= k1 < indices@.len() && 0 <= k2 < indices@.len() && k1 != k2 implies indices@[k1]
                != indices@[k2] by {
                assert(indices@[k1] == ordered[p[k1]]);
                assert(indices@[k2] == ordered[p[k2]]);
            }
            assert forall|k: int| 0 <= k < indices@.len() implies (#[trigger] indices@[k]) < len by {
                assert(indices@[k] == ordered[p[k]]);
            }
        }
        indices.truncate(nv);
        sort_distinct(&indices)
    }
}

proof fn lemma_or_bit(v: u64, i: u64, j: u64)
    requires
        i < 64,
        j < 64,
    ensures
        (((v | (1u64 << i)) >> j) & 1 == 1) == (((v >> j) & 1 == 1) || i == j),
{
    assert((((v | (1u64 << i)) >> j) & 1 == 1) == (((v >> j) & 1 == 1) || i == j)) by (bit_vector)
        requires
            i < 64,
            j < 64,
    ;
}

/// The word whose bit `i` is `bs[i]` (every `true` entry lies below index 64).
pub fn bits_to_word(bs: &[bool]) -> (r: u64)
    requires
        forall|i: int| 0 <= i < bs@.len() && #[trigger] bs@[i] ==> i < 64,
    ensures
        forall|j: int| 0 <= j < 64 ==> #[trigger] bit_set(r, j) == (j < bs@.len() && bs@[j]),
{
    let mut v: u64 = 0;
    let mut i: usize = 0;
    assert forall|j: int| 0 <= j < 64 implies !#[trigger] bit_set(0u64, j) by {
        let jj = j as u64;
        assert(((0u64 >> jj) & 1 == 1) == false) by (bit_vector);
    }
    while i < bs.len()
        invariant
            forall|k: int| 0 <= k < bs@.len() && #[trigger] bs@[k] ==> k < 64,
            i <= bs@.len(),
            forall|j: int| 0 <= j < 64 ==> #[trigger] bit_set(v, j) == (j < i && bs@[j]),
        decreases bs@.len() - i,
    {
        if bs[i] {
            let ghost old_v = v;
            v = v | (1u64 << (i as u64));
            assert forall|j: int| 0 <= j < 64 implies #[trigger] bit_set(v, j) == (j < i + 1 && bs@[j]) by {
                lemma_or_bit(old_v, i as u64, j as u64);
                assert(bit_set(old_v, j) == (j < i && bs@[j]));
            }
        }
        i = i + 1;
    }
    v
}

/// `x` occurs in `v`.
pub open spec fn holds_word(v: Seq<u64>, x: u64) -> bool {
    exists|k: int| 0 <= k < v.len() && v[k] == x
}

/// The entries of `s` that do not occur earlier in `s`, in order.
pub open spec fn first_occurrences(s: Seq<u64>) -> Seq<u64>
    decreases s.len(),
{
    if s.len() == 0 {
        Seq::empty()
    } else if s.drop_last().contains(s.last()) {
        first_occurrences(s.drop_last())
    } else {
        first_occurrences(s.drop_last()).push(s.last())
    }
}

/// Keeping first occurrences keeps every value and adds none.
pub proof fn lemma_first_occurrences(s: Seq<u64>)
    ensures
        first_occurrences(s).len() <= s.len(),
        forall|x: u64| first_occurrences(s).contains(x) <==> s.contains(x),
    decreases s.len(),
{
    if s.len() > 0 {
        let init = s.drop_last();
        lemma_first_occurrences(init);
        let f = first_occurrences(init);
        assert forall|x: u64| first_occurrences(s).contains(x) <==> s.contains(x) by {
            if s.contains(x) && x != s.last() {
                let k = choose|k: int| 0 <= k < s.len() && s[k] == x;
                assert(init[k] == x);
            }
            if init.contains(x) {
                let k = choose|k: int| 0 <= k < init.len() && init[k] == x;
                assert(s[k] == x);
            }
            if f.contains(x) {
                let k = choose|k: int| 0 <= k < f.len() && f[k] == x;
                assert(f.push(s.last())[k] == x);
            }
            if f.push(s.last()).contains(x) && x != s.last() {
                let k = choose|k: int| 0 <= k < f.len() + 1 && f.push(s.last())[k] == x;
                assert(f[k] == x);
            }
            assert(s[s.len() - 1] == s.last());
            assert(f.push(s.last())[f.len() as int] == s.last());
        }
    }
}

/// The one-word rows of a branching table: each distinct word of `drawn`, in
/// the order of its first occurrence, then `optimal_word` if it was not drawn.
pub fn assemble_rows(drawn: &Vec<u64>, optimal_word: u64) -> (r: Vec<Vec<u64>>)
    ensures
        r@.len() == first_occurrences(drawn@.push(optimal_word)).len(),
        forall|k: int|
            0 <= k < r@.len() ==> (#[trigger] r@[k])@ == seq![first_occurrences(drawn@.push(optimal_word))[k]],
        r@.len() <= drawn@.len() + 1,
{
    proof {
        lemma_first_occurrences(drawn@.push(optimal_word));
    }
    let mut seen: HashSet<u64> = HashSet::new();
    let mut rows: Vec<Vec<u64>> = Vec::new();
    let mut i: usize = 0;
    assert(drawn@.take(0) =~= Seq::<u64>::empty());
    while i < drawn.len()
        invariant
            i <= drawn@.len(),
            rows@.len() == first_occurrences(drawn@.take(i as int)).len(),
            forall|k: int|
                0 <= k < rows@.len() ==> (#[trigger] rows@[k])@ == seq![first_occurrences(drawn@.take(i as int))[k]],
            forall|x: u64| seen@.contains(x) <==> drawn@.take(i as int).contains(x),
        decreases drawn@.len() - i,
    {
        let v = drawn[i];
        let ghost before = drawn@.take(i as int);
        let ghost after = drawn@.take(i + 1);
        assert(after.drop_last() =~= before);
        assert(after.last() == v);
        if seen.insert(v) {
            let mut row: Vec<u64> = Vec::new();
            row.push(v);
            rows.push(row);
        }
        proof {
            assert forall|x: u64| seen@.contains(x) <==> after.contains(x) by {
                if before.contains(x) {
                    let k = choose|k: int| 0 <= k < before.len() && before[k] == x;
                    assert(after[k] == x);
                }
                if after.contains(x) && x != v {
                    let k = choose|k: int| 0 <= k < after.len() && after[k] == x;
                    assert(before[k] == x);
                }
                assert(after[i as int] == v);
            }
        }
        i = i + 1;
    }
    let ghost all = drawn@.push(optimal_word);
    assert(drawn@.take(i as int) =~= drawn@);
    assert(all.drop_last() =~= drawn@);
    if seen.insert(optimal_word) {
        let mut row: Vec<u64> = Vec::new();
        row.push(optimal_word);
        rows.push(row);
    }
    rows
}

/// The distinct entries of `row` in increasing order.
pub fn sorted_unique(row: &Vec<u64>) -> (r: Vec<u64>)
    ensures
        forall|a: int, b: int| 0 <= a < b < r@.len() ==> r@[a] < r@[b],
        forall|x: u64| holds_word(r@, x) <==> holds_word(row@, x),
{
    let mut out: Vec<u64> = Vec::new();
    let mut t: usize = 0;
    while t < row.len()
        invariant
            t <= row@.len(),
            forall|a: int, b: int| 0 <= a < b < out@.len() ==> out@[a] < out@[b],
            forall|x: u64| holds_word(out@, x) <==> holds_word(row@.take(t as int), x),
        decreases row@.len() - t,
    {
        let x = row[t];
        let mut p: usize = 0;
        while p < out.len() && out[p] < x
            invariant
                p <= out@.len(),
                forall|q: int| 0 <= q < p ==> #[trigger] out@[q] < x,
            decreases out@.len() - p,
        {
            p = p + 1;
        }
        let ghost old_out = out@;
        let ghost before = row@.take(t as int);
        let ghost after = row@.take(t + 1);
        assert(after =~= before.push(x));
        assert forall|y: u64| holds_word(after, y) <==> (holds_word(before, y) || y == x) by {
            if holds_word(after, y) && y != x {
                let k = choose|k: int| 0 <= k < after.len() && after[k] == y;
                assert(before[k] == y);
            }
            if holds_word(before, y) {
                let k = choose|k: int| 0 <= k < before.len() && before[k] == y;
                assert(after[k] == y);
            }
            if y == x {
                assert(after[t as int] == y);
            }
        }
        if p < out.len() && out[p] == x {
            assert(old_out[p as int] == x);
            assert(holds_word(old_out, x));
        } else {
            proof {
                assert forall|q: int| p <= q < old_out.len() implies x < #[trigger] old_out[q] by {
                    if q > p {
                        assert(old_out[p as int] < old_out[q]);
                    }
                }
            }
            out.insert(p, x);
            proof {
                assert(out@ == old_out.insert(p as int, x));
                assert forall|a: int, b: int| 0 <= a < b < out@.len() implies out@[a] < out@[b] by {
                    if b < p {
                        assert(out@[a] == old_out[a] && out@[b] == old_out[b]);
                    } else if b == p {
                        assert(out@[a] == old_out[a]);
                    } else if a < p {
                        assert(out@[a] == old_out[a] && out@[b] == old_out[b - 1]);
                    } else if a == p {
                        assert(out@[b] == old_out[b - 1]);
                    } else {
                        assert(out@[a] == old_out[a - 1] && out@[b] == old_out[b - 1]);
                    }
                }
                assert forall|y: u64| holds_word(out@, y) <==> (holds_word(old_out, y) || y == x) by {
                    if holds_word(out@, y) && y != x {
                        let k = choose|k: int| 0 <= k < out@.len() && out@[k] == y;
                        if k < p {
                            assert(old_out[k] == y);
                        } else {
                            assert(k != p);
                            assert(old_out[k - 1] == y);
                        }
                    }
                    if holds_word(old_out, y) {
                        let k = choose|k: int| 0 <= k < old_out.len() && old_out[k] == y;
                        if k < p {
                            assert(out@[k] == y);
                        } else {
                            assert(out@[k + 1] == y);
                        }
                    }
                    if y == x {
                        assert(out@[p as int] == y);
                    }
                }
            }
        }
        assert forall|y: u64| holds_word(out@, y) <==> holds_word(after, y) by {
            assert(holds_word(out@, y) <==> (holds_word(old_out, y) || y == x));
            assert(holds_word(old_out, y) <==> holds_word(before, y));
        }
        t = t + 1;
    }
    assert(row@.take(row@.len() as int) =~= row@);
    out
}

/// `x` is one of the first `t` entries of `v`.
pub open spec fn among_first(v: Seq<usize>, t: int, x: usize) -> bool {
    exists|j: int| 0 <= j < t && v[j] == x
}

/// The entries of `v` (which are distinct) in increasing order.
fn sort_distinct(v: &Vec<usize>) -> (r: Vec<usize>)
    requires
        forall|k1: int, k2: int| 0 <= k1 < v@.len() && 0 <= k2 < v@.len() && k1 != k2 ==> v@[k1] != v@[k2],
    ensures
        r@.len() == v@.len(),
        forall|a: int, b: int| 0 <= a < b < r@.len() ==> r@[a] < r@[b],
        forall|k: int| 0 <= k < r@.len() ==> among_first(v@, v@.len() as int, #[trigger] r@[k]),
        forall|j: int| 0 <= j < v@.len() ==> #[trigger] lists(r@, v@[j] as int),
{
    let mut out: Vec<usize> = Vec::new();
    let mut t: usize = 0;
    while t < v.len()
        invariant
            t <= v@.len(),
            forall|k1: int, k2: int| 0 <= k1 < v@.len() && 0 <= k2 < v@.len() && k1 != k2 ==> v@[k1] != v@[k2],
            out@.len() == t,
            forall|a: int, b: int| 0 <= a < b < out@.len() ==> out@[a] < out@[b],
            forall|k: int| 0 <= k < out@.len() ==> among_first(v@, t as int, #[trigger] out@[k]),
            forall|j: int| 0 <= j < t ==> #[trigger] lists(out@, v@[j] as int),
        decreases v@.len() - t,
    {
        let x = v[t];
        let mut p: usize = 0;
        while p < out.len() && out[p] < x
            invariant
                p <= out@.len(),
                forall|q: int| 0 <= q < p ==> #[trigger] out@[q] < x,
            decreases out@.len() - p,
        {
            p = p + 1;
        }
        let ghost old_out = out@;
        proof {
            assert forall|q: int| p <= q < old_out.len() implies x < #[trigger] old_out[q] by {
                assert(among_first(v@, t as int, old_out[q]));
                let j = choose|j: int| 0 <= j < t && v@[j] == old_out[q];
                assert(v@[j] != v@[t as int]);
                if q > p {
                    assert(old_out[p as int] < old_out[q]);
                }
                assert(among_first(v@, t as int, old_out[p as int]));
                let jp = choose|jp: int| 0 <= jp < t && v@[jp] == old_out[p as int];
                assert(v@[jp] != v@[t as int]);
            }
        }
        out.insert(p, x);
        proof {
            assert(out@ == old_out.insert(p as int, x));
            assert forall|a: int, b: int| 0 <= a < b < out@.len() implies out@[a] < out@[b] by {
                if b < p {
                    assert(out@[a] == old_out[a] && out@[b] == old_out[b]);
                } else if b == p {
                    assert(out@[a] == old_out[a]);
                } else if a < p {
                    assert(out@[a] == old_out[a] && out@[b] == old_out[b - 1]);
                } else if a == p {
                    assert(out@[b] == old_out[b - 1]);
                } else {
                    assert(out@[a] == old_out[a - 1] && out@[b] == old_out[b - 1]);
                }
            }
            assert forall|k: int| 0 <= k < out@.len() implies among_first(v@, t + 1, #[trigger] out@[k]) by {
                if k < p {
                    assert(out@[k] == old_out[k]);
                    assert(among_first(v@, t as int, old_out[k]));
                    let j = choose|j: int| 0 <= j < t && v@[j] == old_out[k];
                } else if k == p {
                    assert(v@[t as int] == out@[k]);
                } else {
                    assert(out@[k] == old_out[k - 1]);
                    assert(among_first(v@, t as int, old_out[k - 1]));
                    let j = choose|j: int| 0 <= j < t && v@[j] == old_out[k - 1];
                }
            }
            assert forall|j: int| 0 <= j < t + 1 implies #[trigger] lists(out@, v@[j] as int) by {
                if j < t {
                    assert(lists(old_out, v@[j] as int));
                    let k = choose|k: int| 0 <= k < old_out.len() && old_out[k] as int == v@[j] as int;
                    if k < p {
                        assert(out@[k] == old_out[k]);
                    } else {
                        assert(out@[k + 1] == old_out[k]);
                    }
                } else {
                    assert(out@[p as int] == x);
                }
            }
        }
        t = t + 1;
    }
    out
}

} // verus!
