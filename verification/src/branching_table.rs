//! Branching tables: groups of acceptable bitstrings over the branching
//! variables, and the candidate clauses that cover them.

use std::collections::BTreeSet;
use vstd::prelude::*;

use crate::clause::{any_covers, clause_of, lemma_and_idempotent, Clause, DNF};

verus! {

/// `x` occurs in `s`.
pub open spec fn lists(s: Seq<usize>, x: int) -> bool {
    exists|k: int| 0 <= k < s.len() && s[k] as int == x
}

/// The mask with the lowest `n` bits set (`n <= 64`).
pub open spec fn low_mask(n: nat) -> u64 {
    if n >= 64 {
        u64::MAX
    } else {
        ((1u64 << n) - 1) as u64
    }
}

/// The clause that fixes every variable under `full` to the bits of `b`.
pub open spec fn row_clause(full: u64, b: u64) -> Clause {
    clause_of(full, b)
}

/// Merge of two clauses restricted to `len_mask`: keep the shared variables on
/// which they agree, drop the others.
pub open spec fn merged(len_mask: u64, c1: Clause, c2: Clause) -> Clause {
    let m = c1.mask & c2.mask & !(c1.val ^ c2.val) & len_mask;
    clause_of(m, c1.val & m)
}

/// Some bitstring of `group` satisfies `c`.
pub open spec fn group_covered(group: Seq<u64>, c: Clause) -> bool {
    exists|j: int| 0 <= j < group.len() && c.covers(#[trigger] group[j])
}

/// Whether merging `c` in turn with the row clauses of `bs` keeps a non-empty
/// mask after every step.
pub open spec fn chain_ok(full: u64, c: Clause, bs: Seq<u64>) -> bool
    decreases bs.len(),
{
    if bs.len() == 0 {
        true
    } else {
        let c2 = merged(full, c, row_clause(full, bs[0]));
        c2.mask != 0 && chain_ok(full, c2, bs.drop_first())
    }
}

/// The clause reached by merging `c` in turn with the row clauses of `bs`.
pub open spec fn chain_end(full: u64, c: Clause, bs: Seq<u64>) -> Clause
    decreases bs.len(),
{
    if bs.len() == 0 {
        c
    } else {
        chain_end(full, merged(full, c, row_clause(full, bs[0])), bs.drop_first())
    }
}

/// `a` comes before `b` in lexicographic order (same lengths).
pub open spec fn lex_before(a: Seq<int>, b: Seq<int>) -> bool {
    exists|k: int| 0 <= k < a.len() && k < b.len() && a.take(k) == b.take(k) && #[trigger] a[k] < b[k]
}

/// Some picked candidate lists group `g` among its covered items.
pub open spec fn selection_lists(cands: Seq<CandidateClause>, picked: Seq<int>, g: int) -> bool {
    exists|t: int| 0 <= t < picked.len() && #[trigger] lists(cands[picked[t]].covered_items@, g)
}

/// The clauses of a list of candidate clauses.
pub open spec fn clauses_of(cands: Seq<CandidateClause>) -> Seq<Clause> {
    cands.map_values(|cc: CandidateClause| cc.clause)
}

#[derive(Debug, Clone)]
pub struct BranchingTable {
    pub bit_length: usize,  // num of branching variables
    pub table: Vec<Vec<u64>>,  // groups of bitstrings, eg. [`0010`, `1001`, `1100`]
}

#[derive(Debug, Clone)]
pub struct CandidateClause {
    pub clause: Clause,
    pub covered_items: Vec<usize>,
}

impl BranchingTable {
    /// Number of groups (rows) of the table.
    pub open spec fn n_groups(self) -> nat {
        self.table@.len()
    }

    /// Bitstring `j` of group `g`.
    pub open spec fn entry(self, g: int, j: int) -> u64 {
        self.table@[g]@[j]
    }

    /// Mask of the branching variables.
    pub open spec fn full_mask(self) -> u64 {
        low_mask(self.bit_length as nat)
    }

    /// Group `g` holds a bitstring that satisfies `c`.
    pub open spec fn covers_group(self, g: int, c: Clause) -> bool {
        group_covered(self.table@[g]@, c)
    }

    /// `items` lists, in increasing order, exactly the groups that `c` covers.
    pub open spec fn covered_items_are(self, c: Clause, items: Seq<usize>) -> bool {
        &&& forall|a: int, b: int| 0 <= a < b < items.len() ==> items[a] < items[b]
        &&& forall|k: int| 0 <= k < items.len() ==> (#[trigger] items[k]) < self.n_groups()
            && self.covers_group(items[k] as int, c)
        &&& forall|g: int| 0 <= g < self.n_groups() && #[trigger] self.covers_group(g, c)
            ==> lists(items, g)
    }

    /// Every group holds a bitstring satisfied by some clause of `clauses`.
    pub open spec fn covered_by_clauses(self, clauses: Seq<Clause>) -> bool {
        forall|g: int| 0 <= g < self.n_groups() ==> #[trigger] self.group_hit(g, clauses)
    }

    /// Group `g` holds a bitstring satisfied by some clause of `clauses`.
    pub open spec fn group_hit(self, g: int, clauses: Seq<Clause>) -> bool {
        exists|j: int|
            0 <= j < self.table@[g]@.len() && #[trigger] any_covers(clauses, self.entry(g, j))
    }

    /// The row clause of bitstring `j` of group `g`.
    pub open spec fn row_clause_at(self, g: int, j: int) -> Clause {
        row_clause(self.full_mask(), self.entry(g, j))
    }

    /// `c` is the row clause of some bitstring of the table.
    pub open spec fn is_row_clause(self, c: Clause) -> bool {
        exists|g: int, j: int|
            0 <= g < self.n_groups() && 0 <= j < self.table@[g]@.len() && c == #[trigger] self.row_clause_at(g, j)
    }

    /// The merge of `c` with the row clause of bitstring `j` of group `g`.
    pub open spec fn merge_step(self, c: Clause, g: int, j: int) -> Clause {
        merged(self.full_mask(), c, self.row_clause_at(g, j))
    }

    /// `c2` arises from `c` by merging it with a bitstring of a group that `c`
    /// does not cover, and constrains at least one variable.
    pub open spec fn derives(self, c: Clause, c2: Clause) -> bool {
        &&& c2.mask != 0
        &&& exists|g: int, j: int|
            0 <= g < self.n_groups() && 0 <= j < self.table@[g]@.len() && !self.covers_group(g, c)
                && c2 == #[trigger] self.merge_step(c, g, j)
    }

    /// No merge step leads from `c` out of `cs`, except to `c` itself or to the
    /// empty-mask clause.
    pub open spec fn closed_at(self, cs: Seq<Clause>, c: Clause) -> bool {
        forall|g: int, j: int|
            0 <= g < self.n_groups() && 0 <= j < self.table@[g]@.len() && !self.covers_group(g, c)
                ==> {
                let c2 = #[trigger] self.merge_step(c, g, j);
                c2 == c || c2.mask == 0 || cs.contains(c2)
            }
    }

    /// Every clause of `cs` is a row clause or derives from an earlier one.
    pub open spec fn derived_in_order(self, cs: Seq<Clause>) -> bool {
        forall|k: int|
            0 <= k < cs.len() ==> self.is_row_clause(#[trigger] cs[k]) || exists|k2: int|
                0 <= k2 < k && self.derives(cs[k2], #[trigger] cs[k])
    }

    /// `cs` is exactly the set of candidate clauses: it holds every row clause,
    /// is closed under merge steps, and holds nothing that is not reached from
    /// the row clauses by merge steps.
    pub open spec fn is_candidate_set(self, cs: Seq<Clause>) -> bool {
        &&& cs.no_duplicates()
        &&& forall|g: int, j: int|
            0 <= g < self.n_groups() && 0 <= j < self.table@[g]@.len() ==> cs.contains(
                #[trigger] self.row_clause_at(g, j),
            )
        &&& forall|k: int| 0 <= k < cs.len() ==> #[trigger] self.closed_at(cs, cs[k])
        &&& self.derived_in_order(cs)
    }

    proof fn lemma_closed_at_grow(self, cs: Seq<Clause>, cs2: Seq<Clause>, c: Clause)
        requires
            self.closed_at(cs, c),
            forall|x: Clause| cs.contains(x) ==> cs2.contains(x),
        ensures
            self.closed_at(cs2, c),
    {
        assert forall|g: int, j: int|
            0 <= g < self.n_groups() && 0 <= j < self.table@[g]@.len() && !self.covers_group(
                g,
                c,
            ) implies {
            let c2 = #[trigger] self.merge_step(c, g, j);
            c2 == c || c2.mask == 0 || cs2.contains(c2)
        } by {
            let c2 = self.merge_step(c, g, j);
            if c2 != c && c2.mask != 0 {
                assert(cs.contains(c2));
            }
        }
    }

    proof fn lemma_derived_push(self, cs: Seq<Clause>, x: Clause, i: int)
        requires
            self.derived_in_order(cs),
            0 <= i < cs.len(),
            self.derives(cs[i], x),
        ensures
            self.derived_in_order(cs.push(x)),
    {
        let cs2 = cs.push(x);
        assert forall|k: int| 0 <= k < cs2.len() implies self.is_row_clause(#[trigger] cs2[k])
            || exists|k2: int| 0 <= k2 < k && self.derives(cs2[k2], #[trigger] cs2[k]) by {
            if k < cs.len() {
                assert(cs2[k] == cs[k]);
                if !self.is_row_clause(cs[k]) {
                    let k2 = choose|k2: int| 0 <= k2 < k && self.derives(cs[k2], #[trigger] cs[k]);
                    assert(cs2[k2] == cs[k2]);
                }
            } else {
                assert(cs2[k] == x);
                assert(cs2[i] == cs[i]);
            }
        }
    }

    /// Worklist-based candidate clause generation: every clause reached from
    /// the row clauses by merging with bitstrings of groups not yet covered,
    /// each listed with the groups it covers.
    pub fn candidate_clauses(&self) -> (r: Vec<CandidateClause>)
        requires
            self.bit_length <= 64,
        ensures
            self.is_candidate_set(clauses_of(r@)),
            forall|k: int|
                0 <= k < r@.len() ==> self.covered_items_are(
                    (#[trigger] r@[k]).clause,
                    r@[k].covered_items@,
                ),
            forall|k: int| 0 <= k < r@.len() ==> (#[trigger] r@[k]).covered_items@.len() > 0,
    {
        let full_mask = bit_mask(self.bit_length);
        let mut found: Vec<Clause> = Vec::new();
        let mut seen: BTreeSet<(u64, u64)> = BTreeSet::new();
        proof {
            assert forall|m: u64, v: u64| #[trigger] seen@.contains((m, v)) == found@.contains(
                Clause { mask: m, val: v },
            ) by {}
        }
        let mut g: usize = 0;
        while g < self.table.len()
            invariant
                full_mask == self.full_mask(),
                g <= self.table@.len(),
                found@.no_duplicates(),
                indexes(seen@, found@),
                forall|k: int| 0 <= k < found@.len() ==> self.is_row_clause(#[trigger] found@[k]),
                forall|h: int, j: int|
                    0 <= h < g && 0 <= j < self.table@[h]@.len() ==> found@.contains(
                        #[trigger] self.row_clause_at(h, j),
                    ),
            decreases self.table@.len() - g,
        {
            let group = &self.table[g];
            let mut j: usize = 0;
            while j < group.len()
                invariant
                    full_mask == self.full_mask(),
                    g < self.table@.len(),
                    group@ == self.table@[g as int]@,
                    j <= group@.len(),
                    found@.no_duplicates(),
                    indexes(seen@, found@),
                    forall|k: int| 0 <= k < found@.len() ==> self.is_row_clause(#[trigger] found@[k]),
                    forall|h: int, j2: int|
                        (0 <= h < g && 0 <= j2 < self.table@[h]@.len()) || (h == g && 0 <= j2 < j)
                            ==> found@.contains(#[trigger] self.row_clause_at(h, j2)),
                decreases group@.len() - j,
            {
                let rc = Clause::new(full_mask, group[j]);
                assert(rc == self.row_clause_at(g as int, j as int));
                let ghost before = found@;
                let ghost seen_before = seen@;
                if !seen.contains(&(rc.mask, rc.val)) {
                    found.push(rc);
                    seen.insert((rc.mask, rc.val));
                    proof {
                        lemma_push_distinct(before, rc);
                        lemma_index_push(seen_before, before, rc);
                    }
                }
                proof {
                    lemma_push_contains(before, rc);
                }
                j = j + 1;
            }
            g = g + 1;
        }
        let mut result: Vec<CandidateClause> = Vec::new();
        let mut i: usize = 0;
        proof {
            lemma_distinct_clauses_bounded(found@);
            assert forall|k: int| 0 <= k < found@.len() implies self.is_row_clause(#[trigger] found@[k])
                || exists|k2: int| 0 <= k2 < k && self.derives(found@[k2], found@[k]) by {}
        }
        while i < found.len()
            invariant
                full_mask == self.full_mask(),
                i <= found@.len() <= clause_space(),
                found@.no_duplicates(),
                indexes(seen@, found@),
                result@.len() == i,
                forall|k: int|
                    0 <= k < i ==> (#[trigger] result@[k]).clause == found@[k]
                        && self.covered_items_are(found@[k], result@[k].covered_items@),
                forall|h: int, j: int|
                    0 <= h < self.n_groups() && 0 <= j < self.table@[h]@.len() ==> found@.contains(
                        #[trigger] self.row_clause_at(h, j),
                    ),
                self.derived_in_order(found@),
                forall|k: int| 0 <= k < i ==> self.closed_at(found@, #[trigger] found@[k]),
            decreases clause_space() - i,
        {
            let c = found[i];
            let covered = self.covered_items(&c);
            let ghost at_start = found@;
            let mut gi: usize = 0;
            while gi < self.table.len()
                invariant
                    full_mask == self.full_mask(),
                    i < at_start.len(),
                    at_start.len() <= found@.len() <= clause_space(),
                    forall|k: int| 0 <= k < at_start.len() ==> found@[k] == at_start[k],
                    c == at_start[i as int],
                    gi <= self.table@.len(),
                    found@.no_duplicates(),
                    indexes(seen@, found@),
                    forall|x: Clause| at_start.contains(x) ==> found@.contains(x),
                    self.derived_in_order(found@),
                    forall|h: int, j: int|
                        0 <= h < gi && 0 <= j < self.table@[h]@.len() && !self.covers_group(h, c)
                            ==> {
                            let c2 = #[trigger] self.merge_step(c, h, j);
                            c2 == c || c2.mask == 0 || found@.contains(c2)
                        },
                decreases self.table@.len() - gi,
            {
                if !group_is_covered(&self.table[gi], &c) {
                    let group = &self.table[gi];
                    let mut j: usize = 0;
                    while j < group.len()
                        invariant
                            full_mask == self.full_mask(),
                            i < at_start.len(),
                            at_start.len() <= found@.len() <= clause_space(),
                            forall|k: int| 0 <= k < at_start.len() ==> found@[k] == at_start[k],
                            c == at_start[i as int],
                            gi < self.table@.len(),
                            group@ == self.table@[gi as int]@,
                            !self.covers_group(gi as int, c),
                            j <= group@.len(),
                            found@.no_duplicates(),
                            indexes(seen@, found@),
                            forall|x: Clause| at_start.contains(x) ==> found@.contains(x),
                            self.derived_in_order(found@),
                            forall|h: int, j2: int|
                                ((0 <= h < gi && 0 <= j2 < self.table@[h]@.len()) || (h == gi && 0
                                    <= j2 < j)) && !self.covers_group(h, c) ==> {
                                    let c2 = #[trigger] self.merge_step(c, h, j2);
                                    c2 == c || c2.mask == 0 || found@.contains(c2)
                                },
                        decreases group@.len() - j,
                    {
                        let rc = Clause::new(full_mask, group[j]);
                        let c_new = gather2_with_mask(full_mask, &c, &rc);
                        assert(c_new == self.merge_step(c, gi as int, j as int));
                        let ghost before = found@;
                        let ghost seen_before = seen@;
                        if c_new != c && c_new.mask != 0 && !seen.contains(&(c_new.mask, c_new.val)) {
                            proof {
                                lemma_push_distinct(before, c_new);
                                lemma_distinct_clauses_bounded(before.push(c_new));
                                assert(before[i as int] == c);
                                assert(self.derives(before[i as int], c_new));
                                self.lemma_derived_push(before, c_new, i as int);
                            }
                            found.push(c_new);
                            seen.insert((c_new.mask, c_new.val));
                            proof {
                                lemma_index_push(seen_before, before, c_new);
                            }
                        }
                        proof {
                            lemma_push_contains(before, c_new);
                        }
                        j = j + 1;
                    }
                }
                gi = gi + 1;
            }
            proof {
                assert forall|k: int| 0 <= k < i + 1 implies self.closed_at(
                    found@,
                    #[trigger] found@[k],
                ) by {
                    if k < i {
                        assert(found@[k] == at_start[k]);
                        self.lemma_closed_at_grow(at_start, found@, at_start[k]);
                    } else {
                        assert(found@[k] == c);
                    }
                }
            }
            result.push(CandidateClause { clause: c, covered_items: covered });
            i = i + 1;
        }
        proof {
            let cs = clauses_of(result@);
            assert(cs =~= found@);
            assert forall|k: int| 0 <= k < result@.len() implies (#[trigger] result@[k]).covered_items@.len() > 0 by {
                assert(cs[k] == found@[k]);
                self.lemma_candidate_covers_some_group(cs, k);
                let g = choose|g: int| 0 <= g < self.n_groups() && #[trigger] self.covers_group(g, cs[k]);
                assert(lists(result@[k].covered_items@, g));
            }
        }
        result
    }

    /// Group `x` comes before group `y`: it is smaller, or as large and earlier.
    pub open spec fn size_before(self, x: int, y: int) -> bool {
        self.table@[x]@.len() < self.table@[y]@.len() || (self.table@[x]@.len()
            == self.table@[y]@.len() && x < y)
    }

    /// `perm` lists every group once, ordered by size, ties by index (the
    /// order of a stable sort by size).
    pub open spec fn is_size_order(self, perm: Seq<usize>) -> bool {
        &&& perm.len() == self.n_groups()
        &&& forall|k: int| 0 <= k < perm.len() ==> (#[trigger] perm[k]) < self.n_groups()
        &&& forall|g: int| 0 <= g < self.n_groups() ==> #[trigger] lists(perm, g)
        &&& forall|a: int, b: int|
            0 <= a < b < perm.len() ==> self.size_before(#[trigger] perm[a] as int, #[trigger] perm[b] as int)
    }

    proof fn lemma_size_order_prefix(self, p1: Seq<usize>, p2: Seq<usize>, k: int)
        requires
            self.is_size_order(p1),
            self.is_size_order(p2),
            -1 <= k < p1.len(),
        ensures
            forall|i: int| 0 <= i <= k ==> p1[i] == p2[i],
        decreases k + 1,
    {
        if k >= 0 {
            self.lemma_size_order_prefix(p1, p2, k - 1);
            let x = p1[k];
            let y = p2[k];
            assert(lists(p2, x as int));
            let q = choose|q: int| 0 <= q < p2.len() && p2[q] as int == x as int;
            assert(lists(p1, y as int));
            let q1 = choose|q1: int| 0 <= q1 < p1.len() && p1[q1] as int == y as int;
            if q < k {
                assert(p1[q] == p2[q]);
                assert(self.size_before(p1[q] as int, p1[k] as int));
            }
            if q1 < k {
                assert(p1[q1] == p2[q1]);
                assert(self.size_before(p2[q1] as int, p2[k] as int));
            }
            if x != y {
                assert(self.size_before(p2[k] as int, p2[q] as int));
                assert(self.size_before(p1[k] as int, p1[q1] as int));
            }
        }
    }

    /// There is only one size order of the groups.
    pub proof fn lemma_size_order_unique(self, p1: Seq<usize>, p2: Seq<usize>)
        requires
            self.is_size_order(p1),
            self.is_size_order(p2),
        ensures
            p1 == p2,
    {
        self.lemma_size_order_prefix(p1, p2, p1.len() - 1);
        assert(p1 =~= p2);
    }

    /// `ch` picks one bitstring from each of the groups `order[d..]`.
    pub open spec fn is_tail_choice(self, order: Seq<usize>, d: int, ch: Seq<int>) -> bool {
        &&& ch.len() == order.len() - d
        &&& forall|k: int|
            0 <= k < ch.len() ==> 0 <= #[trigger] ch[k] < self.table@[order[d + k] as int]@.len()
    }

    /// The bitstrings that `ch` picks from the groups `order[d..]`.
    pub open spec fn tail_picks(self, order: Seq<usize>, d: int, ch: Seq<int>) -> Seq<u64> {
        Seq::new(ch.len(), |k: int| self.entry(order[d + k] as int, ch[k]))
    }

    /// The picks `ch` from all groups (in the order `perm`) have a common
    /// clause with a non-empty mask at every merge step.
    pub open spec fn pick_ok(self, perm: Seq<usize>, ch: Seq<int>) -> bool {
        let bs = self.tail_picks(perm, 0, ch);
        chain_ok(self.full_mask(), row_clause(self.full_mask(), bs[0]), bs.drop_first())
    }

    /// The clause that the picks `ch` (in the order `perm`) have in common.
    pub open spec fn pick_clause(self, perm: Seq<usize>, ch: Seq<int>) -> Clause {
        let bs = self.tail_picks(perm, 0, ch);
        chain_end(self.full_mask(), row_clause(self.full_mask(), bs[0]), bs.drop_first())
    }

    /// Indices of the groups, stably sorted by group size.
    fn size_order(&self) -> (perm: Vec<usize>)
        ensures
            self.is_size_order(perm@),
    {
        let mut perm: Vec<usize> = Vec::new();
        let mut i: usize = 0;
        while i < self.table.len()
            invariant
                i <= self.table@.len(),
                perm@.len() == i,
                forall|k: int| 0 <= k < perm@.len() ==> (#[trigger] perm@[k]) < i,
                forall|g: int| 0 <= g < i ==> #[trigger] lists(perm@, g),
                forall|a: int, b: int|
                    0 <= a < b < perm@.len() ==> self.size_before(
                        #[trigger] perm@[a] as int,
                        #[trigger] perm@[b] as int,
                    ),
            decreases self.table@.len() - i,
        {
            let len_i = self.table[i].len();
            let mut p: usize = 0;
            while p < perm.len() && self.table[perm[p]].len() <= len_i
                invariant
                    i < self.table@.len(),
                    len_i == self.table@[i as int]@.len(),
                    p <= perm@.len(),
                    forall|k: int| 0 <= k < perm@.len() ==> (#[trigger] perm@[k]) < i,
                    forall|q: int| 0 <= q < p ==> self.size_before(#[trigger] perm@[q] as int, i as int),
                decreases perm@.len() - p,
            {
                p = p + 1;
            }
            let ghost old_perm = perm@;
            proof {
                assert forall|q: int| p <= q < old_perm.len() implies self.size_before(
                    i as int,
                    #[trigger] old_perm[q] as int,
                ) by {
                    if q > p {
                        assert(self.size_before(old_perm[p as int] as int, old_perm[q] as int));
                    }
                }
            }
            perm.insert(p, i);
            proof {
                assert(perm@ == old_perm.insert(p as int, i));
                assert forall|g: int| 0 <= g < i + 1 implies #[trigger] lists(perm@, g) by {
                    if g < i {
                        assert(lists(old_perm, g));
                        let k = choose|k: int| 0 <= k < old_perm.len() && old_perm[k] as int == g;
                        if k < p {
                            assert(perm@[k] as int == g);
                        } else {
                            assert(perm@[k + 1] as int == g);
                        }
                    } else {
                        assert(perm@[p as int] == i);
                    }
                }
                assert forall|a: int, b: int| 0 <= a < b < perm@.len() implies self.size_before(
                    #[trigger] perm@[a] as int,
                    #[trigger] perm@[b] as int,
                ) by {
                    if b < p {
                        assert(perm@[a] == old_perm[a] && perm@[b] == old_perm[b]);
                    } else if b == p {
                        assert(perm@[a] == old_perm[a]);
                    } else if a < p {
                        assert(perm@[a] == old_perm[a] && perm@[b] == old_perm[b - 1]);
                    } else if a == p {
                        assert(perm@[b] == old_perm[b - 1]);
                    } else {
                        assert(perm@[a] == old_perm[a - 1] && perm@[b] == old_perm[b - 1]);
                    }
                }
            }
            i = i + 1;
        }
        perm
    }

    /// `ch` is the first (in lexicographic order) pick from the groups
    /// `order[d..]` whose merges with `c0` all keep a non-empty mask.
    pub open spec fn first_ok_tail(self, order: Seq<usize>, d: int, c0: Clause, ch: Seq<int>) -> bool {
        &&& chain_ok(self.full_mask(), c0, self.tail_picks(order, d, ch))
        &&& forall|ch2: Seq<int>|
            #[trigger] self.is_tail_choice(order, d, ch2) && lex_before(ch2, ch) ==> !chain_ok(
                self.full_mask(),
                c0,
                self.tail_picks(order, d, ch2),
            )
    }

    /// The outcome `r` of the search over the groups in the order `perm`:
    /// `None` when no pick works, else the clause of the first pick that does.
    pub open spec fn intersection_result(self, perm: Seq<usize>, r: Option<Clause>) -> bool {
        match r {
            None => forall|ch: Seq<int>| #[trigger] self.is_tail_choice(perm, 0, ch) ==> !self.pick_ok(perm, ch),
            Some(c) => exists|ch: Seq<int>|
                {
                    &&& #[trigger] self.is_tail_choice(perm, 0, ch)
                    &&& self.pick_ok(perm, ch)
                    &&& c == self.pick_clause(perm, ch)
                    &&& forall|ch2: Seq<int>|
                        #[trigger] self.is_tail_choice(perm, 0, ch2) && lex_before(ch2, ch)
                            ==> !self.pick_ok(perm, ch2)
                },
        }
    }

    proof fn lemma_tail_step(self, order: Seq<usize>, d: int, ch: Seq<int>)
        requires
            0 <= d < order.len(),
            self.is_tail_choice(order, d, ch),
        ensures
            self.is_tail_choice(order, d + 1, ch.drop_first()),
            self.tail_picks(order, d, ch)[0] == self.entry(order[d] as int, ch[0]),
            self.tail_picks(order, d, ch).drop_first() == self.tail_picks(order, d + 1, ch.drop_first()),
            0 <= ch[0] < self.table@[order[d] as int]@.len(),
    {
        assert(ch[0] == ch[0int + 0int]);
        assert forall|k: int| 0 <= k < ch.drop_first().len() implies 0 <= #[trigger] ch.drop_first()[k]
            < self.table@[order[d + 1 + k] as int]@.len() by {
            assert(ch.drop_first()[k] == ch[k + 1]);
        }
        assert(self.tail_picks(order, d, ch).drop_first() =~= self.tail_picks(order, d + 1, ch.drop_first()));
    }

    proof fn lemma_cons_choice(self, order: Seq<usize>, d: int, j: int, ch: Seq<int>)
        requires
            0 <= d < order.len(),
            0 <= j < self.table@[order[d] as int]@.len(),
            self.is_tail_choice(order, d + 1, ch),
        ensures
            self.is_tail_choice(order, d, seq![j] + ch),
            (seq![j] + ch)[0] == j,
            (seq![j] + ch).drop_first() == ch,
    {
        let ch2 = seq![j] + ch;
        assert forall|k: int| 0 <= k < ch2.len() implies 0 <= #[trigger] ch2[k]
            < self.table@[order[d + k] as int]@.len() by {
            if k > 0 {
                assert(ch2[k] == ch[k - 1]);
                assert(d + k == d + 1 + (k - 1));
            }
        }
        assert(ch2.drop_first() =~= ch);
    }

    /// Depth-first search for the first picks from the groups `order[d..]`
    /// whose merges with `c0` all keep a non-empty mask.
    fn intersect_dfs(&self, order: &Vec<usize>, d: usize, c0: Clause) -> (r: Option<Clause>)
        requires
            self.bit_length <= 64,
            d < order@.len(),
            forall|k: int| 0 <= k < order@.len() ==> (#[trigger] order@[k]) < self.n_groups(),
        ensures
            r is None <==> forall|ch: Seq<int>|
                #[trigger] self.is_tail_choice(order@, d as int, ch) ==> !chain_ok(
                    self.full_mask(),
                    c0,
                    self.tail_picks(order@, d as int, ch),
                ),
            r matches Some(c) ==> exists|ch: Seq<int>|
                #[trigger] self.is_tail_choice(order@, d as int, ch) && self.first_ok_tail(
                    order@,
                    d as int,
                    c0,
                    ch,
                ) && c == chain_end(self.full_mask(), c0, self.tail_picks(order@, d as int, ch)),
        decreases order@.len() - d,
    {
        let full = bit_mask(self.bit_length);
        let g = order[d];
        let row = &self.table[g];
        let n_order = order.len();
        let is_last = d == n_order - 1;
        let mut j: usize = 0;
        while j < row.len()
            invariant
                n_order == order@.len(),
                self.bit_length <= 64,
                full == self.full_mask(),
                d < order@.len(),
                forall|k: int| 0 <= k < order@.len() ==> (#[trigger] order@[k]) < self.n_groups(),
                g == order@[d as int],
                row@ == self.table@[g as int]@,
                is_last == (d + 1 == order@.len()),
                j <= row@.len(),
                forall|ch: Seq<int>|
                    #[trigger] self.is_tail_choice(order@, d as int, ch) && ch[0] < j ==> !chain_ok(
                        full,
                        c0,
                        self.tail_picks(order@, d as int, ch),
                    ),
            decreases row@.len() - j,
        {
            let rc = Clause::new(full, row[j]);
            let c_new = gather2(self.bit_length, &c0, &rc);
            assert(c_new == merged(full, c0, row_clause(full, self.entry(g as int, j as int))));
            if c_new.mask != 0 {
                if is_last {
                    proof {
                        let ch = seq![j as int];
                        self.lemma_cons_choice(order@, d as int, j as int, Seq::empty());
                        assert(seq![j as int] + Seq::<int>::empty() =~= ch);
                        self.lemma_tail_step(order@, d as int, ch);
                        assert(self.tail_picks(order@, d as int + 1, ch.drop_first()) =~= Seq::<u64>::empty());
                        assert(chain_ok(full, c_new, Seq::<u64>::empty()));
                        assert(chain_ok(full, c0, self.tail_picks(order@, d as int, ch)));
                        assert forall|ch2: Seq<int>|
                            #[trigger] self.is_tail_choice(order@, d as int, ch2) && lex_before(ch2, ch)
                                implies !chain_ok(full, c0, self.tail_picks(order@, d as int, ch2)) by {
                            lemma_lex_split(ch2, ch);
                        }
                        assert(self.first_ok_tail(order@, d as int, c0, ch));
                    }
                    return Some(c_new);
                }
                match self.intersect_dfs(order, d + 1, c_new) {
                    Some(res) => {
                        proof {
                            let ch1 = choose|ch1: Seq<int>|
                                #[trigger] self.is_tail_choice(order@, d + 1, ch1) && self.first_ok_tail(
                                    order@,
                                    d + 1,
                                    c_new,
                                    ch1,
                                ) && res == chain_end(full, c_new, self.tail_picks(order@, d + 1, ch1));
                            self.lemma_cons_choice(order@, d as int, j as int, ch1);
                            let ch = seq![j as int] + ch1;
                            self.lemma_tail_step(order@, d as int, ch);
                            assert forall|ch2: Seq<int>|
                                #[trigger] self.is_tail_choice(order@, d as int, ch2) && lex_before(ch2, ch)
                                    implies !chain_ok(full, c0, self.tail_picks(order@, d as int, ch2)) by {
                                lemma_lex_split(ch2, ch);
                                self.lemma_tail_step(order@, d as int, ch2);
                                if ch2[0] == j {
                                    assert(self.is_tail_choice(order@, d + 1, ch2.drop_first()));
                                }
                            }
                            assert(self.first_ok_tail(order@, d as int, c0, ch));
                        }
                        return Some(res);
                    },
                    None => {},
                }
            }
            proof {
                assert forall|ch: Seq<int>|
                    #[trigger] self.is_tail_choice(order@, d as int, ch) && ch[0] < j + 1 implies !chain_ok(
                    full,
                    c0,
                    self.tail_picks(order@, d as int, ch),
                ) by {
                    self.lemma_tail_step(order@, d as int, ch);
                    if ch[0] == j && !is_last {
                        assert(self.is_tail_choice(order@, d + 1, ch.drop_first()));
                    }
                    if ch[0] == j && is_last {
                        assert(ch.drop_first().len() == 0);
                    }
                }
            }
            j = j + 1;
        }
        proof {
            assert forall|ch: Seq<int>| #[trigger] self.is_tail_choice(order@, d as int, ch) implies !chain_ok(
                full,
                c0,
                self.tail_picks(order@, d as int, ch),
            ) by {
                self.lemma_tail_step(order@, d as int, ch);
            }
        }
        None
    }

    proof fn lemma_pick_step(self, perm: Seq<usize>, ch: Seq<int>)
        requires
            perm.len() >= 1,
            self.is_tail_choice(perm, 0, ch),
        ensures
            self.is_tail_choice(perm, 1, ch.drop_first()),
            0 <= ch[0] < self.table@[perm[0] as int]@.len(),
            self.pick_ok(perm, ch) == chain_ok(
                self.full_mask(),
                row_clause(self.full_mask(), self.entry(perm[0] as int, ch[0])),
                self.tail_picks(perm, 1, ch.drop_first()),
            ),
            self.pick_clause(perm, ch) == chain_end(
                self.full_mask(),
                row_clause(self.full_mask(), self.entry(perm[0] as int, ch[0])),
                self.tail_picks(perm, 1, ch.drop_first()),
            ),
    {
        self.lemma_tail_step(perm, 0, ch);
    }

    /// The clause common to a pick of one bitstring from every group covers
    /// the whole table.
    pub proof fn lemma_pick_clause_covers_table(self, perm: Seq<usize>, ch: Seq<int>)
        requires
            self.n_groups() > 0,
            self.is_size_order(perm),
            self.is_tail_choice(perm, 0, ch),
        ensures
            self.covered_by_clauses(seq![self.pick_clause(perm, ch)]),
    {
        let full = self.full_mask();
        let bs = self.tail_picks(perm, 0, ch);
        let c = self.pick_clause(perm, ch);
        lemma_chain_covers(full, row_clause(full, bs[0]), bs.drop_first());
        lemma_row_clause_covers(full, bs[0]);
        assert forall|g: int| 0 <= g < self.n_groups() implies #[trigger] self.group_hit(g, seq![c]) by {
            assert(lists(perm, g));
            let k = choose|k: int| 0 <= k < perm.len() && perm[k] as int == g;
            assert(c.covers(bs[k])) by {
                if k > 0 {
                    assert(bs.drop_first()[k - 1] == bs[k]);
                }
            }
            assert(ch.len() == perm.len());
            assert(bs.len() == ch.len());
            assert(bs[k] == self.entry(perm[0 + k] as int, ch[k]));
            assert(perm[0 + k] as int == g);
            assert(bs[k] == self.entry(g, ch[k]));
            assert(seq![c][0] == c);
            assert(seq![c][0].covers(self.entry(g, ch[k])));
            assert(any_covers(seq![c], self.entry(g, ch[k])));
            assert(0 <= ch[k] < self.table@[perm[0 + k] as int]@.len());
        }
    }

    /// A clause that constrains some branching variable and covers the whole
    /// table yields a pick whose merges all keep a non-empty mask.
    proof fn lemma_covering_clause_gives_pick(self, perm: Seq<usize>, t: Clause)
        requires
            self.n_groups() > 0,
            self.is_size_order(perm),
            t.wf(),
            t.mask & self.full_mask() != 0,
            self.covered_by_clauses(seq![t]),
        ensures
            exists|ch: Seq<int>| #[trigger] self.is_tail_choice(perm, 0, ch) && self.pick_ok(perm, ch),
    {
        let full = self.full_mask();
        let n = perm.len();
        assert forall|k: int| #![trigger perm[k]] 0 <= k < n implies exists|j: int|
            0 <= j < self.table@[perm[k] as int]@.len() && t.covers(#[trigger] self.entry(perm[k] as int, j)) by {
            let g = perm[k] as int;
            assert(self.group_hit(g, seq![t]));
            let j = choose|j: int| 0 <= j < self.table@[g]@.len() && #[trigger] any_covers(seq![t], self.entry(g, j));
            let k2 = choose|k2: int| 0 <= k2 < 1 && #[trigger] seq![t][k2].covers(self.entry(g, j));
            assert(seq![t][k2] == t);
        }
        let ch = Seq::new(n, |k: int| choose|j: int|
            0 <= j < self.table@[perm[k] as int]@.len() && t.covers(#[trigger] self.entry(perm[k] as int, j)));
        assert forall|k: int| 0 <= k < ch.len() implies 0 <= #[trigger] ch[k] < self.table@[perm[0 + k] as int]@.len()
            && t.covers(self.entry(perm[k] as int, ch[k])) by {
            assert(perm[0 + k] == perm[k]);
        }
        assert(self.is_tail_choice(perm, 0, ch));
        let bs = self.tail_picks(perm, 0, ch);
        assert forall|k: int| 0 <= k < bs.len() implies t.covers(#[trigger] bs[k]) by {
            assert(bs[k] == self.entry(perm[0 + k] as int, ch[k]));
        }
        let c0 = row_clause(full, bs[0]);
        let (tm, tv, b0) = (t.mask, t.val, bs[0]);
        assert(t.covers(bs[0]));
        assert(tv & tm == tv && (b0 & tm) == tv ==> (tm & full) & full == tm & full && (b0 & full) & (tm
            & full) == tv & full) by (bit_vector);
        assert forall|k: int| 0 <= k < bs.drop_first().len() implies t.covers(#[trigger] bs.drop_first()[k]) by {
            assert(bs.drop_first()[k] == bs[k + 1]);
        }
        lemma_chain_keeps(full, c0, bs.drop_first(), t);
        assert(self.pick_ok(perm, ch));
    }

    /// What the outcome of the search over the groups in a size order says of
    /// the table.
    proof fn lemma_intersection_laws(self, perm: Seq<usize>, r: Option<Clause>)
        requires
            self.n_groups() > 0,
            self.is_size_order(perm),
            self.intersection_result(perm, r),
        ensures
            r matches Some(c) ==> self.covered_by_clauses(seq![c]),
            r matches Some(c) ==> (self.n_groups() >= 2 ==> c.mask != 0),
            r is None ==> forall|t: Clause|
                t.wf() && t.mask & self.full_mask() != 0 ==> !#[trigger] self.covered_by_clauses(seq![t]),
    {
        match r {
            Some(c) => {
                let ch = choose|ch: Seq<int>|
                    {
                        &&& #[trigger] self.is_tail_choice(perm, 0, ch)
                        &&& self.pick_ok(perm, ch)
                        &&& c == self.pick_clause(perm, ch)
                        &&& forall|ch2: Seq<int>|
                            #[trigger] self.is_tail_choice(perm, 0, ch2) && lex_before(ch2, ch)
                                ==> !self.pick_ok(perm, ch2)
                    };
                self.lemma_pick_clause_covers_table(perm, ch);
                if self.n_groups() >= 2 {
                    self.lemma_pick_step(perm, ch);
                    lemma_chain_end_nonempty(
                        self.full_mask(),
                        row_clause(self.full_mask(), self.entry(perm[0] as int, ch[0])),
                        self.tail_picks(perm, 1, ch.drop_first()),
                    );
                }
            },
            None => {
                assert forall|t: Clause|
                    t.wf() && t.mask & self.full_mask() != 0 implies !#[trigger] self.covered_by_clauses(seq![t]) by {
                    if self.covered_by_clauses(seq![t]) {
                        self.lemma_covering_clause_gives_pick(perm, t);
                    }
                }
            },
        }
    }

    /// A one-clause rule covers group `g` exactly when the clause does.
    proof fn lemma_group_hit_single(self, g: int, c: Clause)
        requires
            0 <= g < self.n_groups(),
        ensures
            self.group_hit(g, seq![c]) == self.covers_group(g, c),
    {
        if self.group_hit(g, seq![c]) {
            let j = choose|j: int| 0 <= j < self.table@[g]@.len() && #[trigger] any_covers(seq![c], self.entry(g, j));
            let k = choose|k: int| 0 <= k < 1 && #[trigger] seq![c][k].covers(self.entry(g, j));
            assert(seq![c][k] == c);
            assert(c.covers(self.table@[g]@[j]));
        }
        if self.covers_group(g, c) {
            let j = choose|j: int| 0 <= j < self.table@[g]@.len() && c.covers(#[trigger] self.table@[g]@[j]);
            assert(seq![c][0] == c);
            assert(seq![c][0].covers(self.entry(g, j)));
            assert(any_covers(seq![c], self.entry(g, j)));
        }
    }

    /// A single clause covers the whole table exactly when it covers every
    /// group, that is, when its covered items are all the groups.
    pub proof fn lemma_full_items_iff_cover(self, c: Clause, items: Seq<usize>)
        requires
            self.covered_items_are(c, items),
        ensures
            (items.len() == self.n_groups()) == self.covered_by_clauses(seq![c]),
    {
        let n = self.n_groups() as int;
        lemma_increasing_lower(items);
        assert forall|g: int| 0 <= g < n implies #[trigger] self.group_hit(g, seq![c]) == self.covers_group(g, c) by {
            self.lemma_group_hit_single(g, c);
        }
        if items.len() == n {
            lemma_increasing_upper(items, n);
            assert forall|g: int| 0 <= g < n implies #[trigger] self.group_hit(g, seq![c]) by {
                assert(items[g] as int == g);
            }
        }
        if self.covered_by_clauses(seq![c]) {
            assert forall|g: int| 0 <= g < n implies lists(items, g) by {
                assert(self.group_hit(g, seq![c]));
            }
            if items.len() > 0 {
                assert(items[items.len() - 1] < n);
            }
            if items.len() < n {
                lemma_listed_identity(items, n, items.len() - 1);
                assert(lists(items, items.len() as int));
                let p = choose|p: int| 0 <= p < items.len() && items[p] as int == items.len() as int;
                assert(items[p] as int == p);
            }
        }
    }

    proof fn lemma_candidates_within(self, cs1: Seq<Clause>, cs2: Seq<Clause>, k: int)
        requires
            self.is_candidate_set(cs1),
            self.is_candidate_set(cs2),
            -1 <= k < cs1.len(),
        ensures
            forall|i: int| 0 <= i <= k ==> cs2.contains(#[trigger] cs1[i]),
        decreases k + 1,
    {
        if k >= 0 {
            self.lemma_candidates_within(cs1, cs2, k - 1);
            let c = cs1[k];
            if self.is_row_clause(c) {
                let (g, j) = choose|g: int, j: int|
                    0 <= g < self.n_groups() && 0 <= j < self.table@[g]@.len() && c == #[trigger] self.row_clause_at(g, j);
                assert(cs2.contains(self.row_clause_at(g, j)));
            } else {
                let k2 = choose|k2: int| 0 <= k2 < k && self.derives(cs1[k2], #[trigger] cs1[k]);
                let (g, j) = choose|g: int, j: int|
                    0 <= g < self.n_groups() && 0 <= j < self.table@[g]@.len() && !self.covers_group(g, cs1[k2])
                        && c == #[trigger] self.merge_step(cs1[k2], g, j);
                assert(cs2.contains(cs1[k2]));
                let i2 = choose|i2: int| 0 <= i2 < cs2.len() && cs2[i2] == cs1[k2];
                assert(self.closed_at(cs2, cs2[i2]));
                assert(c != cs1[k2]);
            }
        }
    }

    /// The candidate set is determined: two sequences that both are candidate
    /// sets hold the same clauses.
    pub proof fn lemma_candidate_sets_agree(self, cs1: Seq<Clause>, cs2: Seq<Clause>)
        requires
            self.is_candidate_set(cs1),
            self.is_candidate_set(cs2),
        ensures
            forall|x: Clause| cs1.contains(x) <==> cs2.contains(x),
    {
        self.lemma_candidates_within(cs1, cs2, cs1.len() - 1);
        self.lemma_candidates_within(cs2, cs1, cs2.len() - 1);
        assert forall|x: Clause| cs1.contains(x) implies cs2.contains(x) by {
            let i = choose|i: int| 0 <= i < cs1.len() && cs1[i] == x;
        }
        assert forall|x: Clause| cs2.contains(x) implies cs1.contains(x) by {
            let i = choose|i: int| 0 <= i < cs2.len() && cs2[i] == x;
        }
    }

    /// Every candidate clause covers at least one group.
    pub proof fn lemma_candidate_covers_some_group(self, cs: Seq<Clause>, k: int)
        requires
            self.is_candidate_set(cs),
            0 <= k < cs.len(),
        ensures
            exists|g: int| 0 <= g < self.n_groups() && #[trigger] self.covers_group(g, cs[k]),
    {
        let full = self.full_mask();
        if self.is_row_clause(cs[k]) {
            let (g, j) = choose|g: int, j: int|
                0 <= g < self.n_groups() && 0 <= j < self.table@[g]@.len() && cs[k] == #[trigger] self.row_clause_at(g, j);
            lemma_row_clause_covers(full, self.entry(g, j));
            assert(cs[k].covers(self.table@[g]@[j]));
            assert(self.covers_group(g, cs[k]));
        } else {
            let k2 = choose|k2: int| 0 <= k2 < k && self.derives(cs[k2], #[trigger] cs[k]);
            let (g, j) = choose|g: int, j: int|
                0 <= g < self.n_groups() && 0 <= j < self.table@[g]@.len() && !self.covers_group(g, cs[k2])
                    && cs[k] == #[trigger] self.merge_step(cs[k2], g, j);
            lemma_merge_covers(full, cs[k2], self.entry(g, j), self.entry(g, j));
            assert(cs[k].covers(self.table@[g]@[j]));
            assert(self.covers_group(g, cs[k]));
        }
    }

    /// Choosing candidates whose covered items together include every group
    /// gives a rule (the DNF of their clauses) that covers the table.
    pub proof fn lemma_cover_selection_is_rule(self, cands: Seq<CandidateClause>, picked: Seq<int>)
        requires
            forall|k: int| 0 <= k < cands.len() ==> self.covered_items_are((#[trigger] cands[k]).clause, cands[k].covered_items@),
            forall|t: int| 0 <= t < picked.len() ==> 0 <= #[trigger] picked[t] < cands.len(),
            forall|g: int| 0 <= g < self.n_groups() ==> #[trigger] selection_lists(cands, picked, g),
        ensures
            self.covered_by_clauses(picked.map_values(|k: int| cands[k].clause)),
    {
        let rule = picked.map_values(|k: int| cands[k].clause);
        assert forall|g: int| 0 <= g < self.n_groups() implies #[trigger] self.group_hit(g, rule) by {
            assert(selection_lists(cands, picked, g));
            let t = choose|t: int| 0 <= t < picked.len() && #[trigger] lists(cands[picked[t]].covered_items@, g);
            let cc = cands[picked[t]];
            let items = cc.covered_items@;
            let k = choose|k: int| 0 <= k < items.len() && items[k] as int == g;
            assert(self.covered_items_are(cc.clause, items));
            assert(self.covers_group(items[k] as int, cc.clause));
            let j = choose|j: int| 0 <= j < self.table@[g]@.len() && cc.clause.covers(#[trigger] self.table@[g]@[j]);
            assert(rule[t] == cc.clause);
            assert(rule[t].covers(self.entry(g, j)));
            assert(any_covers(rule, self.entry(g, j)));
        }
    }

    /// One row clause per group (for its first bitstring) covers the table:
    /// the rule without any merging is valid.
    pub proof fn lemma_first_row_clauses_cover(self, clauses: Seq<Clause>)
        requires
            clauses.len() == self.n_groups(),
            forall|g: int| 0 <= g < self.n_groups() ==> self.table@[g]@.len() > 0,
            forall|g: int| 0 <= g < self.n_groups() ==> #[trigger] clauses[g] == self.row_clause_at(g, 0),
        ensures
            self.covered_by_clauses(clauses),
    {
        assert forall|g: int| 0 <= g < self.n_groups() implies #[trigger] self.group_hit(g, clauses) by {
            lemma_row_clause_covers(self.full_mask(), self.entry(g, 0));
            assert(clauses[g].covers(self.entry(g, 0)));
            assert(any_covers(clauses, self.entry(g, 0)));
        }
    }

    /// The outcome of the search over a given order of the groups is
    /// determined: two outcomes that both fit it are equal.
    pub proof fn lemma_intersection_result_unique(self, perm: Seq<usize>, r1: Option<Clause>, r2: Option<Clause>)
        requires
            self.intersection_result(perm, r1),
            self.intersection_result(perm, r2),
        ensures
            r1 == r2,
    {
        match (r1, r2) {
            (Some(c1), Some(c2)) => {
                let ch1 = choose|ch: Seq<int>|
                    {
                        &&& #[trigger] self.is_tail_choice(perm, 0, ch)
                        &&& self.pick_ok(perm, ch)
                        &&& c1 == self.pick_clause(perm, ch)
                        &&& forall|ch2: Seq<int>|
                            #[trigger] self.is_tail_choice(perm, 0, ch2) && lex_before(ch2, ch)
                                ==> !self.pick_ok(perm, ch2)
                    };
                let ch2 = choose|ch: Seq<int>|
                    {
                        &&& #[trigger] self.is_tail_choice(perm, 0, ch)
                        &&& self.pick_ok(perm, ch)
                        &&& c2 == self.pick_clause(perm, ch)
                        &&& forall|ch3: Seq<int>|
                            #[trigger] self.is_tail_choice(perm, 0, ch3) && lex_before(ch3, ch)
                                ==> !self.pick_ok(perm, ch3)
                    };
                if ch1 != ch2 {
                    lemma_lex_total(ch1, ch2);
                }
            },
            (Some(c1), None) => {
                let ch1 = choose|ch: Seq<int>|
                    {
                        &&& #[trigger] self.is_tail_choice(perm, 0, ch)
                        &&& self.pick_ok(perm, ch)
                        &&& c1 == self.pick_clause(perm, ch)
                        &&& forall|ch2: Seq<int>|
                            #[trigger] self.is_tail_choice(perm, 0, ch2) && lex_before(ch2, ch)
                                ==> !self.pick_ok(perm, ch2)
                    };
            },
            (None, Some(c2)) => {
                let ch2 = choose|ch: Seq<int>|
                    {
                        &&& #[trigger] self.is_tail_choice(perm, 0, ch)
                        &&& self.pick_ok(perm, ch)
                        &&& c2 == self.pick_clause(perm, ch)
                        &&& forall|ch3: Seq<int>|
                            #[trigger] self.is_tail_choice(perm, 0, ch3) && lex_before(ch3, ch)
                                ==> !self.pick_ok(perm, ch3)
                    };
            },
            (None, None) => {},
        }
    }

    /// Find a single clause consistent with all rows of the branching table.
    /// This is a "free" reduction that covers the whole table without branching.
    pub fn intersect_clauses_dfs(&self) -> (r: Option<Clause>)
        requires
            self.table@.len() == 0 || self.bit_length <= 64,
        ensures
            self.n_groups() == 0 ==> r is None,
            self.n_groups() > 0 ==> exists|perm: Seq<usize>|
                #[trigger] self.is_size_order(perm) && self.intersection_result(perm, r),
            r matches Some(c) ==> self.covered_by_clauses(seq![c]),
            r matches Some(c) ==> (self.n_groups() >= 2 ==> c.mask != 0),
            r is None && self.n_groups() > 0 ==> forall|t: Clause|
                t.wf() && t.mask & self.full_mask() != 0 ==> !#[trigger] self.covered_by_clauses(seq![t]),
    {
        if self.table.len() == 0 {
            return None;
        }
        let mask = bit_mask(self.bit_length);
        let order = self.size_order();
        let row = &self.table[order[0]];
        if order.len() == 1 {
            if row.len() == 0 {
                proof {
                    assert forall|ch: Seq<int>| #[trigger] self.is_tail_choice(order@, 0, ch) implies !self.pick_ok(
                        order@,
                        ch,
                    ) by {
                        self.lemma_pick_step(order@, ch);
                    }
                    assert(self.intersection_result(order@, None));
                    self.lemma_intersection_laws(order@, None);
                }
                return None;
            }
            let c = Clause::new(mask, row[0]);
            proof {
                let ch = seq![0int];
                assert(self.is_tail_choice(order@, 0, ch));
                self.lemma_pick_step(order@, ch);
                assert(self.tail_picks(order@, 1, ch.drop_first()) =~= Seq::<u64>::empty());
                assert(c == self.pick_clause(order@, ch));
                assert forall|ch2: Seq<int>|
                    #[trigger] self.is_tail_choice(order@, 0, ch2) && lex_before(ch2, ch) implies !self.pick_ok(
                    order@,
                    ch2,
                ) by {
                    lemma_lex_split(ch2, ch);
                }
                assert(self.intersection_result(order@, Some(c)));
                self.lemma_intersection_laws(order@, Some(c));
            }
            return Some(c);
        }
        let mut j: usize = 0;
        while j < row.len()
            invariant
                self.bit_length <= 64,
                mask == self.full_mask(),
                self.is_size_order(order@),
                order@.len() >= 2,
                row@ == self.table@[order@[0] as int]@,
                j <= row@.len(),
                forall|ch: Seq<int>|
                    #[trigger] self.is_tail_choice(order@, 0, ch) && ch[0] < j ==> !self.pick_ok(order@, ch),
            decreases row@.len() - j,
        {
            let c0 = Clause::new(mask, row[j]);
            assert(c0 == row_clause(mask, self.entry(order@[0] as int, j as int)));
            match self.intersect_dfs(&order, 1, c0) {
                Some(res) => {
                    proof {
                        let ch1 = choose|ch1: Seq<int>|
                            #[trigger] self.is_tail_choice(order@, 1, ch1) && self.first_ok_tail(
                                order@,
                                1,
                                c0,
                                ch1,
                            ) && res == chain_end(mask, c0, self.tail_picks(order@, 1, ch1));
                        self.lemma_cons_choice(order@, 0, j as int, ch1);
                        let ch = seq![j as int] + ch1;
                        self.lemma_pick_step(order@, ch);
                        assert forall|ch2: Seq<int>|
                            #[trigger] self.is_tail_choice(order@, 0, ch2) && lex_before(ch2, ch) implies !self.pick_ok(
                            order@,
                            ch2,
                        ) by {
                            lemma_lex_split(ch2, ch);
                            self.lemma_pick_step(order@, ch2);
                            if ch2[0] == j {
                                assert(self.is_tail_choice(order@, 1, ch2.drop_first()));
                            }
                        }
                        assert(self.intersection_result(order@, Some(res)));
                        self.lemma_intersection_laws(order@, Some(res));
                    }
                    return Some(res);
                },
                None => {},
            }
            proof {
                assert forall|ch: Seq<int>|
                    #[trigger] self.is_tail_choice(order@, 0, ch) && ch[0] < j + 1 implies !self.pick_ok(
                    order@,
                    ch,
                ) by {
                    self.lemma_pick_step(order@, ch);
                    if ch[0] == j {
                        assert(self.is_tail_choice(order@, 1, ch.drop_first()));
                    }
                }
            }
            j = j + 1;
        }
        proof {
            assert forall|ch: Seq<int>| #[trigger] self.is_tail_choice(order@, 0, ch) implies !self.pick_ok(
                order@,
                ch,
            ) by {
                self.lemma_pick_step(order@, ch);
            }
            assert(self.intersection_result(order@, None));
            self.lemma_intersection_laws(order@, None);
        }
        None
    }

    pub fn new(bit_length: usize, table: Vec<Vec<u64>>) -> (r: Self)
        ensures
            r.bit_length == bit_length,
            r.table == table,
    {
        Self { bit_length, table }
    }

    pub fn num_groups(&self) -> (r: usize)
        ensures
            r == self.n_groups(),
    {
        self.table.len()
    }

    /// Indices of the groups that `clause` covers, in increasing order.
    pub fn covered_items(&self, clause: &Clause) -> (r: Vec<usize>)
        ensures
            self.covered_items_are(*clause, r@),
    {
        let mut items: Vec<usize> = Vec::new();
        let mut g: usize = 0;
        while g < self.table.len()
            invariant
                g <= self.table@.len(),
                forall|a: int, b: int| 0 <= a < b < items@.len() ==> items@[a] < items@[b],
                forall|k: int|
                    0 <= k < items@.len() ==> (#[trigger] items@[k]) < g && self.covers_group(
                        items@[k] as int,
                        *clause,
                    ),
                forall|h: int| 0 <= h < g && #[trigger] self.covers_group(h, *clause) ==> lists(items@, h),
            decreases self.table@.len() - g,
        {
            let ghost old_items = items@;
            if group_is_covered(&self.table[g], clause) {
                items.push(g);
                assert(items@[items@.len() - 1] == g);
            }
            assert forall|h: int|
                0 <= h < g + 1 && #[trigger] self.covers_group(h, *clause) implies lists(items@, h) by {
                if h < g {
                    let k = choose|k: int| 0 <= k < old_items.len() && old_items[k] as int == h;
                    assert(items@[k] as int == h);
                } else {
                    assert(items@[items@.len() - 1] == g);
                }
            }
            g = g + 1;
        }
        items
    }

    /// Check whether every group of the table is covered by the DNF.
    /// Here `cover` means a more general constraint (has less 1s)
    pub fn covered_by(&self, dnf: &DNF) -> (r: bool)
        ensures
            r == self.covered_by_clauses(dnf.clauses@),
    {
        let mut g: usize = 0;
        while g < self.table.len()
            invariant
                g <= self.table@.len(),
                forall|h: int| 0 <= h < g ==> #[trigger] self.group_hit(h, dnf.clauses@),
            decreases self.table@.len() - g,
        {
            if !dnf_hits_group(&self.table[g], dnf) {
                assert(!self.group_hit(g as int, dnf.clauses@));
                return false;
            }
            proof {
                let gr = self.table@[g as int]@;
                let j = choose|j: int| 0 <= j < gr.len() && #[trigger] any_covers(dnf.clauses@, gr[j]);
                assert(any_covers(dnf.clauses@, self.entry(g as int, j)));
            }
            g = g + 1;
        }
        true
    }
}

/// Size of the space of clauses: one per pair of 64-bit mask and value.
pub open spec fn clause_space() -> int {
    0x1_0000_0000_0000_0000_0000_0000_0000_0000int
}

proof fn lemma_code_injective(m1: int, v1: int, m2: int, v2: int)
    requires
        0 <= m1 < 0x1_0000_0000_0000_0000int,
        0 <= v1 < 0x1_0000_0000_0000_0000int,
        0 <= m2 < 0x1_0000_0000_0000_0000int,
        0 <= v2 < 0x1_0000_0000_0000_0000int,
        m1 * 0x1_0000_0000_0000_0000int + v1 == m2 * 0x1_0000_0000_0000_0000int + v2,
    ensures
        m1 == m2,
        v1 == v2,
{
    assert(m1 == m2) by (nonlinear_arith)
        requires
            0 <= m1 < 0x1_0000_0000_0000_0000int,
            0 <= v1 < 0x1_0000_0000_0000_0000int,
            0 <= m2 < 0x1_0000_0000_0000_0000int,
            0 <= v2 < 0x1_0000_0000_0000_0000int,
            m1 * 0x1_0000_0000_0000_0000int + v1 == m2 * 0x1_0000_0000_0000_0000int + v2,
    ;
}

proof fn lemma_code_range(m: int, v: int)
    requires
        0 <= m < 0x1_0000_0000_0000_0000int,
        0 <= v < 0x1_0000_0000_0000_0000int,
    ensures
        0 <= m * 0x1_0000_0000_0000_0000int + v < clause_space(),
{
    assert(0 <= m * 0x1_0000_0000_0000_0000int + v < 0x1_0000_0000_0000_0000_0000_0000_0000_0000int)
        by (nonlinear_arith)
        requires
            0 <= m < 0x1_0000_0000_0000_0000int,
            0 <= v < 0x1_0000_0000_0000_0000int,
    ;
}

spec fn clause_code(c: Clause) -> int {
    c.mask as int * 0x1_0000_0000_0000_0000int + c.val as int
}

/// A sequence of distinct clauses is no longer than the space of clauses.
proof fn lemma_distinct_clauses_bounded(s: Seq<Clause>)
    requires
        s.no_duplicates(),
    ensures
        s.len() <= clause_space(),
{
    let codes = s.map_values(|c: Clause| clause_code(c));
    assert forall|i: int, j: int| 0 <= i < codes.len() && 0 <= j < codes.len() && i != j implies codes[i]
        != codes[j] by {
        if codes[i] == codes[j] {
            lemma_code_injective(s[i].mask as int, s[i].val as int, s[j].mask as int, s[j].val as int);
            assert(s[i] == s[j]);
        }
    }
    assert(codes.no_duplicates());
    codes.unique_seq_to_set();
    vstd::set_lib::lemma_int_range(0, clause_space());
    assert forall|x: int| codes.to_set().contains(x) implies vstd::set_lib::set_int_range(
        0,
        clause_space(),
    ).contains(x) by {
        let i = choose|i: int| 0 <= i < codes.len() && codes[i] == x;
        lemma_code_range(s[i].mask as int, s[i].val as int);
    }
    vstd::set_lib::lemma_len_subset(codes.to_set(), vstd::set_lib::set_int_range(0, clause_space()));
}

proof fn lemma_push_distinct(s: Seq<Clause>, x: Clause)
    requires
        s.no_duplicates(),
        !s.contains(x),
    ensures
        s.push(x).no_duplicates(),
{
    let s2 = s.push(x);
    assert forall|a: int, b: int| 0 <= a < s2.len() && 0 <= b < s2.len() && a != b implies s2[a]
        != s2[b] by {
        if a < s.len() && b < s.len() {
            assert(s2[a] == s[a] && s2[b] == s[b]);
        } else if a < s.len() {
            assert(s2[a] == s[a]);
        } else if b < s.len() {
            assert(s2[b] == s[b]);
        }
    }
}

proof fn lemma_push_contains(s: Seq<Clause>, x: Clause)
    ensures
        forall|y: Clause| s.contains(y) ==> s.push(x).contains(y),
        s.push(x).contains(x),
{
    assert forall|y: Clause| s.contains(y) implies s.push(x).contains(y) by {
        let k = choose|k: int| 0 <= k < s.len() && s[k] == y;
        assert(s.push(x)[k] == y);
    }
    assert(s.push(x)[s.len() as int] == x);
}

/// Merging with a row clause keeps what was covered and covers the new bitstring.
pub proof fn lemma_merge_covers(full: u64, c: Clause, b: u64, a: u64)
    ensures
        merged(full, c, row_clause(full, b)).covers(b),
        c.covers(a) ==> merged(full, c, row_clause(full, b)).covers(a),
{
    let cm = c.mask;
    let cv = c.val;
    let m = cm & full & !(cv ^ (b & full)) & full;
    assert(merged(full, c, row_clause(full, b)) == clause_of(m, cv & m));
    assert((b & m) == ((cv & m) & m)) by (bit_vector)
        requires
            m == cm & full & !(cv ^ (b & full)) & full,
    ;
    assert((a & cm) == cv ==> (a & m) == ((cv & m) & m)) by (bit_vector)
        requires
            m == cm & full & !(cv ^ (b & full)) & full,
    ;
}

/// A row clause covers its own bitstring.
pub proof fn lemma_row_clause_covers(full: u64, b: u64)
    ensures
        row_clause(full, b).covers(b),
{
    lemma_and_idempotent(b, full);
}

/// The end of a merge chain covers every bitstring merged in and everything
/// the starting clause covers.
pub proof fn lemma_chain_covers(full: u64, c: Clause, bs: Seq<u64>)
    ensures
        forall|k: int| 0 <= k < bs.len() ==> chain_end(full, c, bs).covers(#[trigger] bs[k]),
        forall|a: u64| c.covers(a) ==> chain_end(full, c, bs).covers(a),
    decreases bs.len(),
{
    if bs.len() > 0 {
        let c2 = merged(full, c, row_clause(full, bs[0]));
        lemma_chain_covers(full, c2, bs.drop_first());
        lemma_merge_covers(full, c, bs[0], bs[0]);
        assert forall|a: u64| c.covers(a) implies chain_end(full, c, bs).covers(a) by {
            lemma_merge_covers(full, c, bs[0], a);
        }
        assert forall|k: int| 0 <= k < bs.len() implies chain_end(full, c, bs).covers(#[trigger] bs[k]) by {
            if k > 0 {
                assert(bs.drop_first()[k - 1] == bs[k]);
            }
        }
    }
}

/// The merge of two clauses is satisfied by every assignment that satisfies
/// either of them.
pub proof fn lemma_merged_covers_both(len_mask: u64, c1: Clause, c2: Clause, a: u64)
    requires
        c1.wf(),
        c2.wf(),
        c1.covers(a) || c2.covers(a),
    ensures
        merged(len_mask, c1, c2).covers(a),
{
    let (m1, v1, m2, v2) = (c1.mask, c1.val, c2.mask, c2.val);
    let m = m1 & m2 & !(v1 ^ v2) & len_mask;
    assert(v1 & m1 == v1 && v2 & m2 == v2 && ((a & m1) == v1 || (a & m2) == v2) ==> (a & m) == ((
    v1 & m) & m)) by (bit_vector)
        requires
            m == m1 & m2 & !(v1 ^ v2) & len_mask,
    ;
}

/// A more general clause (constraining fewer variables, the same way) is
/// satisfied by every assignment that satisfies the more specific one.
pub proof fn lemma_general_clause_covers_more(general: Clause, specific: Clause, a: u64)
    requires
        general.wf(),
        specific.wf(),
        general.mask & specific.mask == general.mask,
        specific.val & general.mask == general.val,
        specific.covers(a),
    ensures
        general.covers(a),
{
    let (gm, gv, sm, sv) = (general.mask, general.val, specific.mask, specific.val);
    assert(gm & sm == gm && sv & gm == gv && (a & sm) == sv ==> (a & gm) == gv) by (bit_vector);
}

/// Merging keeps exactly the variables under `len_mask` that both clauses fix,
/// to the same value, and fixes each of them to that value: for every bit
/// position `i`, whatever the masks of the two clauses are.
pub proof fn lemma_merged_keeps_agreeing_variables(len_mask: u64, c1: Clause, c2: Clause, i: u64)
    requires
        i < 64,
    ensures
        (merged(len_mask, c1, c2).mask & (1u64 << i) != 0) == (c1.mask & (1u64 << i) != 0 && c2.mask & (
        1u64 << i) != 0 && len_mask & (1u64 << i) != 0 && c1.val & (1u64 << i) == c2.val & (1u64 << i)),
        merged(len_mask, c1, c2).val & (1u64 << i) == (if merged(len_mask, c1, c2).mask & (1u64 << i) != 0 {
            c1.val & (1u64 << i)
        } else {
            0
        }),
{
    let (m1, v1, m2, v2) = (c1.mask, c1.val, c2.mask, c2.val);
    let m = m1 & m2 & !(v1 ^ v2) & len_mask;
    let b = 1u64 << i;
    assert((m & b != 0) == (m1 & b != 0 && m2 & b != 0 && len_mask & b != 0 && v1 & b == v2 & b) && ((
    v1 & m) & m) & b == (if m & b != 0 {
        v1 & b
    } else {
        0
    })) by (bit_vector)
        requires
            i < 64,
            b == 1u64 << i,
            m == m1 & m2 & !(v1 ^ v2) & len_mask,
    ;
}

/// Merging does not depend on the order of the two clauses.
pub proof fn lemma_merged_commutative(len_mask: u64, c1: Clause, c2: Clause)
    requires
        c1.wf(),
        c2.wf(),
    ensures
        merged(len_mask, c1, c2) == merged(len_mask, c2, c1),
{
    let (m1, v1, m2, v2) = (c1.mask, c1.val, c2.mask, c2.val);
    let m = m1 & m2 & !(v1 ^ v2) & len_mask;
    let m_ = m2 & m1 & !(v2 ^ v1) & len_mask;
    assert(m == m_ && ((v1 & m) & m) == ((v2 & m_) & m_)) by (bit_vector)
        requires
            m == m1 & m2 & !(v1 ^ v2) & len_mask,
            m_ == m2 & m1 & !(v2 ^ v1) & len_mask,
    ;
}

/// The end of a merge chain whose every step kept a non-empty mask has a
/// non-empty mask itself, when at least one merge took place.
pub proof fn lemma_chain_end_nonempty(full: u64, c: Clause, bs: Seq<u64>)
    requires
        bs.len() > 0,
        chain_ok(full, c, bs),
    ensures
        chain_end(full, c, bs).mask != 0,
    decreases bs.len(),
{
    if bs.len() > 1 {
        lemma_chain_end_nonempty(full, merged(full, c, row_clause(full, bs[0])), bs.drop_first());
    } else {
        let c2 = merged(full, c, row_clause(full, bs[0]));
        assert(bs.drop_first().len() == 0);
        assert(chain_end(full, c2, bs.drop_first()) == c2);
    }
}

/// While the clause `t` covers every bitstring merged in, the chain keeps all
/// the variables of `t` inside `full` and agrees with `t` on them.
proof fn lemma_chain_keeps(full: u64, c: Clause, bs: Seq<u64>, t: Clause)
    requires
        t.wf(),
        t.mask & full != 0,
        (t.mask & full) & c.mask == t.mask & full,
        c.val & (t.mask & full) == t.val & full,
        forall|k: int| 0 <= k < bs.len() ==> t.covers(#[trigger] bs[k]),
    ensures
        chain_ok(full, c, bs),
        (t.mask & full) & chain_end(full, c, bs).mask == t.mask & full,
    decreases bs.len(),
{
    if bs.len() > 0 {
        let b = bs[0];
        let c2 = merged(full, c, row_clause(full, b));
        let (tm, tv, cm, cv) = (t.mask, t.val, c.mask, c.val);
        let m = cm & full & !(cv ^ (b & full)) & full;
        assert(c2 == clause_of(m, cv & m));
        assert(t.covers(bs[0]));
        assert(tv & tm == tv && (tm & full) & cm == tm & full && cv & (tm & full) == tv & full && (b
            & tm) == tv ==> (tm & full) & m == tm & full && ((cv & m) & m) & (tm & full) == tv & full)
            by (bit_vector)
            requires
                m == cm & full & !(cv ^ (b & full)) & full,
        ;
        assert((tm & full) & m == tm & full && (tm & full) != 0 ==> m != 0) by (bit_vector);
        assert forall|k: int| 0 <= k < bs.drop_first().len() implies t.covers(#[trigger] bs.drop_first()[k]) by {
            assert(bs.drop_first()[k] == bs[k + 1]);
        }
        lemma_chain_keeps(full, c2, bs.drop_first(), t);
    }
}

proof fn lemma_increasing_lower(items: Seq<usize>)
    requires
        forall|a: int, b: int| 0 <= a < b < items.len() ==> items[a] < items[b],
    ensures
        forall|k: int| 0 <= k < items.len() ==> items[k] >= k,
    decreases items.len(),
{
    if items.len() > 0 {
        let init = items.drop_last();
        lemma_increasing_lower(init);
        assert forall|k: int| 0 <= k < items.len() implies items[k] >= k by {
            if k < init.len() {
                assert(init[k] == items[k]);
            } else if k > 0 {
                assert(init[k - 1] == items[k - 1]);
            }
        }
    }
}

proof fn lemma_increasing_upper(items: Seq<usize>, n: int)
    requires
        forall|a: int, b: int| 0 <= a < b < items.len() ==> items[a] < items[b],
        forall|k: int| 0 <= k < items.len() ==> items[k] < n,
    ensures
        forall|k: int| 0 <= k < items.len() ==> items[k] <= n - items.len() + k,
    decreases items.len(),
{
    if items.len() > 0 {
        let tail = items.drop_first();
        lemma_increasing_upper(tail, n);
        assert forall|k: int| 0 <= k < items.len() implies items[k] <= n - items.len() + k by {
            if k > 0 {
                assert(tail[k - 1] == items[k]);
            } else if items.len() > 1 {
                assert(tail[0] == items[1]);
            }
        }
    }
}

proof fn lemma_listed_identity(items: Seq<usize>, n: int, k: int)
    requires
        forall|a: int, b: int| 0 <= a < b < items.len() ==> items[a] < items[b],
        forall|g: int| 0 <= g < n ==> lists(items, g),
        -1 <= k < items.len(),
        items.len() < n,
    ensures
        forall|i: int| 0 <= i <= k ==> items[i] as int == i,
    decreases k + 1,
{
    if k >= 0 {
        lemma_listed_identity(items, n, k - 1);
        lemma_increasing_lower(items);
        assert(lists(items, k));
        let p = choose|p: int| 0 <= p < items.len() && items[p] as int == k;
        if p < k {
            assert(items[p] as int == p);
        } else if p > k {
            assert(items[k] < items[p]);
        }
    }
}

/// Of two different sequences of the same length, one comes first.
proof fn lemma_lex_total(a: Seq<int>, b: Seq<int>)
    requires
        a.len() == b.len(),
        a != b,
    ensures
        lex_before(a, b) || lex_before(b, a),
    decreases a.len(),
{
    if a.len() == 0 {
        assert(a =~= b);
    } else if a[0] != b[0] {
        assert(a.take(0) =~= b.take(0));
        if a[0] < b[0] {
            assert(lex_before(a, b));
        } else {
            assert(lex_before(b, a));
        }
    } else {
        let (at, bt) = (a.drop_first(), b.drop_first());
        if at == bt {
            assert(a =~= b) by {
                assert forall|i: int| 0 <= i < a.len() implies a[i] == b[i] by {
                    if i > 0 {
                        assert(at[i - 1] == bt[i - 1]);
                    }
                }
            }
        }
        lemma_lex_total(at, bt);
        if lex_before(at, bt) {
            let k = choose|k: int| 0 <= k < at.len() && k < bt.len() && at.take(k) == bt.take(k) && #[trigger] at[k] < bt[k];
            assert(a.take(k + 1) =~= seq![a[0]] + at.take(k));
            assert(b.take(k + 1) =~= seq![b[0]] + bt.take(k));
            assert(a[k + 1] < b[k + 1]);
        } else {
            let k = choose|k: int| 0 <= k < bt.len() && k < at.len() && bt.take(k) == at.take(k) && #[trigger] bt[k] < at[k];
            assert(a.take(k + 1) =~= seq![a[0]] + at.take(k));
            assert(b.take(k + 1) =~= seq![b[0]] + bt.take(k));
            assert(b[k + 1] < a[k + 1]);
        }
    }
}

proof fn lemma_lex_split(a: Seq<int>, b: Seq<int>)
    requires
        a.len() == b.len(),
        a.len() >= 1,
        lex_before(a, b),
    ensures
        a[0] < b[0] || (a[0] == b[0] && lex_before(a.drop_first(), b.drop_first())),
{
    let k = choose|k: int| 0 <= k < a.len() && k < b.len() && a.take(k) == b.take(k) && #[trigger] a[k] < b[k];
    if k > 0 {
        assert(a.take(k)[0] == b.take(k)[0]);
        assert(a.drop_first().take(k - 1) =~= a.take(k).drop_first());
        assert(b.drop_first().take(k - 1) =~= b.take(k).drop_first());
        assert(a.drop_first()[k - 1] < b.drop_first()[k - 1]);
    }
}

/// `seen` holds the `(mask, val)` pair of exactly the clauses listed in `found`.
spec fn indexes(seen: Set<(u64, u64)>, found: Seq<Clause>) -> bool {
    forall|m: u64, v: u64| #[trigger] seen.contains((m, v)) == found.contains(Clause { mask: m, val: v })
}

/// Listing one more clause and recording its pair keeps the index exact.
proof fn lemma_index_push(seen: Set<(u64, u64)>, found: Seq<Clause>, c: Clause)
    requires
        indexes(seen, found),
    ensures
        indexes(seen.insert((c.mask, c.val)), found.push(c)),
{
    lemma_push_contains(found, c);
    assert forall|m: u64, v: u64| #[trigger] seen.insert((c.mask, c.val)).contains((m, v))
        == found.push(c).contains(Clause { mask: m, val: v }) by {
        let x = Clause { mask: m, val: v };
        if found.push(c).contains(x) && x != c {
            let k = choose|k: int| 0 <= k < found.push(c).len() && found.push(c)[k] == x;
            assert(found[k] == x);
        }
        assert(seen.contains((m, v)) == found.contains(x));
    }
}

/// Some bitstring of `group` satisfies some clause of `dnf`.
fn dnf_hits_group(group: &Vec<u64>, dnf: &DNF) -> (r: bool)
    ensures
        r == exists|j: int| 0 <= j < group@.len() && #[trigger] any_covers(dnf.clauses@, group@[j]),
{
    let mut j: usize = 0;
    while j < group.len()
        invariant
            j <= group@.len(),
            forall|i: int| 0 <= i < j ==> !any_covers(dnf.clauses@, #[trigger] group@[i]),
        decreases group@.len() - j,
    {
        if dnf.covered_by(group[j]) {
            return true;
        }
        j = j + 1;
    }
    false
}

/// Some bitstring of `group` satisfies `c`.
fn group_is_covered(group: &Vec<u64>, c: &Clause) -> (r: bool)
    ensures
        r == group_covered(group@, *c),
{
    let mut j: usize = 0;
    while j < group.len()
        invariant
            j <= group@.len(),
            forall|i: int| 0 <= i < j ==> !c.covers(#[trigger] group@[i]),
        decreases group@.len() - j,
    {
        if c.covered_by(group[j]) {
            return true;
        }
        j = j + 1;
    }
    false
}

/// Compute a bitmask with the lowest `n` bits set.
pub(crate) fn bit_mask(n: usize) -> (r: u64)
    requires
        n <= 64,
    ensures
        r == low_mask(n as nat),
{
    if n == 0 {
        assert(((1u64 << 0u64) - 1) as u64 == 0) by (bit_vector);
        0
    } else if n == 64 {
        u64::MAX
    } else {
        let s: u64 = n as u64;
        assert(s < 64 ==> (1u64 << s) >= 1) by (bit_vector);
        (1u64 << s) - 1
    }
}

/// Merge two clauses: keep bits where they agree, drop where they differ.
/// Restricts to bit_length bits to avoid stray high bits from NOT.
pub fn gather2(bit_length: usize, c1: &Clause, c2: &Clause) -> (r: Clause)
    requires
        bit_length <= 64,
    ensures
        r == merged(low_mask(bit_length as nat), *c1, *c2),
{
    gather2_with_mask(bit_mask(bit_length), c1, c2)
}

fn gather2_with_mask(len_mask: u64, c1: &Clause, c2: &Clause) -> (r: Clause)
    ensures
        r == merged(len_mask, *c1, *c2),
{
    let agree = !(c1.val ^ c2.val);
    let new_mask = c1.mask & c2.mask & agree & len_mask;
    Clause::new(new_mask, c1.val & new_mask)
}

} // verus!
