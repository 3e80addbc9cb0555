use optimal_branching::branching_table::gather2;
use optimal_branching::{bit_clauses, BranchingTable, Clause, DNF};
use std::collections::HashSet;

#[test]
fn test_branching_table_basic_operations() {
    let tbl = BranchingTable::new(5, vec![vec![4, 2], vec![9], vec![20]]);
    assert_eq!(tbl.bit_length, 5);
    assert_eq!(tbl.table, vec![vec![4, 2], vec![9], vec![20]]);
    assert_eq!(tbl.num_groups(), 3);
}

#[test]
fn test_covered_items_step_by_step() {
    let tbl = BranchingTable::new(5, vec![vec![4, 2], vec![9], vec![20]]);
    let c1 = Clause::new(0b00100, 0b00100);
    assert_eq!(tbl.covered_items(&c1), vec![0, 2]);
    let c2 = Clause::new(0b00010, 0b00010);
    assert_eq!(tbl.covered_items(&c2), vec![0]);
    let c3 = Clause::new(0b01001, 0b01001);
    assert_eq!(tbl.covered_items(&c3), vec![1]);
    let c4 = Clause::new(0b00000, 0b00000);
    assert_eq!(tbl.covered_items(&c4), vec![0, 1, 2]);
}

#[test]
fn test_branching_table_equality() {
    let tbl_1 = BranchingTable::new(5, vec![vec![4, 2], vec![9], vec![20]]);
    let tbl_2 = BranchingTable::new(5, vec![vec![2, 4], vec![9], vec![20]]);
    for (g1, g2) in tbl_1.table.iter().zip(tbl_2.table.iter()) {
        let s1: HashSet<_> = g1.iter().collect();
        let s2: HashSet<_> = g2.iter().collect();
        assert_eq!(s1, s2);
    }
}

/// Naive candidate clause generation for comparison.
fn all_clauses_naive(n: usize, bss: &[Vec<u64>]) -> Vec<Clause> {
    let mut all_clauses = Vec::new();
    let group_sizes: Vec<usize> = bss.iter().map(|g| g.len() + 1).collect();
    let mut indices = vec![0usize; bss.len()];
    loop {
        let cbs: Vec<u64> = bss
            .iter()
            .zip(indices.iter())
            .filter(|(_, &idx)| idx > 0)
            .map(|(group, &idx)| group[idx - 1])
            .collect();

        if !cbs.is_empty() {
            let ccbs = cover_clause(n, &cbs);
            if ccbs.mask != 0 && !all_clauses.contains(&ccbs) {
                all_clauses.push(ccbs);
            }
        }

        let mut carry = true;
        for i in 0..indices.len() {
            if carry {
                indices[i] += 1;
                if indices[i] >= group_sizes[i] {
                    indices[i] = 0;
                } else {
                    carry = false;
                }
            }
        }
        if carry {
            break;
        }
    }
    all_clauses
}

/// A clause covering all given bitstrings.
fn cover_clause(n: usize, bitstrings: &[u64]) -> Clause {
    let full_mask = (1u64 << n) - 1;
    let mut mask = full_mask;
    for i in 0..bitstrings.len() - 1 {
        mask &= bitstrings[i] ^ flip_all(n, bitstrings[i + 1]);
    }
    let val = bitstrings[0] & mask;
    Clause::new(mask, val)
}

fn flip_all(n: usize, b: u64) -> u64 {
    b ^ ((1u64 << n) - 1)
}

fn subcovers_naive(tbl: &BranchingTable) -> Vec<Vec<usize>> {
    let all_clauses = all_clauses_naive(tbl.bit_length, &tbl.table);
    all_clauses.iter().map(|c| tbl.covered_items(c)).collect()
}

#[test]
fn test_candidate_clauses_vs_naive() {
    let tbl = BranchingTable::new(5, vec![vec![4, 2], vec![9], vec![20]]);

    let rule = DNF {
        clauses: vec![Clause::new(2, 1)],
    };
    assert!(tbl.covered_by(&rule));
    assert_eq!(rule.clauses[0].len(), 1);

    let clauses = tbl.candidate_clauses();
    let subsets: Vec<Vec<usize>> = clauses
        .iter()
        .map(|c| tbl.covered_items(&c.clause))
        .collect();
    let subsets_naive = subcovers_naive(&tbl);

    assert_eq!(subsets.len(), subsets_naive.len());
    let subsets_set: HashSet<Vec<usize>> = subsets.into_iter().collect();
    for sc in &subsets_naive {
        assert!(subsets_set.contains(sc));
    }
}

#[test]
fn test_intersect_clauses_dfs_found() {
    let tbl = BranchingTable::new(3, vec![vec![0b101, 0b010], vec![0b101, 0b011]]);
    let result = tbl.intersect_clauses_dfs();
    assert!(result.is_some());
    assert!(result.unwrap().mask != 0);
}

#[test]
fn test_intersect_clauses_dfs_single_row() {
    let tbl = BranchingTable::new(2, vec![vec![0b01, 0b10]]);
    let result = tbl.intersect_clauses_dfs();
    assert!(result.is_some());
}

#[test]
fn test_intersect_clauses_dfs_not_found() {
    let tbl = BranchingTable::new(2, vec![vec![0b01], vec![0b10]]);
    let result = tbl.intersect_clauses_dfs();
    assert!(result.is_none());
}

#[test]
fn test_bit_clauses() {
    let tbl = BranchingTable::new(5, vec![vec![4, 2], vec![9], vec![20]]);
    let bc = bit_clauses(&tbl);
    assert_eq!(bc[0][0].mask, 31);
    assert_eq!(bc[0][0].val, 4);
    assert_eq!(bc.len(), 3);
    assert_eq!(bc[0].len(), 2);
}

#[test]
fn test_candidate_clauses_exact_set() {
    let tbl = BranchingTable::new(5, vec![vec![4, 2], vec![9], vec![20]]);
    let cands = tbl.candidate_clauses();
    let got: HashSet<(u64, u64)> = cands.iter().map(|c| (c.clause.mask, c.clause.val)).collect();
    assert_eq!(got.len(), cands.len());
    // Every row clause is a candidate.
    for &b in &[4u64, 2, 9, 20] {
        assert!(got.contains(&(31, b)));
    }
    for c in &cands {
        assert_eq!(c.covered_items, tbl.covered_items(&c.clause));
        assert!(!c.covered_items.is_empty());
    }
    // Merge of 4 (00100) and 20 (10100): agree on bits 0,1,2,3.
    assert!(got.contains(&(0b01111, 0b00100)));
    // Merge of 2 (00010) and 9 (01001): agree on bits 2 and 4.
    assert!(got.contains(&(0b10100, 0)));
}

#[test]
fn test_candidate_clauses_empty_table() {
    let tbl = BranchingTable::new(3, vec![]);
    assert!(tbl.candidate_clauses().is_empty());
    assert!(tbl.intersect_clauses_dfs().is_none());
    assert!(tbl.covered_by(&DNF { clauses: vec![] }));
}

#[test]
fn test_intersect_prefers_smallest_group_first() {
    // Groups sorted by size: group 1 (one entry) comes first.
    let tbl = BranchingTable::new(3, vec![vec![0b001, 0b110], vec![0b111]]);
    let c = tbl.intersect_clauses_dfs().unwrap();
    // Start from 0b111, merge with 0b001 first: agree on bit 0.
    assert_eq!(c, Clause::new(0b001, 0b001));
    assert!(tbl.covered_by(&DNF { clauses: vec![c] }));
}

#[test]
fn test_intersect_single_empty_row() {
    let tbl = BranchingTable::new(2, vec![vec![]]);
    assert!(tbl.intersect_clauses_dfs().is_none());
}

#[test]
fn test_gather2_full_width() {
    let c1 = Clause::new(u64::MAX, u64::MAX);
    let c2 = Clause::new(u64::MAX, u64::MAX ^ 1);
    assert_eq!(gather2(64, &c1, &c2), Clause::new(u64::MAX ^ 1, u64::MAX ^ 1));
    assert_eq!(gather2(0, &c1, &c2), Clause::new(0, 0));
}

#[test]
fn test_covered_by_dnf_table() {
    let tbl = BranchingTable::new(3, vec![vec![0b001, 0b010], vec![0b100]]);
    let dnf = DNF { clauses: vec![Clause::new(0b011, 0b010), Clause::new(0b100, 0b100)] };
    assert!(tbl.covered_by(&dnf));
    let dnf2 = DNF { clauses: vec![Clause::new(0b100, 0b100)] };
    assert!(!tbl.covered_by(&dnf2));
}

#[test]
fn test_gather2_covers_both_and_commutes() {
    let c1 = Clause::new(0b1111, 0b1010);
    let c2 = Clause::new(0b0111, 0b0011);
    let m = gather2(4, &c1, &c2);
    assert_eq!(m, gather2(4, &c2, &c1));
    assert_eq!(m, Clause::new(0b0110, 0b0010));
    assert!(m.covered_by(0b1010));
    assert!(m.covered_by(0b0011));
}

#[test]
fn test_full_covered_items_iff_single_clause_cover() {
    let tbl = BranchingTable::new(3, vec![vec![0b001, 0b110], vec![0b011], vec![0b101]]);
    let c = Clause::new(0b001, 0b001);
    assert_eq!(tbl.covered_items(&c).len(), tbl.num_groups());
    assert!(tbl.covered_by(&DNF { clauses: vec![c] }));
    let d = Clause::new(0b010, 0b010);
    assert!(tbl.covered_items(&d).len() < tbl.num_groups());
    assert!(!tbl.covered_by(&DNF { clauses: vec![d] }));
}

#[test]
fn test_intersect_none_means_no_covering_clause() {
    let tbl = BranchingTable::new(2, vec![vec![0b01], vec![0b10]]);
    assert!(tbl.intersect_clauses_dfs().is_none());
    for mask in 1u64..4 {
        for val in 0u64..4 {
            let c = Clause::new(mask, val);
            assert!(!tbl.covered_by(&DNF { clauses: vec![c] }));
        }
    }
}
