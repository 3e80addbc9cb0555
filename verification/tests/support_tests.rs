use optimal_branching::set_cover::{first_full_cover, rule_from_picks};
use optimal_branching::CandidateClause;
use optimal_branching::mock::{assemble_rows, bits_to_word, sorted_unique, MockProblem, RandomSelector};
use optimal_branching::solver::build_reverse_index;
use optimal_branching::{
    remove_dominated, Clause, IPSolver, LPSolver, NoReducer, PairQueue, ReductionResult,
};

#[test]
fn test_remove_dominated() {
    let subsets = vec![vec![0, 1], vec![0], vec![0, 1]];
    let delta_rho = vec![1u64, 2, 3];
    let kept = remove_dominated(&subsets, &delta_rho);
    assert!(kept.contains(&1));
    assert!(kept.contains(&2));
    assert!(!kept.contains(&0));
}

#[test]
fn test_remove_dominated_ties_keep_first() {
    let subsets = vec![vec![0], vec![1], vec![0], vec![0], vec![1]];
    let keys = vec![5u64, 1, 5, 4, 2];
    assert_eq!(remove_dominated(&subsets, &keys), vec![0, 4]);
    assert!(remove_dominated(&[], &[]).is_empty());
}

#[test]
fn test_build_reverse_index() {
    let subsets = vec![vec![0, 2], vec![1], vec![2, 5, 2]];
    let idx = build_reverse_index(&subsets, 3);
    assert_eq!(idx, vec![vec![0], vec![1], vec![0, 2, 2]]);
    assert!(build_reverse_index(&subsets, 0).is_empty());
}

#[test]
fn test_solver_defaults() {
    assert_eq!(IPSolver::default().max_itr, 20);
    let lp = LPSolver::default();
    assert_eq!(lp.max_itr, 20);
    assert_eq!(lp.seed, 42);
}

#[test]
fn test_mock_apply_branch() {
    let p = MockProblem {
        optimal: vec![true, false, true, false, true],
    };
    // Branch on variables 4, 1, 2 with bits 0 and 2 set: removes 4 and 2.
    let clause = Clause::new(0b101, 0b001);
    let (sub, count) = p.apply_branch(&clause, &[4, 1, 2]);
    assert_eq!(sub.optimal, vec![true, false, false]);
    // variable 4 set to true (optimal true): correct; variable 2 set to false (optimal true): wrong.
    assert_eq!(count, 1);

    let all = Clause::new(0b11111, 0b10101);
    let (empty, all_correct) = p.apply_branch(&all, &[0, 1, 2, 3, 4]);
    assert!(empty.optimal.is_empty());
    assert_eq!(all_correct, 5);

    // A variable whose bit the clause leaves unset is never looked up.
    let (kept, n) = p.apply_branch(&Clause::new(0b01, 0b01), &[0, 99]);
    assert_eq!(kept.optimal, vec![false, true, false, true]);
    assert_eq!(n, 1);
}

#[test]
fn test_random_selector_picks_sorted_distinct() {
    let p = MockProblem {
        optimal: vec![true; 30],
    };
    let sel = RandomSelector { n: 8, seed: 77 };
    let picked = sel.select(&p);
    assert_eq!(picked.len(), 8);
    for w in picked.windows(2) {
        assert!(w[0] < w[1]);
    }
    assert!(picked.iter().all(|&v| v < 30));
    assert_eq!(sel.select(&p), picked);
    assert_ne!(picked, (0..8).collect::<Vec<usize>>());

    let small = MockProblem {
        optimal: vec![false; 3],
    };
    assert_eq!(sel.select(&small), vec![0, 1, 2]);
}

#[test]
fn test_pair_queue_order_and_updates() {
    let mut q = PairQueue::new();
    assert!(q.is_empty());
    q.upsert((0, 1), 5);
    q.upsert((1, 2), 3);
    q.upsert((0, 2), 3);
    q.upsert((0, 1), 1);
    q.remove((7, 8));
    assert_eq!(q.pop_min(), Some((0, 1)));
    assert_eq!(q.pop_min(), Some((0, 2)));
    q.remove((1, 2));
    assert!(q.is_empty());
    assert_eq!(q.pop_min(), None);
}

#[test]
fn test_reduction_result_unchanged() {
    let r: ReductionResult<u8, u64> = ReductionResult::unchanged(7, 0);
    assert_eq!(r.problem, 7);
    assert_eq!(r.fixed_value, 0);
    assert!(r.vertex_map.is_empty() && r.fixed_set.is_empty() && r.fold_updates.is_empty());
    assert!(r.is_identity_map());
    let moved = ReductionResult {
        problem: 1u8,
        fixed_value: 0u64,
        vertex_map: vec![0, 2, 1],
        fixed_set: vec![],
        fold_updates: vec![],
    };
    assert!(!moved.is_identity_map());
    let _ = NoReducer;
}

#[test]
fn test_assemble_rows() {
    // Repeated draws keep their first occurrence; a new optimal word comes last.
    let rows = assemble_rows(&vec![5, 3, 5, 9, 3], 7);
    assert_eq!(rows, vec![vec![5], vec![3], vec![9], vec![7]]);
    // An optimal word that was drawn adds no row.
    let rows = assemble_rows(&vec![5, 3, 5], 3);
    assert_eq!(rows, vec![vec![5], vec![3]]);
    assert_eq!(assemble_rows(&vec![], 0), vec![vec![0]]);
}

#[test]
fn test_remove_dominated_keeps_a_cover_per_class() {
    let subsets = vec![vec![1], vec![0, 1], vec![1], vec![0, 1], vec![1]];
    let keys = vec![2u64, 9, 7, 3, 7];
    let kept = remove_dominated(&subsets, &keys);
    assert_eq!(kept, vec![1, 2]);
    for k in 0..subsets.len() {
        assert!(kept
            .iter()
            .any(|&j| subsets[j] == subsets[k] && keys[j] >= keys[k]));
    }
}

#[test]
fn test_first_full_cover_and_rule_from_picks() {
    let subsets = vec![vec![0], vec![0, 1], vec![1], vec![0, 1]];
    assert_eq!(first_full_cover(&subsets, &[0, 2, 3, 1], 2), Some(2));
    assert_eq!(first_full_cover(&subsets, &[0, 2], 2), None);

    let candidates: Vec<CandidateClause> = (0..4u64)
        .map(|i| CandidateClause {
            clause: Clause::new(1 << i, 1 << i),
            covered_items: subsets[i as usize].clone(),
        })
        .collect();
    let rule = rule_from_picks(&candidates, &[3, 0, 2], &[2, 0]);
    assert_eq!(rule.clauses, vec![Clause::new(4, 4), Clause::new(8, 8)]);
}

#[test]
fn test_bits_to_word_and_sorted_unique() {
    assert_eq!(bits_to_word(&[true, false, true, true]), 0b1101);
    assert_eq!(bits_to_word(&[]), 0);
    let mut all = vec![false; 64];
    all[63] = true;
    assert_eq!(bits_to_word(&all), 1u64 << 63);
    // Entries past bit 63 may stand in the slice as long as they are false.
    let mut long = vec![false; 70];
    long[1] = true;
    assert_eq!(bits_to_word(&long), 0b10);
    assert_eq!(sorted_unique(&vec![5, 1, 5, 3, 1]), vec![1, 3, 5]);
    assert!(sorted_unique(&vec![]).is_empty());
}
