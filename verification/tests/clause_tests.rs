use optimal_branching::branching_table::gather2;
use optimal_branching::{booleans, conjoin, BranchingTable, Clause, DNF};
use std::collections::HashSet;

#[test]
fn test_clause_and_dnf() {
    let c1 = Clause::new(0b1110, 0b0000);
    let c2 = Clause::new(0b1110, 0b0001);
    let c3 = Clause::new(0b1110, 0b0010);
    let c4 = Clause::new(0b1100, 0b0001);
    assert_eq!(c1, c2);
    assert_ne!(c1, c3);
    assert_ne!(c1, c4);

    let lts1 = c1.literals();
    assert_eq!(lts1.len(), 3);
    assert!(lts1.iter().all(|l| !l.is_true_literal()));
    assert!(lts1.iter().all(|l| l.is_false_literal()));

    let lts2 = c2.literals();
    assert_eq!(lts2.len(), 3);
    assert!(lts2.iter().all(|l| !l.is_true_literal()));
    assert!(lts2.iter().all(|l| l.is_false_literal()));

    let lts3 = c3.literals();
    assert_eq!(lts3.len(), 3);
    let true_lits3: Vec<bool> = lts3.iter().map(|l| l.is_true_literal()).collect();
    let false_lits3: Vec<bool> = lts3.iter().map(|l| l.is_false_literal()).collect();
    assert_eq!(true_lits3, vec![true, false, false]);
    assert_eq!(false_lits3, vec![false, true, true]);

    let lts4 = c4.literals();
    assert_eq!(lts4.len(), 2);
    assert!(lts4.iter().all(|l| !l.is_true_literal()));
    assert!(lts4.iter().all(|l| l.is_false_literal()));

    assert!(!c1.is_true_literal());
    assert!(!c1.is_false_literal());

    let dnf_1 = DNF {
        clauses: vec![c1, c2, c3],
    };
    let dnf_2 = DNF {
        clauses: vec![c1, c2, c4],
    };
    let dnf_3 = DNF {
        clauses: vec![c1, c3, c2],
    };
    let set1: HashSet<_> = dnf_1.clauses.iter().collect();
    let set2: HashSet<_> = dnf_2.clauses.iter().collect();
    let set3: HashSet<_> = dnf_3.clauses.iter().collect();
    assert_ne!(set1, set2);
    assert_eq!(set1, set3);
    assert_eq!(dnf_1.clauses.len(), 3);

    let cstr = 0b0011u64;
    assert_eq!(c2.bdistance_clause(&c3), 1);
    assert_eq!(c2.bdistance(cstr), 1);
}

#[test]
fn test_gather2() {
    let c1 = Clause::new(31, 2);
    let c2 = Clause::new(31, 9);
    let c3 = gather2(5, &c1, &c2);
    assert_eq!(c3, Clause::new(20, 0));
    assert_eq!(c3.len(), 2);
}

#[test]
fn test_satellite() {
    let tbl = BranchingTable::new(5, vec![vec![4, 2], vec![9], vec![20]]);
    let vars = booleans(5);
    let (a, b, c, d, e) = (vars[0], vars[1], vars[2], vars[3], vars[4]);

    assert!(!tbl.covered_by(&DNF {
        clauses: vec![conjoin(&[a, !b])]
    }));

    let c1 = conjoin(&[a, !b, d, !e]);
    let c2 = conjoin(&[!a, !b, c, !d]);
    assert!(tbl.covered_by(&DNF {
        clauses: vec![c1, c2]
    }));

    let c2_e = conjoin(&[!a, !b, c, !d, e]);
    assert!(!tbl.covered_by(&DNF {
        clauses: vec![c1, c2_e]
    }));

    let c3 = conjoin(&[!a, b, !c, !d, !e]);
    assert!(tbl.covered_by(&DNF {
        clauses: vec![c1, c2_e, c3]
    }));
}

#[test]
fn test_clause_new_masks_value() {
    let c = Clause::new(0b1010, 0b1111);
    assert_eq!(c.mask, 0b1010);
    assert_eq!(c.val, 0b1010);
    assert!(c.covered_by(0b1110));
    assert!(!c.covered_by(0b0110));
    assert!(!c.is_empty());
    assert!(Clause::new(0, 7).is_empty());
    assert_eq!(Clause::new(0, 7).val, 0);
}

#[test]
fn test_clause_len_counts_literals() {
    assert_eq!(Clause::new(0, 0).len(), 0);
    assert_eq!(Clause::new(u64::MAX, 0).len(), 64);
    assert_eq!(Clause::new(0b1011, 0).len(), 3);
}

#[test]
fn test_literals_values_and_order() {
    let c = Clause::new(0b1001_0100, 0b1000_0100);
    let lits = c.literals();
    assert_eq!(
        lits,
        vec![
            Clause::new(0b100, 0b100),
            Clause::new(0b1_0000, 0),
            Clause::new(0b1000_0000, 0b1000_0000)
        ]
    );
    let top = Clause::new(1u64 << 63, 1u64 << 63);
    assert_eq!(top.literals(), vec![top]);
    assert!(Clause::new(0, 0).literals().is_empty());
}

#[test]
fn test_literals_conjoin_back() {
    let c = Clause::new(0b1110_0110, 0b0100_0010);
    assert_eq!(conjoin(&c.literals()), c);
}

#[test]
fn test_bdistance_zero_iff_covered() {
    let c = Clause::new(0b0111, 0b0101);
    assert_eq!(c.bdistance(0b1101), 0);
    assert!(c.covered_by(0b1101));
    assert_eq!(c.bdistance(0b0010), 3);
    assert!(!c.covered_by(0b0010));
}

#[test]
fn test_bdistance_clause_symmetric() {
    let a = Clause::new(0b1111, 0b1010);
    let b = Clause::new(0b0110, 0b0100);
    assert_eq!(a.bdistance_clause(&b), 2);
    assert_eq!(b.bdistance_clause(&a), 2);
}

#[test]
fn test_not_and_bitand() {
    let c = Clause::new(0b0110, 0b0010);
    let n = !c;
    assert_eq!(n, Clause::new(0b0110, 0b0100));
    assert_eq!(!n, c);
    let d = Clause::new(0b0011, 0b0011);
    assert_eq!(c & d, Clause::new(0b0010, 0b0010));
    assert_eq!(d & c, c & d);
    let lit = Clause::new(0b1000, 0b1000);
    assert!(lit.covered_by(0b1000));
    assert!(!(!lit).covered_by(0b1000));
}

#[test]
fn test_booleans_are_positive_literals() {
    let vars = booleans(64);
    assert_eq!(vars.len(), 64);
    for (i, v) in vars.iter().enumerate() {
        assert_eq!(*v, Clause::new(1u64 << i, 1u64 << i));
        assert!(v.is_true_literal());
        assert!((!*v).is_false_literal());
    }
    assert!(booleans(0).is_empty());
}

#[test]
fn test_conjoin_of_disjoint_literals() {
    let vars = booleans(4);
    let c = conjoin(&[vars[0], !vars[2], vars[3]]);
    assert_eq!(c, Clause::new(0b1101, 0b1001));
    assert!(c.covered_by(0b1011));
    assert!(!c.covered_by(0b1111));
    assert_eq!(conjoin(&[]), Clause::new(0, 0));
}

#[test]
fn test_conjoin_of_overlapping_agreeing_clauses() {
    let c1 = Clause::new(0b0111, 0b0101);
    let c2 = Clause::new(0b1110, 0b1100);
    let c = conjoin(&[c1, c2]);
    assert_eq!(c, Clause::new(0b1111, 0b1101));
    for a in 0u64..16 {
        assert_eq!(c.covered_by(a), c1.covered_by(a) && c2.covered_by(a));
    }
    assert!(c.covered_by(0b1101));
    assert!(!c.covered_by(0b0101));
}

#[test]
fn test_dnf_covered_by() {
    let dnf = DNF {
        clauses: vec![Clause::new(0b11, 0b01), Clause::new(0b100, 0b100)],
    };
    assert!(dnf.covered_by(0b001));
    assert!(dnf.covered_by(0b110));
    assert!(!dnf.covered_by(0b010));
    assert!(!DNF { clauses: vec![] }.covered_by(0));
}
