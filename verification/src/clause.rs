//! Clauses (conjunctions of literals over bit variables) and DNFs.

use vstd::prelude::*;

use crate::bits::{count_ones, lemma_popcount_zero, popcount};

verus! {

/// A conjunction of literals over bit variables.
///
/// Variable `i` takes part in the clause when bit `i` of `mask` is set; it
/// must then equal bit `i` of `val`. Clauses built with [`Clause::new`] keep
/// `val` inside `mask`.
#[derive(Debug, Clone, Copy, PartialEq, Eq, Hash, Structural)]
pub struct Clause {
    pub mask: u64,
    pub val: u64,
}

/// Masking twice with the same mask changes nothing.
pub proof fn lemma_and_idempotent(x: u64, m: u64)
    ensures
        (x & m) & m == x & m,
{
    assert((x & m) & m == x & m) by (bit_vector);
}

/// The clause that [`Clause::new`] builds from `mask` and `val`.
pub open spec fn clause_of(mask: u64, val: u64) -> Clause {
    Clause { mask: mask, val: val & mask }
}

/// The single-variable clause on bit `i` whose value is bit `i` of `val`.
pub open spec fn literal_on(i: nat, val: u64) -> Clause {
    clause_of(1u64 << (i as u64), val)
}

/// The literals of `c` on the bits `i..64`, lowest bit first.
pub open spec fn literals_from(c: Clause, i: nat) -> Seq<Clause>
    decreases 64 - i,
{
    if i >= 64 {
        Seq::empty()
    } else if c.mask & (1u64 << (i as u64)) != 0 {
        seq![literal_on(i, c.val)] + literals_from(c, i + 1)
    } else {
        literals_from(c, i + 1)
    }
}

/// Bitwise OR of the masks of `cs`.
pub open spec fn mask_union(cs: Seq<Clause>) -> u64
    decreases cs.len(),
{
    if cs.len() == 0 {
        0
    } else {
        mask_union(cs.drop_last()) | cs.last().mask
    }
}

/// Bitwise OR of the values of `cs`.
pub open spec fn val_union(cs: Seq<Clause>) -> u64
    decreases cs.len(),
{
    if cs.len() == 0 {
        0
    } else {
        val_union(cs.drop_last()) | cs.last().val
    }
}

/// The clause that [`conjoin`] builds from `cs`.
pub open spec fn conjunction(cs: Seq<Clause>) -> Clause {
    clause_of(mask_union(cs), val_union(cs))
}

/// Some clause of `cs` is satisfied by the assignment `a`.
pub open spec fn any_covers(cs: Seq<Clause>, a: u64) -> bool {
    exists|k: int| 0 <= k < cs.len() && #[trigger] cs[k].covers(a)
}

/// Negating every literal twice gives back the clause.
pub proof fn lemma_double_negation(c: Clause)
    requires
        c.wf(),
    ensures
        c.negated().negated() == c,
{
    let m = c.mask;
    let v = c.val;
    assert((((((v ^ m) & m) ^ m) & m)) == v) by (bit_vector)
        requires
            v & m == v,
    ;
}

/// A negated literal is satisfied exactly when the literal is not.
pub proof fn lemma_negated_literal(i: u64, v: u64, a: u64)
    requires
        i < 64,
    ensures
        literal_on(i as nat, v).negated().covers(a) == !literal_on(i as nat, v).covers(a),
{
    let m = 1u64 << i;
    assert(((a & m) == (((v & m) ^ m) & m)) == !((a & m) == (v & m))) by (bit_vector)
        requires
            i < 64,
            m == 1u64 << i,
    ;
}

/// An assignment is at distance zero from a clause exactly when it satisfies it.
pub proof fn lemma_bdistance_zero_iff_covered(c: Clause, b: u64)
    requires
        c.wf(),
    ensures
        (popcount((c.val ^ (b & c.mask)) as nat) == 0) == c.covers(b),
{
    let m = c.mask;
    let v = c.val;
    lemma_popcount_zero((v ^ (b & m)) as nat);
    assert(((v ^ (b & m)) == 0) == ((b & m) == v)) by (bit_vector);
}

/// The distance between two clauses does not depend on their order.
pub proof fn lemma_bdistance_clause_symmetric(c1: Clause, c2: Clause)
    ensures
        popcount(((c1.val ^ c2.val) & (c1.mask & c2.mask)) as nat) == popcount(
            ((c2.val ^ c1.val) & (c2.mask & c1.mask)) as nat,
        ),
{
    let (m1, v1, m2, v2) = (c1.mask, c1.val, c2.mask, c2.val);
    assert(((v1 ^ v2) & (m1 & m2)) == ((v2 ^ v1) & (m2 & m1))) by (bit_vector);
}

/// `&` on clauses does not depend on the order of its operands.
pub proof fn lemma_meet_commutative(c1: Clause, c2: Clause)
    ensures
        c1.meet(c2) == c2.meet(c1),
{
    let (m1, v1, m2, v2) = (c1.mask, c1.val, c2.mask, c2.val);
    assert((m1 & m2) == (m2 & m1) && (v1 & v2) == (v2 & v1)) by (bit_vector);
}

/// `&` fixes exactly the variables that both clauses fix, and sets one of them
/// only where both clauses set it: for every bit position `i`.
pub proof fn lemma_meet_bits(c1: Clause, c2: Clause, i: u64)
    requires
        i < 64,
    ensures
        (c1.meet(c2).mask & (1u64 << i) != 0) == (c1.mask & (1u64 << i) != 0 && c2.mask & (1u64 << i) != 0),
        (c1.meet(c2).val & (1u64 << i) != 0) == (c1.mask & (1u64 << i) != 0 && c2.mask & (1u64 << i) != 0
            && c1.val & (1u64 << i) != 0 && c2.val & (1u64 << i) != 0),
{
    let (m1, v1, m2, v2) = (c1.mask, c1.val, c2.mask, c2.val);
    let b = 1u64 << i;
    assert(((m1 & m2) & b != 0) == (m1 & b != 0 && m2 & b != 0) && (((v1 & v2) & (m1 & m2)) & b != 0) == (
    m1 & b != 0 && m2 & b != 0 && v1 & b != 0 && v2 & b != 0)) by (bit_vector)
        requires
            i < 64,
            b == 1u64 << i,
    ;
}

/// A clause meets its own negation in a clause on the same variables that
/// sets none of them.
pub proof fn lemma_meet_negation(c: Clause)
    requires
        c.wf(),
    ensures
        c.meet(c.negated()).mask == c.mask,
        c.meet(c.negated()).val == 0,
{
    let (m, v) = (c.mask, c.val);
    assert(v & m == v ==> (m & m) == m && ((v & ((v ^ m) & m)) & (m & m)) == 0) by (bit_vector);
}

proof fn lemma_shift_step(x: u64, s: u64)
    requires
        s < 64,
    ensures
        ((x >> s) % 2 == 1) == (x & (1u64 << s) != 0),
        (x >> s) % 2 <= 1,
        s < 63 ==> (x >> s) / 2 == x >> ((s + 1) as u64),
        s == 63 ==> (x >> s) / 2 == 0,
{
    assert(((x >> s) % 2 == 1) == (x & (1u64 << s) != 0)) by (bit_vector)
        requires
            s < 64,
    ;
    assert((x >> s) % 2 <= 1) by (bit_vector);
    assert(s < 63 ==> (x >> s) / 2 == x >> ((s + 1) as u64)) by (bit_vector);
    assert(s == 63 ==> (x >> s) / 2 == 0) by (bit_vector);
}

proof fn lemma_literals_from_len(c: Clause, s: u64)
    requires
        s < 64,
    ensures
        literals_from(c, s as nat).len() == popcount((c.mask >> s) as nat),
    decreases 64 - s,
{
    lemma_shift_step(c.mask, s);
    let y = (c.mask >> s) as nat;
    assert(popcount(y) == y % 2 + popcount(y / 2));
    if s < 63 {
        lemma_literals_from_len(c, (s + 1) as u64);
    } else {
        assert(literals_from(c, (s + 1) as nat) == Seq::<Clause>::empty());
    }
}

/// A clause has as many literals as its length says.
pub proof fn lemma_literals_len(c: Clause)
    ensures
        literals_from(c, 0).len() == c.num_literals(),
{
    lemma_literals_from_len(c, 0);
    let m = c.mask;
    assert(m >> 0u64 == m) by (bit_vector);
}

proof fn lemma_unions_cons(x: Clause, cs: Seq<Clause>)
    ensures
        mask_union(seq![x] + cs) == x.mask | mask_union(cs),
        val_union(seq![x] + cs) == x.val | val_union(cs),
    decreases cs.len(),
{
    let s = seq![x] + cs;
    assert(s.last() == (if cs.len() == 0 { x } else { cs.last() }));
    if cs.len() == 0 {
        assert(s.drop_last() =~= Seq::<Clause>::empty());
        assert(mask_union(s.drop_last()) == 0);
        assert(val_union(s.drop_last()) == 0);
        let (m, v) = (x.mask, x.val);
        assert((0u64 | m) == (m | 0u64) && (0u64 | v) == (v | 0u64)) by (bit_vector);
    } else {
        assert(s.drop_last() =~= seq![x] + cs.drop_last());
        lemma_unions_cons(x, cs.drop_last());
        let (a, b, c) = (x.mask, mask_union(cs.drop_last()), cs.last().mask);
        assert(((a | b) | c) == (a | (b | c))) by (bit_vector);
        let (a2, b2, c2) = (x.val, val_union(cs.drop_last()), cs.last().val);
        assert(((a2 | b2) | c2) == (a2 | (b2 | c2))) by (bit_vector);
    }
}

proof fn lemma_literals_from_unions(c: Clause, s: u64)
    requires
        s < 64,
    ensures
        mask_union(literals_from(c, s as nat)) == c.mask & !(((1u64 << s) - 1) as u64),
        val_union(literals_from(c, s as nat)) == c.val & c.mask & !(((1u64 << s) - 1) as u64),
    decreases 64 - s,
{
    let (m, v) = (c.mask, c.val);
    let bit = 1u64 << s;
    assert(bit >= 1) by (bit_vector)
        requires
            s < 64,
            bit == 1u64 << s,
    ;
    let lit = literal_on(s as nat, v);
    let rest = literals_from(c, (s + 1) as nat);
    let (rm, rv) = (mask_union(rest), val_union(rest));
    if s < 63 {
        lemma_literals_from_unions(c, (s + 1) as u64);
        let bit2 = 1u64 << ((s + 1) as u64);
        assert(bit2 >= 1) by (bit_vector)
            requires
                s < 63,
                bit2 == 1u64 << ((s + 1) as u64),
        ;
    } else {
        assert(rest == Seq::<Clause>::empty());
    }
    if m & bit != 0 {
        lemma_unions_cons(lit, rest);
        assert(literals_from(c, s as nat) == seq![lit] + rest);
    } else {
        assert(literals_from(c, s as nat) == rest);
    }
    assert(s < 63 && rm == m & !(((1u64 << ((s + 1) as u64)) - 1) as u64) ==> (if m & bit != 0 {
        bit | rm
    } else {
        rm
    }) == m & !((bit - 1) as u64)) by (bit_vector)
        requires
            s < 64,
            bit == 1u64 << s,
    ;
    assert(s < 63 && rv == v & m & !(((1u64 << ((s + 1) as u64)) - 1) as u64) ==> (if m & bit != 0 {
        (v & bit) | rv
    } else {
        rv
    }) == v & m & !((bit - 1) as u64)) by (bit_vector)
        requires
            s < 64,
            bit == 1u64 << s,
    ;
    assert(s == 63 && rm == 0 ==> (if m & bit != 0 {
        bit | rm
    } else {
        rm
    }) == m & !((bit - 1) as u64)) by (bit_vector)
        requires
            s < 64,
            bit == 1u64 << s,
    ;
    assert(s == 63 && rv == 0 ==> (if m & bit != 0 {
        (v & bit) | rv
    } else {
        rv
    }) == v & m & !((bit - 1) as u64)) by (bit_vector)
        requires
            s < 64,
            bit == 1u64 << s,
    ;
}

/// Conjoining the literals of a clause gives back the clause.
pub proof fn lemma_conjoin_literals(c: Clause)
    requires
        c.wf(),
    ensures
        conjunction(literals_from(c, 0)) == c,
{
    lemma_literals_from_unions(c, 0);
    let (m, v) = (c.mask, c.val);
    assert((m & !(((1u64 << 0u64) - 1) as u64)) == m) by (bit_vector);
    assert(v & m == v ==> ((v & m & !(((1u64 << 0u64) - 1) as u64)) & m) == v) by (bit_vector);
}

/// No two clauses of `cs` disagree on a variable that both of them fix.
pub open spec fn agreeing(cs: Seq<Clause>) -> bool {
    forall|i: int, j: int|
        0 <= i < cs.len() && 0 <= j < cs.len() ==> (#[trigger] cs[i].val ^ #[trigger] cs[j].val) & cs[i].mask
            & cs[j].mask == 0
}

/// Conjoining well-formed clauses takes the union of their masks and the
/// union of their values.
pub proof fn lemma_conjunction_unions(cs: Seq<Clause>)
    requires
        forall|k: int| 0 <= k < cs.len() ==> (#[trigger] cs[k]).wf(),
    ensures
        conjunction(cs).mask == mask_union(cs),
        conjunction(cs).val == val_union(cs),
{
    lemma_unions_inside(cs);
}

/// Where no two well-formed clauses disagree on a shared variable, their
/// conjunction is satisfied exactly when every one of them is.
pub proof fn lemma_conjoin_covers(cs: Seq<Clause>, a: u64)
    requires
        forall|k: int| 0 <= k < cs.len() ==> (#[trigger] cs[k]).wf(),
        agreeing(cs),
    ensures
        conjunction(cs).covers(a) == (forall|k: int| 0 <= k < cs.len() ==> (#[trigger] cs[k]).covers(a)),
    decreases cs.len(),
{
    if cs.len() == 0 {
        assert(mask_union(cs) == 0u64);
        assert(val_union(cs) == 0u64);
        assert((a & 0u64) == (0u64 & 0u64)) by (bit_vector);
        assert(conjunction(cs) == clause_of(0u64, 0u64));
        assert(conjunction(cs).covers(a));
    } else {
        let init = cs.drop_last();
        let x = cs.last();
        assert forall|i: int, j: int| 0 <= i < init.len() && 0 <= j < init.len() implies (
        #[trigger] init[i].val ^ #[trigger] init[j].val) & init[i].mask & init[j].mask == 0 by {
            assert(init[i] == cs[i] && init[j] == cs[j]);
        }
        assert forall|k: int| 0 <= k < init.len() implies (#[trigger] init[k]).wf() by {
            assert(init[k] == cs[k]);
        }
        lemma_conjoin_covers(init, a);
        let (m0, v0) = (mask_union(init), val_union(init));
        lemma_unions_inside(init);
        assert forall|k: int| 0 <= k < init.len() implies ((#[trigger] init[k]).val ^ x.val) & init[k].mask
            & x.mask == 0 by {
            assert(init[k] == cs[k]);
            assert(x == cs[cs.len() - 1]);
        }
        assert(x == cs[cs.len() - 1]);
        lemma_unions_agree(init, x);
        let (m1, v1) = (x.mask, x.val);
        assert(v1 & m1 == v1 && v0 & m0 == v0 && (v0 ^ v1) & m0 & m1 == 0 ==> (((a & (m0 | m1)) == ((v0
            | v1) & (m0 | m1))) == (((a & m0) == (v0 & m0)) && ((a & m1) == v1)))) by (bit_vector);
        assert(v0 & m0 == v0 ==> (v0 & m0) & m0 == v0 & m0) by (bit_vector);
        assert(conjunction(cs) == clause_of(m0 | m1, v0 | v1));
        assert(conjunction(init) == clause_of(m0, v0));
        assert(conjunction(cs).covers(a) == (conjunction(init).covers(a) && x.covers(a)));
        if conjunction(cs).covers(a) {
            assert forall|k: int| 0 <= k < cs.len() implies (#[trigger] cs[k]).covers(a) by {
                if k < init.len() {
                    assert(init[k] == cs[k]);
                }
            }
        }
        if forall|k: int| 0 <= k < cs.len() ==> (#[trigger] cs[k]).covers(a) {
            assert forall|k: int| 0 <= k < init.len() implies (#[trigger] init[k]).covers(a) by {
                assert(init[k] == cs[k]);
            }
            assert(cs[cs.len() - 1].covers(a));
        }
    }
}

/// A clause that agrees with each clause of `cs` on their shared variables
/// agrees with their union on its variables.
proof fn lemma_unions_agree(cs: Seq<Clause>, x: Clause)
    requires
        forall|k: int| 0 <= k < cs.len() ==> (#[trigger] cs[k]).wf(),
        forall|k: int| 0 <= k < cs.len() ==> ((#[trigger] cs[k]).val ^ x.val) & cs[k].mask & x.mask == 0,
    ensures
        (val_union(cs) ^ x.val) & mask_union(cs) & x.mask == 0,
    decreases cs.len(),
{
    if cs.len() > 0 {
        let init = cs.drop_last();
        assert forall|k: int| 0 <= k < init.len() implies (#[trigger] init[k]).wf() by {
            assert(init[k] == cs[k]);
        }
        assert forall|k: int| 0 <= k < init.len() implies ((#[trigger] init[k]).val ^ x.val) & init[k].mask
            & x.mask == 0 by {
            assert(init[k] == cs[k]);
        }
        lemma_unions_agree(init, x);
        lemma_unions_inside(init);
        let y = cs.last();
        assert(y == cs[cs.len() - 1]);
        let (m0, v0, m1, v1, mx, vx) = (mask_union(init), val_union(init), y.mask, y.val, x.mask, x.val);
        assert(v0 & m0 == v0 && v1 & m1 == v1 && (v0 ^ vx) & m0 & mx == 0 && (v1 ^ vx) & m1 & mx == 0 ==> ((
        v0 | v1) ^ vx) & (m0 | m1) & mx == 0) by (bit_vector);
    } else {
        let (mx, vx) = (x.mask, x.val);
        assert((0u64 ^ vx) & 0u64 & mx == 0) by (bit_vector);
    }
}

proof fn lemma_unions_inside(cs: Seq<Clause>)
    requires
        forall|k: int| 0 <= k < cs.len() ==> (#[trigger] cs[k]).wf(),
    ensures
        val_union(cs) & mask_union(cs) == val_union(cs),
    decreases cs.len(),
{
    if cs.len() > 0 {
        let init = cs.drop_last();
        assert forall|k: int| 0 <= k < init.len() implies (#[trigger] init[k]).wf() by {
            assert(init[k] == cs[k]);
        }
        lemma_unions_inside(init);
        let (m0, v0, m1, v1) = (mask_union(init), val_union(init), cs.last().mask, cs.last().val);
        assert(v0 & m0 == v0 && v1 & m1 == v1 ==> ((v0 | v1) & (m0 | m1)) == (v0 | v1)) by (bit_vector);
    } else {
        assert((0u64 & 0u64) == 0u64) by (bit_vector);
    }
}

impl Clause {
    /// `val` lies inside `mask`.
    pub open spec fn wf(self) -> bool {
        self.val & self.mask == self.val
    }

    /// The assignment `a` agrees with the clause on every variable it constrains.
    pub open spec fn covers(self, a: u64) -> bool {
        (a & self.mask) == self.val
    }

    /// Number of literals of the clause.
    pub open spec fn num_literals(self) -> nat {
        popcount(self.mask as nat)
    }

    /// The clause with every literal negated.
    pub open spec fn negated(self) -> Clause {
        clause_of(self.mask, self.val ^ self.mask)
    }

    /// The clause that `&` builds from two clauses.
    pub open spec fn meet(self, other: Clause) -> Clause {
        clause_of(self.mask & other.mask, self.val & other.val)
    }

    pub fn new(mask: u64, val: u64) -> (r: Self)
        ensures
            r == clause_of(mask, val),
            r.wf(),
    {
        proof {
            lemma_and_idempotent(val, mask);
        }
        Clause { mask, val: val & mask }
    }

    pub fn covered_by(&self, a: u64) -> (r: bool)
        ensures
            r == self.covers(a),
    {
        (a & self.mask) == self.val
    }

    /// Number of literals in the clause.
    pub fn len(&self) -> (r: u32)
        ensures
            r == self.num_literals(),
    {
        count_ones(self.mask)
    }

    pub fn is_empty(&self) -> (r: bool)
        ensures
            r == (self.mask == 0),
    {
        self.mask == 0
    }

    /// Check if the clause is a positive literal (single bit set, val matches mask).
    pub fn is_true_literal(&self) -> (r: bool)
        ensures
            r == (self.num_literals() == 1 && self.val == self.mask),
    {
        count_ones(self.mask) == 1 && self.val == self.mask
    }

    /// Check if the clause is a negative literal (single bit set, val is zero).
    pub fn is_false_literal(&self) -> (r: bool)
        ensures
            r == (self.num_literals() == 1 && self.val == 0),
    {
        count_ones(self.mask) == 1 && self.val == 0
    }

    /// The literals of the clause, one per variable, lowest variable first.
    pub fn literals(&self) -> (r: Vec<Clause>)
        ensures
            r@ == literals_from(*self, 0),
    {
        let mut result: Vec<Clause> = Vec::new();
        let mut i: u64 = 0;
        while i < 64
            invariant
                i <= 64,
                result@ + literals_from(*self, i as nat) == literals_from(*self, 0),
            decreases 64 - i,
        {
            let bit: u64 = 1u64 << i;
            if self.mask & bit != 0 {
                let lit = Clause::new(bit, self.val & bit);
                let ghost old_result = result@;
                proof {
                    lemma_and_idempotent(self.val, bit);
                }
                result.push(lit);
                assert(result@ + literals_from(*self, (i + 1) as nat) =~= old_result + literals_from(
                    *self,
                    i as nat,
                ));
            }
            i = i + 1;
        }
        assert(result@ + literals_from(*self, 64) =~= result@);
        result
    }

    /// Number of constrained variables on which `b` disagrees with the clause.
    pub fn bdistance(&self, b: u64) -> (r: u32)
        ensures
            r == popcount((self.val ^ (b & self.mask)) as nat),
    {
        count_ones(self.val ^ (b & self.mask))
    }

    /// Number of shared variables on which the two clauses disagree.
    pub fn bdistance_clause(&self, other: &Clause) -> (r: u32)
        ensures
            r == popcount(((self.val ^ other.val) & (self.mask & other.mask)) as nat),
    {
        let shared_mask = self.mask & other.mask;
        count_ones((self.val ^ other.val) & shared_mask)
    }
}

/// Conjunction builder: combines multiple single-bit clauses into one clause.
pub fn conjoin(clauses: &[Clause]) -> (r: Clause)
    ensures
        r == conjunction(clauses@),
{
    let mut mask: u64 = 0;
    let mut val: u64 = 0;
    let mut k: usize = 0;
    while k < clauses.len()
        invariant
            k <= clauses@.len(),
            mask == mask_union(clauses@.take(k as int)),
            val == val_union(clauses@.take(k as int)),
        decreases clauses@.len() - k,
    {
        assert(clauses@.take(k + 1).drop_last() =~= clauses@.take(k as int));
        mask = mask | clauses[k].mask;
        val = val | clauses[k].val;
        k = k + 1;
    }
    assert(clauses@.take(k as int) =~= clauses@);
    Clause::new(mask, val)
}

/// Create boolean variable clauses for bits `0..n`.
pub fn booleans(n: usize) -> (r: Vec<Clause>)
    requires
        n <= 64,
    ensures
        r@.len() == n,
        forall|i: int| 0 <= i < n ==> #[trigger] r@[i] == literal_on(i as nat, u64::MAX),
{
    let mut result: Vec<Clause> = Vec::new();
    let mut i: usize = 0;
    while i < n
        invariant
            i <= n <= 64,
            result@.len() == i,
            forall|j: int| 0 <= j < i ==> #[trigger] result@[j] == literal_on(j as nat, u64::MAX),
        decreases n - i,
    {
        let bit: u64 = 1u64 << (i as u64);
        assert(bit & bit == u64::MAX & bit) by (bit_vector);
        result.push(Clause::new(bit, bit));
        i = i + 1;
    }
    result
}

impl std::ops::BitAnd for Clause {
    type Output = Self;

    fn bitand(self, rhs: Self) -> (r: Self) {
        let mask = self.mask & rhs.mask;
        Clause::new(mask, self.val & rhs.val)
    }
}

impl vstd::std_specs::ops::BitAndSpecImpl for Clause {
    open spec fn obeys_bitand_spec() -> bool {
        true
    }

    open spec fn bitand_req(self, rhs: Clause) -> bool {
        true
    }

    open spec fn bitand_spec(self, rhs: Clause) -> Clause {
        self.meet(rhs)
    }
}

impl std::ops::Not for Clause {
    type Output = Self;

    fn not(self) -> (r: Self) {
        Clause::new(self.mask, self.val ^ self.mask)
    }
}

impl vstd::std_specs::ops::NotSpecImpl for Clause {
    open spec fn obeys_not_spec() -> bool {
        true
    }

    open spec fn not_req(self) -> bool {
        true
    }

    open spec fn not_spec(self) -> Clause {
        self.negated()
    }
}

/// Disjunctive Normal Form: OR of conjunctive clauses.
#[derive(Debug, Clone, PartialEq, Eq)]
pub struct DNF {
    pub clauses: Vec<Clause>,
}

impl DNF {
    pub fn covered_by(&self, a: u64) -> (r: bool)
        ensures
            r == any_covers(self.clauses@, a),
    {
        let mut k: usize = 0;
        while k < self.clauses.len()
            invariant
                k <= self.clauses@.len(),
                forall|j: int| 0 <= j < k ==> !(#[trigger] self.clauses@[j]).covers(a),
            decreases self.clauses@.len() - k,
        {
            if self.clauses[k].covered_by(a) {
                return true;
            }
            k = k + 1;
        }
        false
    }
}

} // verus!
