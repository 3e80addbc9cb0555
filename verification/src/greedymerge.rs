//! Building blocks of the merge-based branching-rule solvers: the raw
//! branching-table rows as clauses, and the solver markers.

use std::collections::{BTreeMap, BTreeSet};
use vstd::prelude::*;
use vstd::std_specs::btree::{increasing_seq, spec_btree_keys_iter};
use vstd::laws_cmp::obeys_cmp;
use vstd::std_specs::cmp::OrdSpec;
use vstd::std_specs::iter::IteratorSpec;

use crate::branching_table::{bit_mask, BranchingTable};
use crate::clause::Clause;

verus! {

/// Branching-rule solver that emits one clause per branching-table row, with no
/// merging.
#[derive(Debug, Clone, Copy, Default)]
pub struct NaiveBranch;

/// Branching-rule solver that greedily merges table rows to shrink the
/// branching factor.
#[derive(Debug, Clone, Copy, Default)]
pub struct GreedyMerge;

/// Wrap every bitstring of every group in the branching table as a clause over
/// all `bit_length` variables. Returns one `Vec<Clause>` per table group (row).
pub fn bit_clauses(table: &BranchingTable) -> (r: Vec<Vec<Clause>>)
    requires
        table.bit_length <= 64,
    ensures
        r@.len() == table.n_groups(),
        forall|g: int|
            0 <= g < r@.len() ==> (#[trigger] r@[g])@.len() == table.table@[g]@.len(),
        forall|g: int, j: int|
            0 <= g < r@.len() && 0 <= j < r@[g]@.len() ==> #[trigger] r@[g]@[j]
                == table.row_clause_at(g, j),
{
    let full_mask = bit_mask(table.bit_length);
    let mut rows: Vec<Vec<Clause>> = Vec::new();
    let mut g: usize = 0;
    while g < table.table.len()
        invariant
            full_mask == table.full_mask(),
            g <= table.table@.len(),
            rows@.len() == g,
            forall|h: int| 0 <= h < g ==> (#[trigger] rows@[h])@.len() == table.table@[h]@.len(),
            forall|h: int, j: int|
                0 <= h < g && 0 <= j < rows@[h]@.len() ==> #[trigger] rows@[h]@[j]
                    == table.row_clause_at(h, j),
        decreases table.table@.len() - g,
    {
        let group = &table.table[g];
        let mut row: Vec<Clause> = Vec::new();
        let mut j: usize = 0;
        while j < group.len()
            invariant
                full_mask == table.full_mask(),
                g < table.table@.len(),
                group@ == table.table@[g as int]@,
                j <= group@.len(),
                row@.len() == j,
                forall|k: int| 0 <= k < j ==> #[trigger] row@[k] == table.row_clause_at(g as int, k),
            decreases group@.len() - j,
        {
            row.push(Clause::new(full_mask, group[j]));
            j = j + 1;
        }
        rows.push(row);
        g = g + 1;
    }
    rows
}

/// The pair `(a, b)` with its smaller element first.
pub fn ordered_pair(a: usize, b: usize) -> (r: (usize, usize))
    ensures
        r == (if a <= b { (a, b) } else { (b, a) }),
{
    if a <= b {
        (a, b)
    } else {
        (b, a)
    }
}

/// The priority and key of a queued pair.
pub type QueueEntry = (u64, usize, usize);

/// Priority `p1` with key `k1` comes no later than priority `p2` with key
/// `k2`: by priority, then by the first row, then by the second.
pub open spec fn entry_le(p1: u64, k1: (usize, usize), p2: u64, k2: (usize, usize)) -> bool {
    p1 < p2 || (p1 == p2 && (k1.0 < k2.0 || (k1.0 == k2.0 && k1.1 <= k2.1)))
}

/// The first entry that a walk over an ordered set of queue entries yields
/// is an entry of the set that comes no later than any other.
proof fn lemma_least_entry(entries: Set<QueueEntry>, walk: Seq<&QueueEntry>)
    requires
        walk.unref().to_set() == entries,
        increasing_seq(walk),
    ensures
        walk.len() == 0 ==> entries == Set::<QueueEntry>::empty(),
        walk.len() > 0 ==> entries.contains(*walk[0]),
        walk.len() > 0 ==> forall|e: QueueEntry| #[trigger]
            entries.contains(e) ==> entry_le(walk[0].0, (walk[0].1, walk[0].2), e.0, (e.1, e.2)),
{
    assert(obeys_cmp::<u64>() && obeys_cmp::<usize>());
    assert(obeys_cmp::<QueueEntry>());
    assert(obeys_cmp::<&QueueEntry>());
    assert(increasing_seq(walk));
    if walk.len() == 0 {
        assert(entries =~= Set::<QueueEntry>::empty()) by {
            assert forall|e: QueueEntry| !#[trigger] entries.contains(e) by {
                if entries.contains(e) {
                    assert(walk.unref().contains(e));
                }
            }
        }
    } else {
        assert(walk.unref()[0] == *walk[0]);
        assert(walk.unref().contains(*walk[0]));
        assert forall|e: QueueEntry| #[trigger]
            entries.contains(e) implies entry_le(walk[0].0, (walk[0].1, walk[0].2), e.0, (e.1, e.2)) by {
            assert(walk.unref().contains(e));
            let j = choose|j: int| 0 <= j < walk.unref().len() && walk.unref()[j] == e;
            assert(*walk[j] == e);
            if j > 0 {
                assert(OrdSpec::cmp_spec(&walk[0], &walk[j]) is Less);
            }
        }
    }
}

/// Min-priority queue of `(row, row)` pairs keyed by an integer priority, with
/// delete-by-key and update-in-place. Priorities order the pairs as the merge
/// energies they stand for; ties go to the smaller pair.
pub struct PairQueue {
    by_priority: BTreeSet<QueueEntry>,
    priority_of: BTreeMap<(usize, usize), u64>,
}

impl View for PairQueue {
    type V = Map<(usize, usize), u64>;

    closed spec fn view(&self) -> Map<(usize, usize), u64> {
        self.priority_of@
    }
}

impl PairQueue {
    /// The ordered set holds exactly one entry per queued pair, carrying the
    /// pair's priority.
    pub closed spec fn wf(self) -> bool {
        &&& forall|e: QueueEntry| #[trigger]
            self.by_priority@.contains(e) ==> self.priority_of@.contains_key((e.1, e.2))
                && self.priority_of@[(e.1, e.2)] == e.0
        &&& forall|k: (usize, usize)| #[trigger]
            self.priority_of@.contains_key(k) ==> self.by_priority@.contains((self.priority_of@[k], k.0, k.1))
    }

    pub fn new() -> (r: Self)
        ensures
            r.wf(),
            r@ == Map::<(usize, usize), u64>::empty(),
    {
        PairQueue { by_priority: BTreeSet::new(), priority_of: BTreeMap::new() }
    }

    pub fn is_empty(&self) -> (r: bool)
        requires
            self.wf(),
        ensures
            r == (self@ == Map::<(usize, usize), u64>::empty()),
    {
        let r = self.priority_of.is_empty();
        if r {
            assert(self@ =~= Map::<(usize, usize), u64>::empty());
        } else {
            proof {
                let k = choose|k: (usize, usize)| self@.dom().contains(k);
                assert(!Map::<(usize, usize), u64>::empty().contains_key(k));
            }
        }
        r
    }

    /// Insert `key`, or replace its priority if already present.
    pub fn upsert(&mut self, key: (usize, usize), priority: u64)
        requires
            old(self).wf(),
        ensures
            final(self).wf(),
            final(self)@ == old(self)@.insert(key, priority),
    {
        let ghost before = *self;
        match self.priority_of.insert(key, priority) {
            Some(old_priority) => {
                self.by_priority.remove(&(old_priority, key.0, key.1));
            },
            None => {},
        }
        self.by_priority.insert((priority, key.0, key.1));
        proof {
            assert forall|e: QueueEntry| #[trigger]
                self.by_priority@.contains(e) implies self.priority_of@.contains_key((e.1, e.2))
                && self.priority_of@[(e.1, e.2)] == e.0 by {
                if e != (priority, key.0, key.1) {
                    assert(before.by_priority@.contains(e));
                    if (e.1, e.2) == key {
                        assert(e == (before.priority_of@[key], key.0, key.1));
                    }
                }
            }
            assert forall|k: (usize, usize)| #[trigger]
                self.priority_of@.contains_key(k) implies self.by_priority@.contains(
                (self.priority_of@[k], k.0, k.1),
            ) by {
                if k != key {
                    assert(before.priority_of@.contains_key(k));
                    assert(before.by_priority@.contains((before.priority_of@[k], k.0, k.1)));
                }
            }
        }
    }

    pub fn remove(&mut self, key: (usize, usize))
        requires
            old(self).wf(),
        ensures
            final(self).wf(),
            final(self)@ == old(self)@.remove(key),
    {
        let ghost before = *self;
        match self.priority_of.remove(&key) {
            Some(old_priority) => {
                self.by_priority.remove(&(old_priority, key.0, key.1));
            },
            None => {},
        }
        proof {
            assert forall|e: QueueEntry| #[trigger]
                self.by_priority@.contains(e) implies self.priority_of@.contains_key((e.1, e.2))
                && self.priority_of@[(e.1, e.2)] == e.0 by {
                assert(before.by_priority@.contains(e));
                if (e.1, e.2) == key {
                    assert(e == (before.priority_of@[key], key.0, key.1));
                }
            }
            assert forall|k: (usize, usize)| #[trigger]
                self.priority_of@.contains_key(k) implies self.by_priority@.contains(
                (self.priority_of@[k], k.0, k.1),
            ) by {
                assert(before.priority_of@.contains_key(k));
                assert(before.by_priority@.contains((before.priority_of@[k], k.0, k.1)));
            }
        }
    }

    /// Remove and return the pair of least priority (ties go to the smaller pair).
    pub fn pop_min(&mut self) -> (r: Option<(usize, usize)>)
        requires
            old(self).wf(),
        ensures
            final(self).wf(),
            r is None ==> old(self)@ == Map::<(usize, usize), u64>::empty() && final(self)@ == old(self)@,
            r matches Some(k) ==> {
                &&& old(self)@.contains_key(k)
                &&& forall|k2: (usize, usize)|
                    #[trigger] old(self)@.contains_key(k2) ==> entry_le(old(self)@[k], k, old(self)@[k2], k2)
                &&& final(self)@ == old(self)@.remove(k)
            },
    {
        let ghost before = *self;
        // The ordered set is walked in increasing order: its first entry is the least.
        let mut first: Option<QueueEntry> = None;
        for x in walk: self.by_priority.iter()
            invariant_except_break
                first is None,
                walk.index() == 0,
            invariant
                walk.seq() == spec_btree_keys_iter(&before.by_priority).remaining(),
            ensures
                first is None ==> walk.seq().len() == 0,
                first matches Some(e) ==> walk.seq().len() > 0 && e == *walk.seq()[0],
        {
            first = Some(*x);
            break;
        }
        proof {
            lemma_least_entry(before.by_priority@, spec_btree_keys_iter(&before.by_priority).remaining());
        }
        let e: QueueEntry = match first {
            Some(x) => x,
            None => {
                return None;
            },
        };
        self.by_priority.remove(&e);
        self.priority_of.remove(&(e.1, e.2));
        proof {
            let k = (e.1, e.2);
            assert forall|k2: (usize, usize)| #[trigger] before@.contains_key(k2) implies entry_le(
                before@[k],
                k,
                before@[k2],
                k2,
            ) by {
                assert(before.by_priority@.contains((before.priority_of@[k2], k2.0, k2.1)));
            }
            assert forall|e2: QueueEntry| #[trigger]
                self.by_priority@.contains(e2) implies self.priority_of@.contains_key((e2.1, e2.2))
                && self.priority_of@[(e2.1, e2.2)] == e2.0 by {
                assert(before.by_priority@.contains(e2));
                if (e2.1, e2.2) == k {
                    assert(e2 == (before.priority_of@[k], k.0, k.1));
                }
            }
            assert forall|k2: (usize, usize)| #[trigger]
                self.priority_of@.contains_key(k2) implies self.by_priority@.contains(
                (self.priority_of@[k2], k2.0, k2.1),
            ) by {
                assert(before.priority_of@.contains_key(k2));
                assert(before.by_priority@.contains((before.priority_of@[k2], k2.0, k2.1)));
            }
        }
        Some((e.1, e.2))
    }
}

} // verus!
