//! The branching heuristic: what the solver asks of it, and a seeded
//! pseudo-random implementation.

use vstd::prelude::*;
use vstd::arithmetic::div_mod::{lemma_fundamental_div_mod_converse, lemma_small_mod};
use crate::lit::{Lit, VarValue, MAX_VARS};
use crate::solver::Solver;

verus! {

/// A branching heuristic. The solver asks it for the next decision and tells
/// it of conflicts, assignments and unassignments.
pub trait BranchingStrategy {
    /// The heuristic's own invariant.
    spec fn inv(&self) -> bool;

    /// The number of variables the heuristic was made for.
    spec fn vars(&self) -> usize;

    /// Decides which literal to assign next: an unassigned one, or `None`
    /// when every variable is assigned.
    fn pick_branch(&mut self, solver: &Solver) -> (r: Option<Lit>)
        requires
            old(self).inv(),
            solver.wf(),
            old(self).vars() == solver.spec_num_vars(),
        ensures
            final(self).inv(),
            final(self).vars() == old(self).vars(),
            r is Some ==> (r->0).spec_var() < solver.spec_num_vars() && solver.assignment()[(r->0).spec_var()]
                == VarValue::Unassigned,
            r is None ==> forall|v: int|
                0 <= v < solver.spec_num_vars() ==> solver.assignment()[v] != VarValue::Unassigned,
    ;

    /// Told of the variables of a learned clause.
    fn on_conflict(&mut self, involved_vars: &[usize])
        requires
            old(self).inv(),
            forall|i: int| 0 <= i < involved_vars@.len() ==> involved_vars@[i] < old(self).vars(),
        ensures
            final(self).inv(),
            final(self).vars() == old(self).vars(),
    ;

    /// Told that a decision on `var` was made.
    fn on_assign(&mut self, var: usize)
        requires
            old(self).inv(),
            var < old(self).vars(),
        ensures
            final(self).inv(),
            final(self).vars() == old(self).vars(),
    ;

    /// Told that `var` lost its value, and whether that value was True.
    fn on_unassign(&mut self, var: usize, old_value: bool)
        requires
            old(self).inv(),
            var < old(self).vars(),
        ensures
            final(self).inv(),
            final(self).vars() == old(self).vars(),
    ;
}

/// One step of the xorshift generator.
pub open spec fn xorshift(x: u64) -> u64 {
    let a = x ^ (x << 13u64);
    let b = a ^ (a >> 7u64);
    b ^ (b << 17u64)
}

/// The `i`-th variable in the cyclic scan over `n` variables that starts at `start`.
pub open spec fn scan_index(start: int, i: int, n: int) -> int {
    if start + i >= n {
        start + i - n
    } else {
        start + i
    }
}

/// Picks the first unassigned variable after a pseudo-random start, with a
/// pseudo-random polarity. The seed is fixed, so runs repeat.
pub struct RandomStrategy {
    pub rng_state: u64,
    pub num_vars: usize,
}

impl RandomStrategy {
    pub fn new(num_vars: usize) -> (s: Self)
        ensures
            s.rng_state == 123456789,
            s.num_vars == num_vars,
            s.vars() == num_vars,
            s.inv(),
    {
        Self { rng_state: 123456789, num_vars }
    }

    /// Advances the generator and returns its new state, cut to `usize`.
    pub fn next_rand(&mut self) -> (r: usize)
        ensures
            final(self).rng_state == xorshift(old(self).rng_state),
            final(self).num_vars == old(self).num_vars,
            r == #[verifier::truncate] (final(self).rng_state as usize),
    {
        let mut x = self.rng_state;
        x = x ^ (x << 13u64);
        x = x ^ (x >> 7u64);
        x = x ^ (x << 17u64);
        self.rng_state = x;
        #[verifier::truncate]
        (x as usize)
    }
}

impl BranchingStrategy for RandomStrategy {
    open spec fn inv(&self) -> bool {
        true
    }

    open spec fn vars(&self) -> usize {
        self.num_vars
    }

    /// Scans the variables cyclically from `next_rand() % num_vars` and
    /// returns the first unassigned one, negated iff the next random number
    /// is even.
    fn pick_branch(&mut self, solver: &Solver) -> (r: Option<Lit>)
        ensures
            final(self).num_vars == old(self).num_vars,
            r is None ==> final(self).rng_state == (if old(self).num_vars == 0 {
                old(self).rng_state
            } else {
                xorshift(old(self).rng_state)
            }),
            r is Some ==> {
                let n = old(self).num_vars as int;
                let s1 = xorshift(old(self).rng_state);
                let start = (#[verifier::truncate] (s1 as usize)) as int % n;
                &&& n > 0
                &&& final(self).rng_state == xorshift(s1)
                &&& r->0 == Lit::make((r->0).spec_var(), (#[verifier::truncate] (xorshift(s1) as usize)) % 2 == 0)
                &&& exists|i: int|
                    0 <= i < n && (r->0).spec_var() == #[trigger] scan_index(start, i, n) && forall|j: int|
                        0 <= j < i ==> solver.assignment()[#[trigger] scan_index(start, j, n)]
                            != VarValue::Unassigned
            },
    {
        if self.num_vars == 0 {
            return None;
        }
        let n = self.num_vars;
        let start = self.next_rand() % n;
        let mut i: usize = 0;
        while i < n
            invariant
                n == self.num_vars,
                n == old(self).num_vars,
                n == solver.num_vars,
                0 < n <= MAX_VARS,
                solver.assignments@.len() == n,
                start < n,
                start as int == (#[verifier::truncate] (xorshift(old(self).rng_state) as usize)) as int % (n as int),
                i <= n,
                self.rng_state == xorshift(old(self).rng_state),
                forall|j: int|
                    0 <= j < i ==> solver.assignments@[#[trigger] scan_index(start as int, j, n as int)]
                        != VarValue::Unassigned,
            decreases n - i,
        {
            let idx = (start + i) % n;
            proof {
                if start + i >= n {
                    lemma_fundamental_div_mod_converse((start + i) as int, n as int, 1, (start + i - n) as int);
                } else {
                    lemma_small_mod((start + i) as nat, n as nat);
                }
                assert(idx == scan_index(start as int, i as int, n as int));
            }
            match solver.assignments[idx] {
                VarValue::Unassigned => {
                    let is_neg = (self.next_rand() % 2) == 0;
                    let lit = Lit::new(idx, is_neg);
                    proof {
                        assert(idx as int % 0x8000_0000 == idx);
                        assert(lit.spec_var() == scan_index(start as int, i as int, n as int));
                    }
                    return Some(lit);
                },
                _ => {},
            }
            i = i + 1;
        }
        proof {
            assert forall|v: int| 0 <= v < n implies solver.assignments@[v] != VarValue::Unassigned by {
                let j = if v >= start { v - start } else { v + n - start };
                assert(scan_index(start as int, j, n as int) == v);
            }
        }
        None
    }

    fn on_conflict(&mut self, _involved_vars: &[usize]) {
    }

    fn on_assign(&mut self, _var: usize) {
    }

    fn on_unassign(&mut self, _var: usize, _old_value: bool) {
    }
}

} // verus!
