//! Unwinding the trail to an earlier decision level.

use vstd::prelude::*;
use crate::lit::VarValue;
use crate::solver::Solver;
use crate::strategy::BranchingStrategy;

verus! {

impl Solver {
    /// Variable `v` in this state is what it was in `o` if it was assigned
    /// there at a trail position below `len`, and is unassigned otherwise.
    pub open(crate) spec fn unwound_var(&self, o: &Solver, len: int, v: int) -> bool {
        if o.assignments@[v] != VarValue::Unassigned && o.pos@[v] < len {
            &&& self.assignments@[v] == o.assignments@[v]
            &&& self.level@[v] == o.level@[v]
            &&& self.reason@[v] == o.reason@[v]
        } else {
            &&& self.assignments@[v] == VarValue::Unassigned
            &&& self.level@[v] == 0
            &&& self.reason@[v] is None
        }
    }

    /// This state is `o` with the trail cut to its first `len` entries and
    /// the variables of the entries cut off unassigned.
    pub open(crate) spec fn unwound(&self, o: &Solver, len: int) -> bool {
        &&& self.clauses == o.clauses
        &&& self.watches == o.watches
        &&& self.num_vars == o.num_vars
        &&& self.ok == o.ok
        &&& self.analyze_seen == o.analyze_seen
        &&& self.analyze_toclear == o.analyze_toclear
        &&& self.analyze_clause == o.analyze_clause
        &&& self.pos@ == o.pos@
        &&& 0 <= len <= o.trail@.len()
        &&& self.trail@ == o.trail@.take(len)
        &&& self.assignments@.len() == o.n()
        &&& self.level@.len() == o.n()
        &&& self.reason@.len() == o.n()
        &&& forall|v: int| 0 <= v < o.n() ==> #[trigger] self.unwound_var(o, len, v)
    }

    /// This state is `o` after backtracking to `level`: unchanged above the
    /// queue head if `level` is not below the decision level of `o`, else cut
    /// to where level `level + 1` began.
    pub open(crate) spec fn backtracked(&self, o: &Solver, level: int) -> bool {
        &&& self.unwound(o, self.trail@.len() as int)
        &&& self.q_head == self.trail@.len()
        &&& if level < o.dl() {
            &&& self.trail_lim@ == o.trail_lim@.take(level)
            &&& self.trail@.len() == o.trail_lim@[level]
        } else {
            &&& self.trail_lim@ == o.trail_lim@
            &&& self.trail@.len() == o.trail@.len()
        }
    }

    /// Undoes every assignment made above decision level `level` and tells
    /// the heuristic of each; then empties the propagation queue.
    pub(crate) fn backtrack<S: BranchingStrategy>(&mut self, level: usize, strategy: &mut S)
        requires
            old(self).wf(),
            old(strategy).inv(),
            old(strategy).vars() == old(self).spec_num_vars(),
        ensures
            final(self).wf(),
            final(self).backtracked(old(self), level as int),
            final(strategy).inv(),
            final(strategy).vars() == old(strategy).vars(),
    {
        let ghost o = *self;
        assert(self.trail_lim@ =~= o.trail_lim@.take(self.dl()));
        assert(self.trail@ =~= o.trail@.take(self.trail@.len() as int));
        assert forall|v: int| 0 <= v < o.n() implies #[trigger] self.unwound_var(&o, self.trail@.len() as int, v) by {
            assert(o.var_at(v));
        }
        while self.decision_level() > level
            invariant
                o.wf(),
                self.unwound(&o, self.trail@.len() as int),
                self.dl() <= o.dl(),
                self.trail_lim@ == o.trail_lim@.take(self.dl()),
                self.dl() == o.dl() ==> self.trail@.len() == o.trail@.len(),
                self.dl() < o.dl() ==> self.trail@.len() == o.trail_lim@[self.dl()],
                self.dl() >= level || self.dl() == o.dl(),
                level >= o.dl() ==> self.dl() == o.dl(),
                strategy.inv(),
                strategy.vars() == o.num_vars,
                strategy.vars() == old(strategy).vars(),
            decreases self.trail_lim@.len(),
        {
            let limit = self.trail_lim[self.trail_lim.len() - 1];
            let ghost d = self.dl();
            proof {
                assert(limit == o.trail_lim@[d - 1]);
                if d < o.dl() {
                    assert(o.trail_lim@[d - 1] < o.trail_lim@[d]);
                } else {
                    assert(o.trail_lim@[d - 1] <= o.trail@.len());
                }
            }
            while self.trail.len() > limit
                invariant
                    o.wf(),
                    self.unwound(&o, self.trail@.len() as int),
                    self.trail_lim@ == o.trail_lim@.take(d),
                    d == self.dl(),
                    0 < d <= o.dl(),
                    limit == o.trail_lim@[d - 1],
                    limit <= self.trail@.len(),
                    strategy.inv(),
                    strategy.vars() == o.num_vars,
                    strategy.vars() == old(strategy).vars(),
                decreases self.trail@.len(),
            {
                let ghost before = *self;
                let ghost len = self.trail@.len() as int;
                let lit = self.trail.pop().unwrap();
                let var = lit.var();
                proof {
                    assert(o.entry_at(len - 1));
                    assert(lit == o.trail@[len - 1]);
                    assert(before.unwound_var(&o, len, var as int));
                }
                let old_val = self.assignments[var] == VarValue::True;
                self.assignments[var] = VarValue::Unassigned;
                self.reason[var] = None;
                self.level[var] = 0;
                proof {
                    assert(self.trail@ =~= o.trail@.take(len - 1));
                    assert forall|v: int| 0 <= v < o.n() implies #[trigger] self.unwound_var(&o, len - 1, v) by {
                        assert(before.unwound_var(&o, len, v));
                        assert(o.var_at(v));
                    }
                }
                strategy.on_unassign(var, old_val);
            }
            let ghost mid = *self;
            self.trail_lim.pop();
            proof {
                assert(self.trail_lim@ =~= o.trail_lim@.take(d - 1));
                assert forall|v: int| 0 <= v < o.n() implies #[trigger] self.unwound_var(
                    &o,
                    self.trail@.len() as int,
                    v,
                ) by {
                    assert(mid.unwound_var(&o, self.trail@.len() as int, v));
                }
            }
        }
        let ghost mid = *self;
        self.q_head = self.trail.len();
        proof {
            assert forall|v: int| 0 <= v < o.n() implies #[trigger] self.unwound_var(&o, self.trail@.len() as int, v) by {
                assert(mid.unwound_var(&o, self.trail@.len() as int, v));
            }
            lemma_unwound_wf(&o, self);
        }
    }
}

/// Cutting the trail at a level mark, or not at all, keeps the invariant.
pub(crate) proof fn lemma_unwound_wf(o: &Solver, s: &Solver)
    requires
        o.wf(),
        s.unwound(o, s.trail@.len() as int),
        s.dl() <= o.dl(),
        s.trail_lim@ == o.trail_lim@.take(s.dl()),
        s.dl() == o.dl() ==> s.trail@.len() == o.trail@.len(),
        s.dl() < o.dl() ==> s.trail@.len() == o.trail_lim@[s.dl()],
        s.q_head == s.trail@.len(),
    ensures
        s.wf(),
{
    let len = s.trail@.len() as int;
    let d = s.dl();
    assert(s.inv_sizes());
    assert forall|c: int| 0 <= c < s.clauses@.len() implies #[trigger] s.clause_ok(c) by {
        assert(o.clause_ok(c));
    }
    assert forall|k: int| 0 <= k < s.trail_lim@.len() implies (#[trigger] s.trail_lim@[k]) < s.trail@.len() by {
        assert(s.trail_lim@[k] == o.trail_lim@[k]);
        if d < o.dl() {
            assert(o.trail_lim@[k] < o.trail_lim@[d]);
        }
    }
    assert forall|j: int, k: int| 0 <= j < k < s.trail_lim@.len() implies (#[trigger] s.trail_lim@[j]) < (
    #[trigger] s.trail_lim@[k]) by {
        assert(s.trail_lim@[j] == o.trail_lim@[j]);
        assert(s.trail_lim@[k] == o.trail_lim@[k]);
    }
    assert(s.inv_lims()) by {
        if d > 0 {
            assert(s.trail_lim@[d - 1] < s.trail@.len());
        }
    }
    assert forall|i: int| 0 <= i < s.trail@.len() implies #[trigger] s.entry_at(i) by {
        assert(o.entry_at(i));
        let l = o.trail@[i];
        assert(s.trail@[i] == l);
        assert(s.unwound_var(o, len, l.spec_var()));
        let lv = o.lvl(l);
        if d < o.dl() {
            if lv > d {
                assert(o.trail_lim@[d] <= o.trail_lim@[lv - 1]) by {
                    if d < lv - 1 {
                        assert(o.trail_lim@[d] < o.trail_lim@[lv - 1]);
                    }
                }
            }
            if lv > 0 {
                assert(s.trail_lim@[lv - 1] == o.trail_lim@[lv - 1]);
            }
            if lv < d {
                assert(s.trail_lim@[lv] == o.trail_lim@[lv]);
            }
        }
    }
    assert forall|v: int| 0 <= v < s.n() implies #[trigger] s.var_at(v) by {
        assert(o.var_at(v));
        assert(s.unwound_var(o, len, v));
        if s.assignments@[v] != VarValue::Unassigned {
            assert(s.entry_at(o.pos@[v]));
            if s.level@[v] > 0 {
                assert(s.trail_lim@[s.level@[v] - 1] == o.trail_lim@[s.level@[v] - 1]);
            }
        }
        if s.reason@[v] is Some {
            let c = s.reason@[v]->0 as int;
            assert(o.reason_ok(v, c));
            assert(o.clause_ok(c));
            assert forall|k: int| 1 <= k < s.lits(c).len() implies s.val(#[trigger] s.lits(c)[k])
                == VarValue::False && s.at(s.lits(c)[k]) < s.pos@[v] by {
                let l = o.lits(c)[k];
                assert(o.val(l) == VarValue::False);
                assert(s.unwound_var(o, len, l.spec_var()));
            }
        }
    }
    assert(s.inv_watches());
    assert forall|c: int| 0 <= c < s.clauses@.len() implies #[trigger] s.clause_watched(c) by {
        assert(o.clause_watched(c));
    }
}

} // verus!
