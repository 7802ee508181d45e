//! What the invariant of the solver says in terms that can be read from
//! outside: the shape of the trail, what the watched literals guarantee,
//! and what a learned clause asserts after the jump back.

use vstd::prelude::*;
use crate::lit::{clause_satisfied, lit_value, model_of, Lit, VarValue};
use crate::solver::Solver;

verus! {

impl Solver {
    /// The trail: the assigned literals in the order of their assignment.
    pub open(crate) spec fn trail_seq(&self) -> Seq<Lit> {
        self.trail@
    }

    /// For each decision level from 1 on, the trail position at which it began.
    pub open(crate) spec fn level_marks(&self) -> Seq<usize> {
        self.trail_lim@
    }

    /// The decision level at which variable `v` was assigned; 0 if it is unassigned.
    pub open(crate) spec fn level_of(&self, v: int) -> nat {
        self.level@[v] as nat
    }

    /// The clause that forced the value of variable `v`, if any did.
    pub open(crate) spec fn reason_of(&self, v: int) -> Option<usize> {
        self.reason@[v]
    }

    /// The trail holds no variable twice; it holds exactly the assigned
    /// variables, each with the literal that is True. The level marks
    /// increase strictly and lie within the trail, and a variable's level is
    /// the number of marks at or below its position.
    pub proof fn trail_is_consistent(&self)
        requires
            self.wf(),
        ensures
            forall|i: int, j: int|
                0 <= i < j < self.trail_seq().len() ==> self.trail_seq()[i].spec_var() != self.trail_seq()[j].spec_var(),
            forall|i: int|
                0 <= i < self.trail_seq().len() ==> (#[trigger] self.trail_seq()[i]).spec_var() < self.spec_num_vars()
                    && lit_value(self.assignment(), self.trail_seq()[i]) == VarValue::True,
            forall|v: int|
                0 <= v < self.spec_num_vars() && #[trigger] self.assignment()[v] != VarValue::Unassigned ==> exists|
                    i: int,
                | 0 <= i < self.trail_seq().len() && #[trigger] self.trail_seq()[i].spec_var() == v,
            forall|j: int, k: int|
                0 <= j < k < self.level_marks().len() ==> self.level_marks()[j] < self.level_marks()[k],
            forall|k: int| 0 <= k < self.level_marks().len() ==> (#[trigger] self.level_marks()[k]) < self.trail_seq().len(),
            forall|i: int, k: int|
                0 <= i < self.trail_seq().len() && 0 <= k < self.level_marks().len() ==> ((
                #[trigger] self.level_marks()[k]) <= i <==> k < self.level_of((#[trigger] self.trail_seq()[i]).spec_var())),
            self.spec_decision_level() <= self.trail_seq().len() <= self.spec_num_vars(),
    {
        self.lemma_levels_bounded();
        assert forall|i: int, j: int| 0 <= i < j < self.trail@.len() implies self.trail@[i].spec_var()
            != self.trail@[j].spec_var() by {
            assert(self.entry_at(i));
            assert(self.entry_at(j));
        }
        assert forall|i: int| 0 <= i < self.trail@.len() implies (#[trigger] self.trail@[i]).spec_var() < self.n()
            && lit_value(self.assignments@, self.trail@[i]) == VarValue::True by {
            assert(self.entry_at(i));
        }
        assert forall|v: int| 0 <= v < self.n() && #[trigger] self.assignments@[v] != VarValue::Unassigned implies exists|
            i: int,
        | 0 <= i < self.trail@.len() && #[trigger] self.trail@[i].spec_var() == v by {
            assert(self.var_at(v));
            assert(self.trail@[self.pos@[v]].spec_var() == v);
        }
        assert forall|i: int, k: int| 0 <= i < self.trail@.len() && 0 <= k < self.trail_lim@.len() implies ((
        #[trigger] self.trail_lim@[k]) <= i <==> k < self.level@[(#[trigger] self.trail@[i]).spec_var()]) by {
            assert(self.entry_at(i));
            let lv = self.lvl(self.trail@[i]);
            if k < lv {
                if k < lv - 1 {
                    assert(self.trail_lim@[k] < self.trail_lim@[lv - 1]);
                }
            } else {
                if lv < k {
                    assert(self.trail_lim@[lv] < self.trail_lim@[k]);
                }
            }
        }
    }

    /// In a sound state no variable is twice on the trail, and a variable is
    /// on the trail exactly if it is assigned.
    pub proof fn trail_holds_each_variable_once(&self)
        requires
            self.wf_core(),
        ensures
            self.trail_distinct(),
    {
        assert forall|i: int, j: int| 0 <= i < j < self.trail@.len() implies (#[trigger] self.trail@[i]).spec_var()
            != (#[trigger] self.trail@[j]).spec_var() by {
            assert(self.entry_at(i));
            assert(self.entry_at(j));
        }
        assert forall|v: int| 0 <= v < self.n() implies (#[trigger] self.assignments@[v] != VarValue::Unassigned
            <==> exists|i: int| 0 <= i < self.trail@.len() && (#[trigger] self.trail@[i]).spec_var() == v) by {
            assert(self.var_at(v));
            if self.assignments@[v] != VarValue::Unassigned {
                assert(self.trail@[self.pos@[v]].spec_var() == v);
            }
            if exists|i: int| 0 <= i < self.trail@.len() && (#[trigger] self.trail@[i]).spec_var() == v {
                let i = choose|i: int| 0 <= i < self.trail@.len() && (#[trigger] self.trail@[i]).spec_var() == v;
                assert(self.entry_at(i));
            }
        }
    }

    /// An unassigned variable has level 0 and no reason. The reason of an
    /// assigned variable is a stored clause that begins with the variable's
    /// True literal and whose other literals are False; a variable above the
    /// root without a reason is the first of its level, a decision.
    pub proof fn reasons_are_sound(&self, v: int)
        requires
            self.wf(),
            0 <= v < self.spec_num_vars(),
        ensures
            self.assignment()[v] == VarValue::Unassigned ==> self.level_of(v) == 0 && self.reason_of(v) is None,
            self.reason_of(v) is Some ==> {
                let c = self.reason_of(v)->0 as int;
                &&& 0 <= c < self.clause_seq().len()
                &&& self.clause_seq()[c].len() >= 1
                &&& self.clause_seq()[c][0].spec_var() == v
                &&& lit_value(self.assignment(), self.clause_seq()[c][0]) == VarValue::True
                &&& forall|k: int|
                    1 <= k < self.clause_seq()[c].len() ==> lit_value(self.assignment(), #[trigger] self.clause_seq()[c][k])
                        == VarValue::False
            },
            self.assignment()[v] != VarValue::Unassigned && self.reason_of(v) is None && self.level_of(v) > 0 ==> exists|
                i: int,
            |
                0 <= i < self.trail_seq().len() && #[trigger] self.trail_seq()[i].spec_var() == v && i
                    == self.level_marks()[self.level_of(v) - 1],
    {
        assert(self.var_at(v));
        if self.reason@[v] is Some {
            let c = self.reason@[v]->0 as int;
            assert(self.reason_ok(v, c));
            assert(self.entry_at(self.pos@[v]));
            assert(self.clause_seq()[c] == self.lits(c));
            assert forall|k: int| 1 <= k < self.lits(c).len() implies lit_value(
                self.assignments@,
                #[trigger] self.lits(c)[k],
            ) == VarValue::False by {
                assert(self.val(self.lits(c)[k]) == VarValue::False);
            }
        }
        if self.assignments@[v] != VarValue::Unassigned && self.reason@[v] is None && self.level@[v] > 0 {
            let i = self.pos@[v];
            assert(self.entry_at(i));
            assert(0 <= i < self.trail_seq().len() && self.trail_seq()[i].spec_var() == v && i
                == self.level_marks()[self.level_of(v) - 1]);
        }
    }

    /// The two-watched-literal invariant when nothing waits to be
    /// propagated: a clause of two or more literals has a first or second
    /// literal that is not False, or some literal that is True; a clause of
    /// one literal is True; no clause is empty.
    pub proof fn watched_literals_guard(&self, c: int)
        requires
            self.wf(),
            self.guarded(),
            self.idle(),
            0 <= c < self.clause_seq().len(),
        ensures
            self.clause_seq()[c].len() >= 1,
            self.clause_seq()[c].len() == 1 ==> lit_value(self.assignment(), self.clause_seq()[c][0]) == VarValue::True,
            self.clause_seq()[c].len() >= 2 ==> lit_value(self.assignment(), self.clause_seq()[c][0]) != VarValue::False
                || lit_value(self.assignment(), self.clause_seq()[c][1]) != VarValue::False || clause_satisfied(
                self.assignment(),
                self.clause_seq()[c],
            ),
    {
        let ls = self.lits(c);
        assert(self.clause_seq()[c] == ls);
        assert(self.clause_guarded(c, self.q_head as int));
        assert(self.clause_ok(c));
        if ls.len() >= 2 && self.val(ls[0]) == VarValue::False && self.val(ls[1]) == VarValue::False {
            self.lemma_false_on_trail(ls[0]);
            self.lemma_false_on_trail(ls[1]);
            let j = choose|j: int|
                0 <= j < ls.len() && self.val(#[trigger] ls[j]) == VarValue::True && (self.lvl(ls[j]) <= self.lvl(ls[0])
                    || self.lvl(ls[j]) <= self.lvl(ls[1]));
            assert(lit_value(self.assignments@, ls[j]) == VarValue::True);
        }
    }

    /// The strict two-watched-literal invariant when nothing waits to be
    /// propagated: a clause of two or more literals whose first or second
    /// literal is False has a True literal; so a clause without a True literal
    /// has its first two literals unassigned, and no forced literal is
    /// missing.
    pub proof fn false_watch_has_true_literal(&self, c: int)
        requires
            self.wf(),
            self.strict(),
            self.idle(),
            0 <= c < self.clause_seq().len(),
            self.clause_seq()[c].len() >= 2,
        ensures
            lit_value(self.assignment(), self.clause_seq()[c][0]) == VarValue::False || lit_value(
                self.assignment(),
                self.clause_seq()[c][1],
            ) == VarValue::False ==> clause_satisfied(self.assignment(), self.clause_seq()[c]),
            !clause_satisfied(self.assignment(), self.clause_seq()[c]) ==> lit_value(
                self.assignment(),
                self.clause_seq()[c][0],
            ) == VarValue::Unassigned && lit_value(self.assignment(), self.clause_seq()[c][1]) == VarValue::Unassigned
                && self.clause_seq()[c][0] != self.clause_seq()[c][1],
    {
        let ls = self.lits(c);
        assert(self.clause_seq()[c] == ls);
        assert(self.clause_strict(c, self.q_head as int));
        assert(self.clause_ok(c));
        if self.val(ls[0]) == VarValue::False {
            self.lemma_false_on_trail(ls[0]);
        }
        if self.val(ls[1]) == VarValue::False {
            self.lemma_false_on_trail(ls[1]);
        }
        if !clause_satisfied(self.assignment(), ls) {
            assert(lit_value(self.assignment(), ls[0]) != VarValue::True);
            assert(lit_value(self.assignment(), ls[1]) != VarValue::True);
        }
    }

    /// When nothing waits to be propagated and the two-watched-literal
    /// invariant holds, no stored clause has all its literals False.
    pub proof fn no_clause_falsified_when_idle(&self, c: int)
        requires
            self.wf(),
            self.guarded(),
            self.idle(),
            0 <= c < self.clause_seq().len(),
        ensures
            !crate::lit::clause_falsified(self.assignment(), self.clause_seq()[c]),
    {
        self.watched_literals_guard(c);
        let ls = self.clause_seq()[c];
        if crate::lit::clause_falsified(self.assignment(), ls) {
            assert(lit_value(self.assignment(), ls[0]) == VarValue::False);
            if ls.len() >= 2 {
                assert(lit_value(self.assignment(), ls[1]) == VarValue::False);
                let k = choose|k: int| 0 <= k < ls.len() && #[trigger] lit_value(self.assignment(), ls[k]) == VarValue::True;
                assert(lit_value(self.assignment(), ls[k]) == VarValue::False);
            }
        }
    }

    /// When every variable is assigned, nothing waits to be propagated and
    /// the two-watched-literal invariant holds, the assignment makes every
    /// stored clause and every literal assigned at the root hold.
    pub proof fn total_assignment_is_model(&self)
        requires
            self.wf(),
            self.spec_ok(),
            self.guarded(),
            self.idle(),
            forall|v: int| 0 <= v < self.spec_num_vars() ==> self.assignment()[v] != VarValue::Unassigned,
        ensures
            self.models(model_of(self.assignment())),
            forall|c: int| 0 <= c < self.clause_seq().len() ==> clause_satisfied(self.assignment(), #[trigger] self.clause_seq()[c]),
    {
        assert forall|v: int| 0 <= v < self.n() implies self.assignments@[v] != VarValue::Unassigned by {
            assert(self.assignment()[v] != VarValue::Unassigned);
        }
        self.lemma_total_is_model();
        assert forall|c: int| 0 <= c < self.clause_seq().len() implies clause_satisfied(
            self.assignment(),
            #[trigger] self.clause_seq()[c],
        ) by {
            assert(self.clause_guarded(c, self.q_head as int));
            self.lemma_guarded_satisfied(c);
            assert(self.clause_seq()[c] == self.lits(c));
        }
    }

    /// After the jump back to the level that conflict analysis computed, the
    /// first literal of the learned clause is unassigned and every other
    /// literal of it is False: the clause forces its first literal.
    pub proof fn learned_clause_asserts(&self, before: &Solver, learned: Seq<Lit>, level: int)
        requires
            before.wf(),
            before.asserting(learned, level),
            self.backtracked(before, level),
        ensures
            lit_value(self.assignment(), learned[0]) == VarValue::Unassigned,
            forall|k: int| 1 <= k < learned.len() ==> lit_value(self.assignment(), #[trigger] learned[k]) == VarValue::False,
            self.spec_decision_level() == level,
    {
        self.lemma_asserting_after(before, learned, level);
        assert forall|k: int| 1 <= k < learned.len() implies lit_value(self.assignments@, #[trigger] learned[k])
            == VarValue::False by {
            assert(self.val(learned[k]) == VarValue::False);
        }
    }
}

} // verus!
