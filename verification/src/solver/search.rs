//! The search: propagate, and on a conflict learn a clause and jump back,
//! else decide, until the formula is refuted or every variable is assigned.

use vstd::prelude::*;
use crate::lit::{
    clause_holds, distinct, lit_holds, lits_in_range, model_of, Lit, VarValue,
};
use crate::solver::progress::{lemma_weight_positive, weight};
use crate::solver::Solver;
use crate::strategy::BranchingStrategy;

verus! {

impl Solver {
    /// Backtracking leaves the formula alone: the clauses stay, and so does
    /// the root part of the trail.
    pub(crate) proof fn lemma_backtracked_models(&self, o: &Solver, level: int)
        requires
            o.wf(),
            level >= 0,
            self.backtracked(o, level),
        ensures
            forall|m: Seq<bool>| #[trigger] self.models(m) <==> o.models(m),
    {
        assert(self.root_end() == o.root_end()) by {
            if o.dl() > 0 {
                assert(o.trail_lim@[0] <= o.trail@.len());
                if level > 0 && level < o.dl() {
                    assert(self.trail_lim@[0] == o.trail_lim@[0]);
                }
            }
        }
        assert forall|m: Seq<bool>| #[trigger] self.models(m) <==> o.models(m) by {
            if self.models(m) {
                assert forall|c: int| 0 <= c < o.clauses@.len() implies clause_holds(m, #[trigger] o.lits(c)) by {
                    assert(clause_holds(m, self.lits(c)));
                }
                assert forall|i: int| 0 <= i < o.root_end() implies lit_holds(m, #[trigger] o.trail@[i]) by {
                    assert(lit_holds(m, self.trail@[i]));
                }
            }
            if o.models(m) {
                assert forall|c: int| 0 <= c < self.clauses@.len() implies clause_holds(m, #[trigger] self.lits(c)) by {
                    assert(clause_holds(m, o.lits(c)));
                }
                assert forall|i: int| 0 <= i < self.root_end() implies lit_holds(m, #[trigger] self.trail@[i]) by {
                    assert(lit_holds(m, o.trail@[i]));
                }
            }
        }
    }

    /// After the jump back to `bl`, an asserting clause has its first literal
    /// unassigned and every other literal False.
    pub(crate) proof fn lemma_asserting_after(&self, o: &Solver, ls: Seq<Lit>, bl: int)
        requires
            o.wf(),
            o.asserting(ls, bl),
            self.backtracked(o, bl),
        ensures
            self.val(ls[0]) == VarValue::Unassigned,
            forall|k: int| 1 <= k < ls.len() ==> self.val(#[trigger] ls[k]) == VarValue::False,
            self.dl() == bl,
            ls.len() == 1 ==> self.dl() == 0,
    {
        let len = self.trail@.len() as int;
        o.lemma_false_on_trail(ls[0]);
        assert(self.unwound_var(o, len, ls[0].spec_var()));
        assert(o.entry_at(o.at(ls[0])));
        assert(o.at(ls[0]) >= len) by {
            let lv = o.lvl(ls[0]);
            assert(o.trail_lim@[bl] <= o.trail_lim@[lv - 1]) by {
                if bl < lv - 1 {
                    assert(o.trail_lim@[bl] < o.trail_lim@[lv - 1]);
                }
            }
        }
        assert forall|k: int| 1 <= k < ls.len() implies self.val(#[trigger] ls[k]) == VarValue::False by {
            assert(o.val(ls[k]) == VarValue::False);
            o.lemma_false_on_trail(ls[k]);
            assert(self.unwound_var(o, len, ls[k].spec_var()));
            assert(o.entry_at(o.at(ls[k])));
            let lv = o.lvl(ls[k]);
            assert(o.trail_lim@[lv] <= o.trail_lim@[bl]) by {
                if lv < bl {
                    assert(o.trail_lim@[lv] < o.trail_lim@[bl]);
                }
            }
        }
    }

    /// Stores a learned clause whose first literal is unassigned and whose
    /// other literals are False, watches it, and enqueues its first literal
    /// with the clause as the reason.
    pub(crate) fn learn(&mut self, learned: Vec<Lit>)
        requires
            old(self).wf(),
            old(self).q_head == old(self).trail@.len(),
            learned@.len() >= 1,
            lits_in_range(learned@, old(self).n() as nat),
            distinct(learned@),
            old(self).val(learned@[0]) == VarValue::Unassigned,
            forall|k: int| 1 <= k < learned@.len() ==> old(self).val(#[trigger] learned@[k]) == VarValue::False,
            learned@.len() == 1 ==> old(self).dl() == 0,
            forall|m: Seq<bool>| old(self).models(m) ==> clause_holds(m, learned@),
        ensures
            final(self).wf(),
            final(self).num_vars == old(self).num_vars,
            final(self).ok == old(self).ok,
            final(self).trail_lim == old(self).trail_lim,
            final(self).clauses@.len() == old(self).clauses@.len() + 1,
            forall|c: int| 0 <= c < old(self).clauses@.len() ==> #[trigger] final(self).clauses@[c] == old(self).clauses@[c],
            forall|m: Seq<bool>| #[trigger] final(self).models(m) <==> old(self).models(m),
            final(self).progress() == old(self).progress() + weight(
                old(self).num_vars as nat,
                (old(self).n() - old(self).dl()) as nat,
            ),
            old(self).guarded() ==> final(self).guarded(),
    {
        let ghost o = *self;
        let ghost ls = learned@;
        let c0 = learned[0];
        let lidx = self.attach_clause(learned, true);
        let ghost s1 = *self;
        proof {
            assert(s1.lits(lidx as int) == ls);
            assert(s1.forces(lidx as int, c0));
        }
        self.unchecked_enqueue(c0, Some(lidx));
        proof {
            o.lemma_levels_bounded();
            self.lemma_progress_enqueued(&s1, c0, Some(lidx));
            self.lemma_enqueued_extends(&s1, c0, lidx as int);
            assert forall|m: Seq<bool>| #[trigger] self.models(m) <==> o.models(m) by {
                assert(self.models(m) <==> s1.models(m));
                assert(s1.models(m) <==> o.models(m) && clause_holds(m, ls));
            }
            if o.guarded() {
                assert forall|c: int| 0 <= c < self.clauses@.len() implies #[trigger] self.clause_watched(c) by {
                    if c < lidx {
                        assert(o.clause_watched(c));
                    }
                    assert(s1.clause_watched(c));
                }
                assert forall|c: int| 0 <= c < self.clauses@.len() implies #[trigger] self.clause_guarded(
                    c,
                    self.q_head as int,
                ) by {
                    if c < lidx {
                        assert(o.clause_guarded(c, o.q_head as int));
                        assert(s1.clause_guarded(c, s1.q_head as int));
                        self.lemma_guard_enqueued(&s1, c0, Some(lidx), c, s1.q_head as int);
                    } else if ls.len() >= 2 {
                        assert(s1.clause_guarded(c, s1.q_head as int));
                        self.lemma_guard_enqueued(&s1, c0, Some(lidx), c, s1.q_head as int);
                    } else {
                        // a learned unit is True at the root from now on
                        assert(self.lits(c) == ls);
                        assert(self.val(ls[0]) == VarValue::True);
                        assert(self.lvl(ls[0]) == 0);
                    }
                }
            }
        }
    }

    /// This state is `o` with a new decision level opened at the end of the trail.
    pub open(crate) spec fn level_opened(&self, o: &Solver) -> bool {
        &&& self.clauses == o.clauses
        &&& self.watches == o.watches
        &&& self.assignments == o.assignments
        &&& self.level == o.level
        &&& self.reason == o.reason
        &&& self.trail == o.trail
        &&& self.trail_lim@ == o.trail_lim@.push(o.trail.len())
        &&& self.q_head == o.q_head
        &&& self.num_vars == o.num_vars
        &&& self.ok == o.ok
        &&& self.analyze_seen == o.analyze_seen
        &&& self.analyze_toclear == o.analyze_toclear
        &&& self.analyze_clause == o.analyze_clause
        &&& self.pos == o.pos
    }

    /// Opening a decision level when the queue is empty keeps the invariant,
    /// but for the new level being empty, and changes neither the formula
    /// nor what is guarded nor the measure.
    pub(crate) proof fn lemma_level_opened(&self, o: &Solver)
        requires
            o.wf(),
            o.q_head == o.trail@.len(),
            self.level_opened(o),
        ensures
            self.wf_core(),
            self.all_watched(),
            self.may_decide(),
            forall|m: Seq<bool>| #[trigger] self.models(m) <==> o.models(m),
            o.guarded() ==> self.guarded(),
            self.progress() == o.progress(),
    {
        assert forall|c: int| 0 <= c < self.clauses@.len() implies #[trigger] self.clause_watched(c) by {
            assert(o.clause_watched(c));
        }
        assert(self.inv_sizes());
        assert forall|d: int| 0 <= d < self.clauses@.len() implies #[trigger] self.clause_ok(d) by {
            assert(o.clause_ok(d));
        }
        assert forall|j: int, k: int| 0 <= j < k < self.trail_lim@.len() implies (#[trigger] self.trail_lim@[j]) < (
        #[trigger] self.trail_lim@[k]) by {
            if k < o.trail_lim@.len() {
                assert(o.trail_lim@[j] < o.trail_lim@[k]);
            } else {
                assert(o.trail_lim@[j] < o.trail@.len());
            }
        }
        assert forall|k: int| 0 <= k < self.trail_lim@.len() implies (#[trigger] self.trail_lim@[k]) <= self.trail@.len() by {
            if k < o.trail_lim@.len() {
                assert(o.trail_lim@[k] <= o.trail@.len());
            }
        }
        assert(self.inv_lims());
        assert forall|i: int| 0 <= i < self.trail@.len() implies #[trigger] self.entry_at(i) by {
            assert(o.entry_at(i));
            let lv = o.lvl(o.trail@[i]);
            if lv > 0 {
                assert(self.trail_lim@[lv - 1] == o.trail_lim@[lv - 1]);
            }
            if lv < o.dl() {
                assert(self.trail_lim@[lv] == o.trail_lim@[lv]);
            }
        }
        assert forall|v: int| 0 <= v < self.n() implies #[trigger] self.var_at(v) by {
            assert(o.var_at(v));
            if self.assignments@[v] != VarValue::Unassigned {
                assert(o.entry_at(o.pos@[v]));
                if self.level@[v] > 0 {
                    assert(self.trail_lim@[self.level@[v] - 1] == o.trail_lim@[self.level@[v] - 1]);
                }
            }
            if self.reason@[v] is Some {
                let d = self.reason@[v]->0 as int;
                assert(o.reason_ok(v, d));
                assert forall|k: int| 1 <= k < self.lits(d).len() implies self.val(#[trigger] self.lits(d)[k])
                    == VarValue::False && self.at(self.lits(d)[k]) < self.pos@[v] by {
                    assert(o.val(o.lits(d)[k]) == VarValue::False);
                }
            }
        }
        assert(self.inv_watches());
        assert(self.root_end() == o.root_end()) by {
            if o.dl() > 0 {
                assert(self.trail_lim@[0] == o.trail_lim@[0]);
            }
        }
        assert forall|m: Seq<bool>| #[trigger] self.models(m) <==> o.models(m) by {
            if self.models(m) {
                assert forall|c: int| 0 <= c < o.clauses@.len() implies clause_holds(m, #[trigger] o.lits(c)) by {
                    assert(clause_holds(m, self.lits(c)));
                }
                assert forall|i: int| 0 <= i < o.root_end() implies lit_holds(m, #[trigger] o.trail@[i]) by {
                    assert(lit_holds(m, self.trail@[i]));
                }
            }
            if o.models(m) {
                assert forall|c: int| 0 <= c < self.clauses@.len() implies clause_holds(m, #[trigger] self.lits(c)) by {
                    assert(clause_holds(m, o.lits(c)));
                }
                assert forall|i: int| 0 <= i < self.root_end() implies lit_holds(m, #[trigger] self.trail@[i]) by {
                    assert(lit_holds(m, o.trail@[i]));
                }
            }
        }
        if o.guarded() {
            assert forall|c: int| 0 <= c < self.clauses@.len() implies #[trigger] self.clause_watched(c) by {
                assert(o.clause_watched(c));
            }
            assert forall|c: int| 0 <= c < self.clauses@.len() implies #[trigger] self.clause_guarded(
                c,
                self.q_head as int,
            ) by {
                assert(o.clause_guarded(c, o.q_head as int));
            }
        }
    }

    /// The search proper. At the root the watched positions are first
    /// brought in line with the assignment. Returns `false` if the formula
    /// is unsatisfiable, `true` once every variable is assigned and nothing
    /// waits to be propagated; the assignment is then a model of the
    /// formula, if the search began at the root or with watches that guard
    /// their clauses. The formula keeps its models throughout.
    pub fn search<S: BranchingStrategy>(&mut self, strategy: &mut S) -> (r: bool)
        requires
            old(self).wf(),
            old(strategy).inv(),
            old(strategy).vars() == old(self).spec_num_vars(),
        ensures
            final(self).wf(),
            final(strategy).inv(),
            final(strategy).vars() == old(strategy).vars(),
            final(self).spec_num_vars() == old(self).spec_num_vars(),
            r == final(self).spec_ok(),
            forall|m: Seq<bool>| #[trigger] final(self).models(m) <==> old(self).models(m),
            !r ==> old(self).unsat(),
            r ==> old(self).spec_ok(),
            final(self).keeps_data(old(self).stored()),
            r ==> final(self).idle() && forall|v: int|
                0 <= v < final(self).spec_num_vars() ==> final(self).assignment()[v] != VarValue::Unassigned,
            r && (old(self).guarded() || old(self).spec_decision_level() == 0) ==> final(self).guarded() && final(self).models(model_of(final(self).assignment())),
            old(self).guarded() || old(self).spec_decision_level() == 0 ==> (r <==> exists|m: Seq<bool>|
                old(self).models(m)),
    {
        proof {
            self.lemma_keeps_own();
        }
        if !self.ok {
            return false;
        }
        let ghost o = *self;
        if self.decision_level() == 0 {
            self.settle();
            if !self.ok {
                proof {
                    assert forall|m: Seq<bool>| !o.models(m) by {
                        assert(self.models(m) <==> o.models(m));
                    }
                }
                return false;
            }
        }
        let ghost guard = o.guarded() || o.dl() == 0;
        loop
            invariant
                o == *old(self),
                self.keeps_data(o.stored()),
                guard == (o.guarded() || o.dl() == 0),
                self.wf(),
                self.ok,
                o.ok,
                self.num_vars == o.num_vars,
                strategy.inv(),
                strategy.vars() == self.num_vars,
                strategy.vars() == old(strategy).vars(),
                forall|m: Seq<bool>| #[trigger] self.models(m) <==> o.models(m),
                guard ==> self.guarded(),
            decreases self.progress_cap() - self.progress(),
        {
            let ghost a = *self;
            proof {
                a.lemma_progress_capped();
            }
            let conflict = self.propagate();
            let ghost b = *self;
            proof {
                b.lemma_progress_extends(&a);
                b.lemma_progress_capped();
                b.lemma_keeps_data(&a, o.stored());
            }
            match conflict {
                Some(conflict_idx) => {
                    if self.decision_level() == 0 {
                        self.ok = false;
                        proof {
                            b.lemma_root_conflict(conflict_idx as int);
                            self.lemma_flagged(&b);
                            b.lemma_extends_refl();
                            self.lemma_keeps_data(&b, o.stored());
                            assert forall|m: Seq<bool>| #[trigger] self.models(m) <==> o.models(m) by {
                                assert(b.models(m) <==> a.models(m));
                                assert(!b.models(m));
                            }
                            assert forall|m: Seq<bool>| !o.models(m) by {
                                assert(a.models(m) <==> o.models(m));
                                assert(b.models(m) <==> a.models(m));
                                assert(!b.models(m));
                            }
                        }
                        return false;
                    }
                    let (learned_clause, backtrack_level) = self.analyze(conflict_idx);
                    let ghost c = *self;
                    let mut involved_vars: Vec<usize> = Vec::new();
                    let mut k: usize = 0;
                    while k < learned_clause.len()
                        invariant
                            0 <= k <= learned_clause@.len(),
                            involved_vars@.len() == k,
                            lits_in_range(learned_clause@, c.n() as nat),
                            forall|i: int| 0 <= i < k ==> involved_vars@[i] == (#[trigger] learned_clause@[i]).spec_var(),
                        decreases learned_clause.len() - k,
                    {
                        involved_vars.push(learned_clause[k].var());
                        k = k + 1;
                    }
                    proof {
                        assert forall|i: int| 0 <= i < involved_vars@.len() implies involved_vars@[i] < strategy.vars() by {
                            assert(learned_clause@[i].spec_var() < c.n());
                        }
                    }
                    strategy.on_conflict(involved_vars.as_slice());
                    self.backtrack(backtrack_level, strategy);
                    let ghost d = *self;
                    proof {
                        d.lemma_asserting_after(&c, learned_clause@, backtrack_level as int);
                        d.lemma_backtracked_models(&c, backtrack_level as int);
                        d.lemma_progress_backtracked(&c, backtrack_level as int);
                        assert(c.progress() == b.progress());
                        if guard {
                            assert(b.guarded_at(b.q_head - 1));
                            assert(c.guarded_at(c.q_head - 1));
                            assert(c.trail_lim@[backtrack_level as int] <= c.trail_lim@[c.dl() - 1]) by {
                                if backtrack_level < c.dl() - 1 {
                                    assert(c.trail_lim@[backtrack_level as int] < c.trail_lim@[c.dl() - 1]);
                                }
                            }
                            d.lemma_guarded_backtracked(&c, backtrack_level as int, c.q_head - 1);
                        }
                        assert forall|m: Seq<bool>| d.models(m) implies clause_holds(m, learned_clause@) by {
                            assert(d.models(m) <==> c.models(m));
                            assert(c.models(m) <==> b.models(m));
                        }
                    }
                    self.learn(learned_clause);
                    proof {
                        d.lemma_extends_refl();
                        assert forall|k: int| 0 <= k < b.clauses@.len() implies #[trigger] self.clause_kept(&b, k) by {
                            assert(d.clause_kept(&d, k));
                            assert(self.clauses@[k] == d.clauses@[k]);
                        }
                        self.lemma_keeps_data(&b, o.stored());
                        assert forall|m: Seq<bool>| #[trigger] self.models(m) <==> o.models(m) by {
                            assert(self.models(m) <==> d.models(m));
                            assert(d.models(m) <==> c.models(m));
                            assert(c.models(m) <==> b.models(m));
                            assert(b.models(m) <==> a.models(m));
                        }
                        self.lemma_progress_capped();
                    }
                },
                None => {
                    match strategy.pick_branch(self) {
                        Some(lit) => {
                            self.trail_lim.push(self.trail.len());
                            let ghost c = *self;
                            proof {
                                c.lemma_level_opened(&b);
                            }
                            self.unchecked_enqueue(lit, None);
                            proof {
                                b.lemma_extends_refl();
                                assert forall|k: int| 0 <= k < b.clauses@.len() implies #[trigger] self.clause_kept(
                                    &b,
                                    k,
                                ) by {
                                    assert(b.clause_kept(&b, k));
                                }
                                self.lemma_keeps_data(&b, o.stored());
                                self.lemma_levels_bounded();
                                self.lemma_progress_enqueued(&c, lit, None);
                                lemma_weight_positive(c.num_vars as nat, (c.n() - c.dl()) as nat);
                                assert forall|m: Seq<bool>| #[trigger] self.models(m) <==> o.models(m) by {
                                    self.lemma_enqueued_models(&c, lit, None, m);
                                    assert(c.models(m) <==> b.models(m));
                                    assert(b.models(m) <==> a.models(m));
                                }
                                if guard {
                                    self.lemma_guarded_enqueued(&c, lit, None, c.q_head as int);
                                }
                                self.lemma_progress_capped();
                            }
                            strategy.on_assign(lit.var());
                        },
                        None => {
                            proof {
                                assert forall|m: Seq<bool>| #[trigger] self.models(m) <==> o.models(m) by {
                                    assert(b.models(m) <==> a.models(m));
                                }
                                if guard {
                                    self.lemma_total_is_model();
                                    assert(o.models(model_of(self.assignments@)));
                                }
                            }
                            return true;
                        },
                    }
                },
            }
        }
    }
}

} // verus!
