//! How a state relates to an earlier one when the trail has only grown and
//! the clauses have only been reordered: the formula keeps its models.

use vstd::prelude::*;
use crate::lit::{
    clause_holds, lemma_same_lits_holds, lit_holds, same_lits, Lit, VarValue,
};
use crate::solver::propagate::{lemma_same_lits_trans, Action};
use crate::solver::Solver;

verus! {

impl Solver {
    /// Clause `c` has the literals and the mark it had in `o`.
    pub open(crate) spec fn clause_kept(&self, o: &Solver, c: int) -> bool {
        &&& same_lits(self.lits(c), o.lits(c))
        &&& self.clauses@[c].learned == o.clauses@[c].learned
    }

    /// Variable `v` has the value, level, reason and trail position it had in `o`.
    pub open(crate) spec fn var_kept(&self, o: &Solver, v: int) -> bool {
        &&& self.assignments@[v] == o.assignments@[v]
        &&& self.level@[v] == o.level@[v]
        &&& self.reason@[v] == o.reason@[v]
        &&& self.pos@[v] == o.pos@[v]
    }

    /// This state continues `o`: same variables, levels and clauses (up to
    /// the order of literals), a trail that starts with the trail of `o`,
    /// every variable assigned in `o` unchanged, and the same models.
    pub open(crate) spec fn extends(&self, o: &Solver) -> bool {
        &&& self.num_vars == o.num_vars
        &&& self.ok == o.ok
        &&& self.trail_lim == o.trail_lim
        &&& self.clauses@.len() == o.clauses@.len()
        &&& forall|c: int| 0 <= c < o.clauses@.len() ==> #[trigger] self.clause_kept(o, c)
        &&& o.trail@.len() <= self.trail@.len()
        &&& forall|i: int| 0 <= i < o.trail@.len() ==> #[trigger] self.trail@[i] == o.trail@[i]
        &&& forall|v: int|
            0 <= v < o.n() && o.assignments@[v] != VarValue::Unassigned ==> #[trigger] self.var_kept(o, v)
        &&& forall|m: Seq<bool>| #[trigger] self.models(m) <==> o.models(m)
        &&& o.q_head <= self.q_head
    }

    /// The store begins with the clauses of `data`, each with its literals
    /// in some order and with its mark; what follows was learned since.
    pub open(crate) spec fn keeps_data(&self, data: Seq<(Seq<Lit>, bool)>) -> bool {
        &&& self.clauses@.len() >= data.len()
        &&& forall|c: int|
            0 <= c < data.len() ==> same_lits(#[trigger] self.lits(c), data[c].0) && self.clauses@[c].learned == data[c].1
    }

    /// A state that continues `b` keeps what `b` kept.
    pub(crate) proof fn lemma_keeps_data(&self, b: &Solver, data: Seq<(Seq<Lit>, bool)>)
        requires
            b.keeps_data(data),
            self.clauses@.len() >= b.clauses@.len(),
            forall|c: int| 0 <= c < b.clauses@.len() ==> #[trigger] self.clause_kept(b, c),
        ensures
            self.keeps_data(data),
    {
        assert forall|c: int| 0 <= c < data.len() implies same_lits(#[trigger] self.lits(c), data[c].0)
            && self.clauses@[c].learned == data[c].1 by {
            assert(self.clause_kept(b, c));
            assert(same_lits(b.lits(c), data[c].0));
            lemma_same_lits_trans(self.lits(c), b.lits(c), data[c].0);
        }
    }

    /// A state keeps its own store.
    pub(crate) proof fn lemma_keeps_own(&self)
        ensures
            self.keeps_data(crate::preprocessing::clause_data(self.clauses@)),
    {
        self.lemma_extends_refl();
        assert forall|c: int| 0 <= c < self.clauses@.len() implies same_lits(
            #[trigger] self.lits(c),
            crate::preprocessing::clause_data(self.clauses@)[c].0,
        ) by {
            assert(self.clause_kept(self, c));
        }
    }

    pub(crate) proof fn lemma_extends_refl(&self)
        ensures
            self.extends(self),
    {
        assert forall|c: int| 0 <= c < self.clauses@.len() implies #[trigger] self.clause_kept(self, c) by {
            let ls = self.lits(c);
            assert forall|k: int| 0 <= k < ls.len() implies ls.contains(#[trigger] ls[k]) by {}
        }
    }

    pub(crate) proof fn lemma_extends_trans(&self, b: &Solver, o: &Solver)
        requires
            self.extends(b),
            b.extends(o),
        ensures
            self.extends(o),
    {
        assert forall|c: int| 0 <= c < o.clauses@.len() implies #[trigger] self.clause_kept(o, c) by {
            assert(self.clause_kept(b, c));
            assert(b.clause_kept(o, c));
            lemma_same_lits_trans(self.lits(c), b.lits(c), o.lits(c));
        }
        assert forall|i: int| 0 <= i < o.trail@.len() implies #[trigger] self.trail@[i] == o.trail@[i] by {
            assert(b.trail@[i] == o.trail@[i]);
        }
        assert forall|v: int| 0 <= v < o.n() && o.assignments@[v] != VarValue::Unassigned implies #[trigger] self.var_kept(
            o,
            v,
        ) by {
            assert(b.var_kept(o, v));
            assert(self.var_kept(b, v));
        }
        assert forall|m: Seq<bool>| #[trigger] self.models(m) <==> o.models(m) by {
            assert(self.models(m) <==> b.models(m));
            assert(b.models(m) <==> o.models(m));
        }
    }

    /// States with the same clauses up to order, the same root part of the
    /// trail and the same flag have the same models.
    pub(crate) proof fn lemma_models_same(&self, o: &Solver)
        requires
            self.num_vars == o.num_vars,
            self.ok == o.ok,
            self.clauses@.len() == o.clauses@.len(),
            forall|c: int| 0 <= c < o.clauses@.len() ==> #[trigger] self.clause_kept(o, c),
            self.root_end() == o.root_end(),
            forall|i: int| 0 <= i < o.root_end() ==> #[trigger] self.trail@[i] == o.trail@[i],
        ensures
            forall|m: Seq<bool>| #[trigger] self.models(m) <==> o.models(m),
    {
        assert forall|m: Seq<bool>| #[trigger] self.models(m) <==> o.models(m) by {
            if self.models(m) {
                assert forall|c: int| 0 <= c < o.clauses@.len() implies clause_holds(m, #[trigger] o.lits(c)) by {
                    assert(self.clause_kept(o, c));
                    assert(clause_holds(m, self.lits(c)));
                    lemma_same_lits_holds(m, self.lits(c), o.lits(c));
                }
                assert forall|i: int| 0 <= i < o.root_end() implies lit_holds(m, #[trigger] o.trail@[i]) by {
                    assert(self.trail@[i] == o.trail@[i]);
                    assert(lit_holds(m, self.trail@[i]));
                }
            }
            if o.models(m) {
                assert forall|c: int| 0 <= c < self.clauses@.len() implies clause_holds(m, #[trigger] self.lits(c)) by {
                    assert(self.clause_kept(o, c));
                    assert(clause_holds(m, o.lits(c)));
                    lemma_same_lits_holds(m, self.lits(c), o.lits(c));
                }
                assert forall|i: int| 0 <= i < self.root_end() implies lit_holds(m, #[trigger] self.trail@[i]) by {
                    assert(self.trail@[i] == o.trail@[i]);
                    assert(lit_holds(m, o.trail@[i]));
                }
            }
        }
    }

    /// A state that differs from `o` only in the queue head, which has not
    /// gone back, and in the watch lists continues `o`.
    pub(crate) proof fn lemma_requeued_extends(&self, o: &Solver)
        requires
            self.requeued(o),
        ensures
            self.extends(o),
    {
        o.lemma_extends_refl();
        assert forall|c: int| 0 <= c < o.clauses@.len() implies #[trigger] self.clause_kept(o, c) by {
            assert(o.clause_kept(o, c));
        }
        assert forall|v: int| 0 <= v < o.n() && o.assignments@[v] != VarValue::Unassigned implies #[trigger] self.var_kept(
            o,
            v,
        ) by {}
        self.lemma_models_same(o);
    }

    /// This state differs from `o` only in the queue head, which has not
    /// gone back, and in the contents of the watch lists.
    pub open(crate) spec fn requeued(&self, o: &Solver) -> bool {
        &&& self.reflagged(o)
        &&& self.ok == o.ok
    }

    /// This state differs from `o` only in the queue head, which has not
    /// gone back, in the contents of the watch lists and in the flag.
    pub open(crate) spec fn reflagged(&self, o: &Solver) -> bool {
        &&& self.clauses == o.clauses
        &&& self.assignments == o.assignments
        &&& self.level == o.level
        &&& self.reason == o.reason
        &&& self.trail == o.trail
        &&& self.trail_lim == o.trail_lim
        &&& self.num_vars == o.num_vars
        &&& self.analyze_seen == o.analyze_seen
        &&& self.analyze_toclear == o.analyze_toclear
        &&& self.analyze_clause == o.analyze_clause
        &&& self.pos == o.pos
        &&& self.watches@.len() == o.watches@.len()
        &&& o.q_head <= self.q_head <= self.trail@.len()
    }

    /// Such a state keeps the invariant if its watch lists are sound.
    pub(crate) proof fn lemma_requeued_wf(&self, o: &Solver)
        requires
            o.wf_core(),
            self.reflagged(o),
            self.inv_watches(),
        ensures
            self.wf_core(),
            o.lims_strict() ==> self.lims_strict(),
    {
        assert(self.inv_sizes());
        assert forall|d: int| 0 <= d < self.clauses@.len() implies #[trigger] self.clause_ok(d) by {
            assert(o.clause_ok(d));
        }
        assert forall|i: int| 0 <= i < self.trail@.len() implies #[trigger] self.entry_at(i) by {
            assert(o.entry_at(i));
        }
        assert forall|v: int| 0 <= v < self.n() implies #[trigger] self.var_at(v) by {
            assert(o.var_at(v));
            if self.reason@[v] is Some {
                let d = self.reason@[v]->0 as int;
                assert(o.reason_ok(v, d));
                assert forall|k: int| 1 <= k < self.lits(d).len() implies self.val(#[trigger] self.lits(d)[k])
                    == VarValue::False && self.at(self.lits(d)[k]) < self.pos@[v] by {
                    assert(o.val(o.lits(d)[k]) == VarValue::False);
                }
            }
        }
        assert(self.inv_lims());
        if o.lims_strict() {
            assert forall|k: int| 0 <= k < self.trail_lim@.len() implies (#[trigger] self.trail_lim@[k])
                < self.trail@.len() by {
                assert(o.trail_lim@[k] < o.trail@.len());
            }
        }
    }

    /// Revising a clause continues the state.
    pub(crate) proof fn lemma_revised_extends(&self, o: &Solver, c: int, p: Lit, action: Option<Action>, stop: bool)
        requires
            0 <= c < o.clauses@.len(),
            self.revised(o, c, p, action, stop),
        ensures
            self.extends(o),
    {
        assert forall|d: int| 0 <= d < o.clauses@.len() implies #[trigger] self.clause_kept(o, d) by {
            if d != c {
                assert(self.clauses@[d] == o.clauses@[d]);
                o.lemma_extends_refl();
                assert(o.clause_kept(o, d));
            }
        }
        assert forall|v: int| 0 <= v < o.n() && o.assignments@[v] != VarValue::Unassigned implies #[trigger] self.var_kept(
            o,
            v,
        ) by {}
        self.lemma_models_same(o);
    }

    /// Under a model of the formula, a literal that a clause forces at the
    /// root holds.
    pub(crate) proof fn lemma_forced_at_root(&self, c: int, lit: Lit, m: Seq<bool>)
        requires
            self.wf_core(),
            self.dl() == 0,
            self.forces(c, lit),
            self.models(m),
        ensures
            lit_holds(m, lit),
    {
        let ls = self.lits(c);
        assert(clause_holds(m, ls));
        let k = choose|k: int| 0 <= k < ls.len() && #[trigger] lit_holds(m, ls[k]);
        if k >= 1 {
            assert(self.clause_ok(c));
            assert(self.val(ls[k]) == VarValue::False);
            self.lemma_false_on_trail(ls[k]);
            assert(lit_holds(m, self.trail@[self.at(ls[k])]));
        }
    }

    /// Enqueueing a literal adds it to the formula if it lands at the root,
    /// and leaves the models alone otherwise.
    pub(crate) proof fn lemma_enqueued_models(&self, o: &Solver, lit: Lit, reason: Option<usize>, m: Seq<bool>)
        requires
            o.wf_core(),
            lit.spec_var() < o.n(),
            o.val(lit) == VarValue::Unassigned,
            self.enqueued(o, lit, reason),
        ensures
            self.models(m) <==> o.models(m) && (o.dl() == 0 ==> lit_holds(m, lit)),
    {
        if self.models(m) {
            assert forall|c: int| 0 <= c < o.clauses@.len() implies clause_holds(m, #[trigger] o.lits(c)) by {
                assert(clause_holds(m, self.lits(c)));
            }
            assert forall|i: int| 0 <= i < o.root_end() implies lit_holds(m, #[trigger] o.trail@[i]) by {
                assert(lit_holds(m, self.trail@[i]));
            }
            if o.dl() == 0 {
                assert(lit_holds(m, self.trail@[o.trail@.len() as int]));
            }
        }
        if o.models(m) && (o.dl() == 0 ==> lit_holds(m, lit)) {
            assert forall|c: int| 0 <= c < self.clauses@.len() implies clause_holds(m, #[trigger] self.lits(c)) by {
                assert(clause_holds(m, o.lits(c)));
            }
            assert forall|i: int| 0 <= i < self.root_end() implies lit_holds(m, #[trigger] self.trail@[i]) by {
                if i < o.trail@.len() {
                    assert(self.trail@[i] == o.trail@[i]);
                    assert(lit_holds(m, o.trail@[i]));
                }
            }
        }
    }

    /// Enqueueing a literal that a clause forces continues the state.
    pub(crate) proof fn lemma_enqueued_extends(&self, o: &Solver, lit: Lit, c: int)
        requires
            o.wf_core(),
            lit.spec_var() < o.n(),
            o.forces(c, lit),
            self.enqueued(o, lit, Some(c as usize)),
        ensures
            self.extends(o),
    {
        if o.val(lit) != VarValue::Unassigned {
            o.lemma_extends_refl();
        } else {
            assert forall|d: int| 0 <= d < o.clauses@.len() implies #[trigger] self.clause_kept(o, d) by {
                o.lemma_extends_refl();
                assert(o.clause_kept(o, d));
            }
            assert forall|v: int| 0 <= v < o.n() && o.assignments@[v] != VarValue::Unassigned implies #[trigger] self.var_kept(
                o,
                v,
            ) by {}
            assert forall|m: Seq<bool>| #[trigger] self.models(m) <==> o.models(m) by {
                self.lemma_enqueued_models(o, lit, Some(c as usize), m);
                if o.models(m) && o.dl() == 0 {
                    o.lemma_forced_at_root(c, lit, m);
                }
            }
        }
    }
}

} // verus!
