//! Bringing the watched positions of the stored clauses in line with the
//! assignment at the root, so that the watches guard every clause when the
//! search begins.

use vstd::prelude::*;
use crate::lit::{clause_falsified, clause_holds, lemma_same_lits_holds, lemma_swap_same_lits, lit_holds, VarValue};
use crate::solver::propagate::lemma_same_lits_trans;
use crate::solver::Solver;

verus! {

impl Solver {
    /// Clause `c`, if it has two or more literals, begins with a literal
    /// that is not False.
    pub open(crate) spec fn led(&self, c: int) -> bool {
        self.lits(c).len() >= 2 ==> self.val(self.lits(c)[0]) != VarValue::False
    }

    /// This state is `o` but for the order of the literals of clause `c`.
    pub open(crate) spec fn same_but_order(&self, o: &Solver, c: int) -> bool {
        &&& self.same_trail(o)
        &&& self.reason == o.reason
        &&& self.watches == o.watches
        &&& self.clauses@.len() == o.clauses@.len()
        &&& forall|k: int| 0 <= k < o.clauses@.len() && k != c ==> #[trigger] self.clauses@[k] == o.clauses@[k]
        &&& self.clause_kept(o, c)
    }

    /// A state with sound watch lists whose clauses are those of `o`, each
    /// with its literals in some order and unchanged if it begins with a
    /// literal that is not False, is sound.
    pub(crate) proof fn lemma_rewatched_wf(&self, o: &Solver)
        requires
            o.wf(),
            self.same_trail(o),
            self.reason == o.reason,
            self.watches@.len() == o.watches@.len(),
            self.clauses@.len() == o.clauses@.len(),
            forall|k: int|
                0 <= k < o.clauses@.len() && o.lits(k).len() >= 1 && o.val(o.lits(k)[0]) != VarValue::False
                    ==> #[trigger] self.clauses@[k] == o.clauses@[k],
            self.inv_clauses(),
            self.inv_watches(),
            self.all_watched(),
        ensures
            self.wf(),
    {
        assert(self.inv_sizes());
        assert forall|i: int| 0 <= i < self.trail@.len() implies #[trigger] self.entry_at(i) by {
            assert(o.entry_at(i));
        }
        assert forall|v: int| 0 <= v < self.n() implies #[trigger] self.var_at(v) by {
            assert(o.var_at(v));
            if self.assignments@[v] != VarValue::Unassigned {
                assert(o.entry_at(o.pos@[v]));
            }
            if self.reason@[v] is Some {
                let c = self.reason@[v]->0 as int;
                assert(o.reason_ok(v, c));
                assert(o.assignments@[v] != VarValue::Unassigned);
                assert(o.entry_at(o.pos@[v]));
                assert(o.val(o.lits(c)[0]) == VarValue::True);
                assert(self.clauses@[c] == o.clauses@[c]);
            }
        }
        assert(self.inv_lims());
        assert(self.lims_strict());
    }

    /// Exchanges the first literal of clause `c` with its first literal that
    /// is not False. Returns whether there is one; if not, nothing changes.
    pub(crate) fn lead_clause(&mut self, c: usize) -> (r: bool)
        requires
            c < old(self).clauses@.len(),
            old(self).lits(c as int).len() >= 1,
            old(self).inv_sizes(),
            old(self).inv_clauses(),
        ensures
            final(self).same_but_order(old(self), c as int),
            final(self).clause_ok(c as int),
            r ==> final(self).val(final(self).lits(c as int)[0])
                != VarValue::False,
            !r ==> *final(self) == *old(self) && clause_falsified(old(self).assignments@, old(self).lits(c as int)),
            old(self).val(old(self).lits(c as int)[0]) != VarValue::False ==> *final(self) == *old(self),
    {
        let ghost o = *self;
        let n = self.clauses[c].lits.len();
        proof {
            assert(o.clause_ok(c as int));
        }
        let mut j: usize = 0;
        while j < n
            invariant
                *self == o,
                o == *old(self),
                c < o.clauses@.len(),
                o.inv_sizes(),
                o.clause_ok(c as int),
                n == o.lits(c as int).len(),
                0 <= j <= n,
                forall|k: int| 0 <= k < j ==> o.val(#[trigger] o.lits(c as int)[k]) == VarValue::False,
            decreases n - j,
        {
            let l = self.clauses[c].lits[j];
            match Self::value_lit(&self.assignments, l) {
                VarValue::False => {},
                _ => {
                    if j == 0 {
                        proof {
                            lemma_swap_same_lits(o.lits(c as int), 0, 0);
                            assert(o.lits(c as int) =~= o.lits(c as int).update(0, o.lits(c as int)[0]).update(
                                0,
                                o.lits(c as int)[0],
                            ));
                        }
                        return true;
                    }
                    let first = self.clauses[c].lits[0];
                    self.clauses[c].lits[0] = l;
                    self.clauses[c].lits[j] = first;
                    proof {
                        let before = o.lits(c as int);
                        lemma_swap_same_lits(before, 0, j as int);
                        assert(self.lits(c as int) =~= before.update(0, before[j as int]).update(j as int, before[0]));
                        assert(self.clauses@[c as int].learned == o.clauses@[c as int].learned);
                        assert forall|k: int| 0 <= k < o.clauses@.len() && k != c implies #[trigger] self.clauses@[k]
                            == o.clauses@[k] by {}
                        assert(self.clause_kept(&o, c as int));
                        assert(self.same_trail(&o));
                        assert(self.reason == o.reason);
                        assert(self.watches == o.watches);
                        assert(self.clauses@.len() == o.clauses@.len());
                    }
                    return true;
                },
            }
            j = j + 1;
        }
        proof {
            lemma_swap_same_lits(o.lits(c as int), 0, 0);
            assert(o.lits(c as int) =~= o.lits(c as int).update(0, o.lits(c as int)[0]).update(0, o.lits(c as int)[0]));
        }
        false
    }

    /// Prepares the stored clauses for a search at the root. In every clause
    /// that begins with a False literal and has one that is not False, the
    /// first such literal changes place with the first literal; the watch
    /// lists are rebuilt; and the literal of every clause of one literal is
    /// made true. A clause without a literal that is not False is a
    /// contradiction. Afterwards the contradiction is recorded or the watches
    /// guard every clause. The formula keeps its models, and the variables
    /// their reasons.
    pub fn settle(&mut self)
        requires
            old(self).wf(),
            old(self).spec_decision_level() == 0,
        ensures
            final(self).wf(),
            final(self).spec_decision_level() == 0,
            final(self).spec_num_vars() == old(self).spec_num_vars(),
            final(self).spec_ok() ==> old(self).spec_ok() && final(self).guarded(),
            forall|m: Seq<bool>| #[trigger] final(self).models(m) <==> old(self).models(m),
            final(self).clause_seq().len() == old(self).clause_seq().len(),
            final(self).keeps_data(old(self).stored()),
            final(self).keeps_values(old(self)),
            !old(self).spec_ok() ==> *final(self) == *old(self),
            forall|v: int| 0 <= v < final(self).spec_num_vars() ==> final(self).reason_of(v) == old(self).reason_of(v),
            old(self).spec_ok() && !final(self).spec_ok() ==> exists|c: int|
                0 <= c < final(self).clause_seq().len() && clause_falsified(
                    final(self).assignment(),
                    #[trigger] final(self).clause_seq()[c],
                ),
    {
        let ghost o = *self;
        proof {
            o.lemma_extends_refl();
            o.lemma_keeps_own();
        }
        if !self.ok {
            return;
        }
        let mut dead = false;
        let mut c: usize = 0;
        while c < self.clauses.len()
            invariant
                o.wf(),
                o.dl() == 0,
                o.ok,
                self.same_trail(&o),
                self.reason == o.reason,
                self.watches == o.watches,
                self.clauses@.len() == o.clauses@.len(),
                0 <= c <= self.clauses@.len(),
                self.inv_sizes(),
                self.inv_clauses(),
                forall|k: int| 0 <= k < self.clauses@.len() ==> #[trigger] self.clause_kept(&o, k),
                forall|k: int|
                    0 <= k < o.clauses@.len() && o.lits(k).len() >= 1 && o.val(o.lits(k)[0]) != VarValue::False
                        ==> #[trigger] self.clauses@[k] == o.clauses@[k],
                !dead ==> forall|k: int| 0 <= k < c ==> #[trigger] self.led(k),
                dead ==> exists|k: int|
                    0 <= k < self.clauses@.len() && clause_falsified(self.assignments@, #[trigger] self.lits(k)),
            decreases self.clauses.len() - c,
        {
            if self.clauses[c].lits.len() >= 2 {
                let ghost b = *self;
                let found = self.lead_clause(c);
                proof {
                    assert forall|k: int|
                        0 <= k < o.clauses@.len() && o.lits(k).len() >= 1 && o.val(o.lits(k)[0]) != VarValue::False implies #[trigger] self.clauses@[k]
                        == o.clauses@[k] by {
                        assert(b.clauses@[k] == o.clauses@[k]);
                        if k != c {
                            assert(self.clauses@[k] == b.clauses@[k]);
                        }
                    }
                    assert forall|k: int| 0 <= k < self.clauses@.len() implies #[trigger] self.clause_kept(&o, k) by {
                        assert(b.clause_kept(&o, k));
                        if k == c {
                            lemma_same_lits_trans(self.lits(k), b.lits(k), o.lits(k));
                        } else {
                            assert(self.clauses@[k] == b.clauses@[k]);
                        }
                    }
                    assert forall|k: int| 0 <= k < self.clauses@.len() implies #[trigger] self.clause_ok(k) by {
                        if k != c {
                            assert(b.clause_ok(k));
                            assert(self.clauses@[k] == b.clauses@[k]);
                        }
                    }
                    if !dead && found {
                        assert forall|k: int| 0 <= k < c + 1 implies #[trigger] self.led(k) by {
                            if k < c {
                                assert(b.led(k));
                                assert(self.clauses@[k] == b.clauses@[k]);
                            }
                        }
                    }
                    if dead {
                        let k = choose|k: int|
                            0 <= k < b.clauses@.len() && clause_falsified(b.assignments@, #[trigger] b.lits(k));
                        if k == c {
                            assert forall|i: int| 0 <= i < self.lits(k).len() implies #[trigger] self.val(self.lits(k)[i])
                                == VarValue::False by {
                                assert(b.lits(k).contains(self.lits(k)[i]));
                            }
                        } else {
                            assert(self.clauses@[k] == b.clauses@[k]);
                        }
                        assert(clause_falsified(self.assignments@, self.lits(k)));
                    }
                }
                if !found {
                    dead = true;
                }
            }
            c = c + 1;
        }
        let ghost led = *self;
        let ghost s0 = *self;
        self.rebuild_watches();
        let ghost s1 = *self;
        proof {
            assert forall|k: int| 0 <= k < self.clauses@.len() implies #[trigger] self.clause_ok(k) by {
                assert(s0.clause_ok(k));
            }
            self.lemma_rewatched_wf(&o);
            assert forall|k: int| 0 <= k < self.clauses@.len() implies #[trigger] self.clause_kept(&o, k) by {
                assert(led.clause_kept(&o, k));
            }
            self.lemma_keeps_data(&o, o.stored());
            assert forall|m: Seq<bool>| #[trigger] self.models(m) <==> o.models(m) by {
                if self.models(m) {
                    assert forall|k: int| 0 <= k < o.clauses@.len() implies clause_holds(m, #[trigger] o.lits(k)) by {
                        assert(self.clause_kept(&o, k));
                        assert(clause_holds(m, self.lits(k)));
                        lemma_same_lits_holds(m, self.lits(k), o.lits(k));
                    }
                    assert forall|i: int| 0 <= i < o.root_end() implies lit_holds(m, #[trigger] o.trail@[i]) by {
                        assert(lit_holds(m, self.trail@[i]));
                    }
                }
                if o.models(m) {
                    assert forall|k: int| 0 <= k < self.clauses@.len() implies clause_holds(m, #[trigger] self.lits(k)) by {
                        assert(self.clause_kept(&o, k));
                        assert(clause_holds(m, o.lits(k)));
                        lemma_same_lits_holds(m, self.lits(k), o.lits(k));
                    }
                    assert forall|i: int| 0 <= i < self.root_end() implies lit_holds(m, #[trigger] self.trail@[i]) by {
                        assert(lit_holds(m, o.trail@[i]));
                    }
                }
            }
            assert(self.keeps_values(&o));
        }
        if dead {
            self.ok = false;
            proof {
                self.lemma_flagged(&s1);
                let k = choose|k: int|
                    0 <= k < led.clauses@.len() && clause_falsified(led.assignments@, #[trigger] led.lits(k));
                assert(clause_falsified(s1.assignments@, s1.lits(k)));
                s1.lemma_root_conflict(k);
                assert(self.clause_seq()[k] == s1.lits(k));
                assert(clause_falsified(self.assignment(), self.clause_seq()[k]));
                assert forall|m: Seq<bool>| #[trigger] self.models(m) <==> o.models(m) by {
                    assert(!s1.models(m));
                }
                assert forall|k: int| 0 <= k < self.clauses@.len() implies #[trigger] self.clause_kept(&o, k) by {
                    assert(s1.clause_kept(&o, k));
                }
                self.lemma_keeps_data(&o, o.stored());
            }
            return;
        }
        proof {
            assert forall|k: int| 0 <= k < self.clauses@.len() && self.lits(k).len() >= 2 implies #[trigger] self.clause_guarded(
                k,
                self.q_head as int,
            ) by {
                assert(led.led(k));
            }
            assert(self.taking_over(0));
        }
        let mut c: usize = 0;
        while c < self.clauses.len() && self.ok
            invariant
                o.wf(),
                o.ok,
                self.wf(),
                self.dl() == 0,
                self.num_vars == o.num_vars,
                self.clauses == s1.clauses,
                self.keeps_values(&o),
                self.reason@ == o.reason@,
                0 <= c <= self.clauses@.len(),
                forall|m: Seq<bool>| #[trigger] self.models(m) <==> o.models(m),
                self.ok ==> self.taking_over(c as int),
                !self.ok ==> exists|k: int|
                    0 <= k < self.clause_seq().len() && clause_falsified(
                        self.assignment(),
                        #[trigger] self.clause_seq()[k],
                    ),
            decreases self.clauses.len() - c + (if self.ok {
                1int
            } else {
                0int
            }),
        {
            let len = self.clauses[c].lits.len();
            let ghost b = *self;
            if len == 0 {
                self.ok = false;
                proof {
                    self.lemma_flagged(&b);
                    assert forall|m: Seq<bool>| #[trigger] self.models(m) <==> o.models(m) by {
                        if b.models(m) {
                            assert(clause_holds(m, b.lits(c as int)));
                        }
                    }
                    assert(self.clause_seq()[c as int] == b.lits(c as int));
                    assert(clause_falsified(self.assignment(), self.clause_seq()[c as int]));
                }
            } else if len == 1 {
                let l = self.clauses[c].lits[0];
                proof {
                    assert(self.clause_ok(c as int));
                }
                self.assert_root(l);
                proof {
                    self.lemma_keeps_after_root(&b, &o, l);
                    assert forall|m: Seq<bool>| #[trigger] self.models(m) <==> o.models(m) by {
                        if b.models(m) {
                            assert(clause_holds(m, b.lits(c as int)));
                            let k = choose|k: int|
                                0 <= k < b.lits(c as int).len() && #[trigger] lit_holds(m, b.lits(c as int)[k]);
                            assert(lit_holds(m, l));
                        }
                    }
                    if self.ok {
                        self.lemma_taking_over(&b, l, c as int);
                        assert(self.taking_over(c + 1));
                    } else {
                        assert(self.clause_seq()[c as int] == b.lits(c as int));
                        assert(self.assignments@ == b.assignments@);
                        assert(clause_falsified(self.assignment(), self.clause_seq()[c as int]));
                    }
                }
            } else {
                proof {
                    assert(self.taking_over(c + 1));
                }
            }
            c = c + 1;
        }
        proof {
            assert forall|k: int| 0 <= k < self.clauses@.len() implies #[trigger] self.clause_kept(&o, k) by {
                assert(s1.clause_kept(&o, k));
            }
            self.lemma_keeps_data(&o, o.stored());
            if self.ok {
                self.lemma_taken_over();
            }
        }
    }
}

} // verus!
