//! Adding clauses to the solver, and rebuilding the watch lists from the
//! clause store.

use vstd::prelude::*;
use crate::lit::{
    clause_falsified, clause_holds, clause_satisfied, distinct, lit_holds, lit_value, lits_in_range, Clause, Lit,
    VarValue,
};
use crate::normalize::{lemma_normal_form_same, normal_form, sort_dedup};
use crate::solver::{entry_fresh, entry_ok, has_entry, list_ok, Solver, Watcher};

verus! {

impl Solver {
    /// This state is `o` with the clause `cl` appended to the store.
    pub open(crate) spec fn clause_pushed(&self, o: &Solver, cl: Clause) -> bool {
        &&& self.clauses@ == o.clauses@.push(cl)
        &&& self.watches == o.watches
        &&& self.assignments == o.assignments
        &&& self.level == o.level
        &&& self.reason == o.reason
        &&& self.trail == o.trail
        &&& self.trail_lim == o.trail_lim
        &&& self.q_head == o.q_head
        &&& self.num_vars == o.num_vars
        &&& self.ok == o.ok
        &&& self.analyze_seen == o.analyze_seen
        &&& self.analyze_toclear == o.analyze_toclear
        &&& self.analyze_clause == o.analyze_clause
        &&& self.pos == o.pos
    }

    /// Appending a clause with literals in range, none twice, keeps the
    /// invariant and adds the clause to the formula.
    pub(crate) proof fn lemma_clause_pushed(&self, o: &Solver, cl: Clause)
        requires
            o.wf_core(),
            self.clause_pushed(o, cl),
            lits_in_range(cl.lits@, o.n() as nat),
            distinct(cl.lits@),
        ensures
            self.wf_core(),
            o.lims_strict() ==> self.lims_strict(),
            forall|m: Seq<bool>| #[trigger] self.models(m) <==> o.models(m) && clause_holds(m, cl.lits@),
            forall|c: int, q: int|
                0 <= c < o.clauses@.len() && o.clause_guarded(c, q) ==> #[trigger] self.clause_guarded(c, q),
            forall|c: int, q: int|
                0 <= c < o.clauses@.len() && o.clause_strict(c, q) ==> #[trigger] self.clause_strict(c, q),
            forall|c: int| 0 <= c < o.clauses@.len() && o.clause_watched(c) ==> #[trigger] self.clause_watched(c),
    {
        let top = o.clauses@.len() as int;
        assert forall|c: int, q: int| 0 <= c < o.clauses@.len() && o.clause_strict(c, q) implies #[trigger] self.clause_strict(
            c,
            q,
        ) by {
            assert(self.clauses@[c] == o.clauses@[c]);
        }
        assert(self.inv_sizes());
        assert forall|d: int| 0 <= d < self.clauses@.len() implies #[trigger] self.clause_ok(d) by {
            if d < top {
                assert(o.clause_ok(d));
                assert(self.clauses@[d] == o.clauses@[d]);
            }
        }
        assert forall|i: int| 0 <= i < self.trail@.len() implies #[trigger] self.entry_at(i) by {
            assert(o.entry_at(i));
        }
        assert forall|v: int| 0 <= v < self.n() implies #[trigger] self.var_at(v) by {
            assert(o.var_at(v));
            if self.reason@[v] is Some {
                let d = self.reason@[v]->0 as int;
                assert(o.reason_ok(v, d));
                assert(self.clauses@[d] == o.clauses@[d]);
                assert forall|k: int| 1 <= k < self.lits(d).len() implies self.val(#[trigger] self.lits(d)[k])
                    == VarValue::False && self.at(self.lits(d)[k]) < self.pos@[v] by {
                    assert(o.val(o.lits(d)[k]) == VarValue::False);
                }
            }
        }
        assert(self.inv_lims());
        assert forall|x: int| 0 <= x < self.watches@.len() implies list_ok(
            self.clauses@,
            self.n(),
            x,
            #[trigger] self.watches@[x]@,
        ) by {
            let list = self.watches@[x]@;
            assert(list_ok(o.clauses@, o.n(), x, list));
            assert forall|e: int| 0 <= e < list.len() implies entry_ok(self.clauses@, self.n(), x, #[trigger] list[e]) by {
                assert(entry_ok(o.clauses@, o.n(), x, list[e]));
                assert(self.clauses@[list[e].clause_idx as int] == o.clauses@[list[e].clause_idx as int]);
            }
        }
        if o.lims_strict() {
            assert forall|k: int| 0 <= k < self.trail_lim@.len() implies (#[trigger] self.trail_lim@[k])
                < self.trail@.len() by {
                assert(o.trail_lim@[k] < o.trail@.len());
            }
        }
        assert forall|m: Seq<bool>| #[trigger] self.models(m) <==> o.models(m) && clause_holds(m, cl.lits@) by {
            if self.models(m) {
                assert forall|c: int| 0 <= c < o.clauses@.len() implies clause_holds(m, #[trigger] o.lits(c)) by {
                    assert(self.clauses@[c] == o.clauses@[c]);
                    assert(clause_holds(m, self.lits(c)));
                }
                assert(clause_holds(m, self.lits(top)));
                assert forall|i: int| 0 <= i < o.root_end() implies lit_holds(m, #[trigger] o.trail@[i]) by {
                    assert(lit_holds(m, self.trail@[i]));
                }
            }
            if o.models(m) && clause_holds(m, cl.lits@) {
                assert forall|c: int| 0 <= c < self.clauses@.len() implies clause_holds(m, #[trigger] self.lits(c)) by {
                    if c < top {
                        assert(self.clauses@[c] == o.clauses@[c]);
                        assert(clause_holds(m, o.lits(c)));
                    }
                }
                assert forall|i: int| 0 <= i < self.root_end() implies lit_holds(m, #[trigger] self.trail@[i]) by {
                    assert(lit_holds(m, o.trail@[i]));
                }
            }
        }
        assert forall|c: int, q: int| 0 <= c < o.clauses@.len() && o.clause_guarded(c, q) implies #[trigger] self.clause_guarded(
            c,
            q,
        ) by {
            assert(self.clauses@[c] == o.clauses@[c]);
        }
        assert forall|c: int| 0 <= c < o.clauses@.len() && o.clause_watched(c) implies #[trigger] self.clause_watched(
            c,
        ) by {
            assert(self.clauses@[c] == o.clauses@[c]);
        }
    }

    /// Appending a watch-list entry keeps the formula and what is watched and
    /// guarded.
    pub(crate) proof fn lemma_watch_pushed_same(&self, o: &Solver, y: int, w: Watcher)
        requires
            self.watch_pushed(o, y, w),
        ensures
            forall|m: Seq<bool>| #[trigger] self.models(m) <==> o.models(m),
            forall|c: int, q: int|
                0 <= c < o.clauses@.len() && o.clause_guarded(c, q) ==> #[trigger] self.clause_guarded(c, q),
            forall|c: int, q: int|
                0 <= c < o.clauses@.len() && o.clause_strict(c, q) ==> #[trigger] self.clause_strict(c, q),
            forall|c: int, x: int|
                0 <= c < o.clauses@.len() && 0 <= x < o.watches@.len() && has_entry(o.watches@[x]@, c)
                    ==> #[trigger] has_entry(self.watches@[x]@, c),
            has_entry(self.watches@[y]@, w.clause_idx as int),
    {
        assert forall|m: Seq<bool>| #[trigger] self.models(m) <==> o.models(m) by {
            if self.models(m) {
                assert forall|c: int| 0 <= c < o.clauses@.len() implies clause_holds(m, #[trigger] o.lits(c)) by {
                    assert(clause_holds(m, self.lits(c)));
                }
                assert forall|i: int| 0 <= i < o.root_end() implies lit_holds(m, #[trigger] o.trail@[i]) by {
                    assert(lit_holds(m, self.trail@[i]));
                }
            }
            if o.models(m) {
                assert forall|c: int| 0 <= c < self.clauses@.len() implies clause_holds(m, #[trigger] self.lits(c)) by {
                    assert(clause_holds(m, o.lits(c)));
                }
                assert forall|i: int| 0 <= i < self.root_end() implies lit_holds(m, #[trigger] self.trail@[i]) by {
                    assert(lit_holds(m, o.trail@[i]));
                }
            }
        }
        assert forall|c: int, x: int|
            0 <= c < o.clauses@.len() && 0 <= x < o.watches@.len() && has_entry(
                o.watches@[x]@,
                c,
            ) implies #[trigger] has_entry(self.watches@[x]@, c) by {
            let list = o.watches@[x]@;
            let e = choose|e: int| 0 <= e < list.len() && (#[trigger] list[e]).clause_idx == c;
            if x == y {
                assert(self.watches@[x]@[e] == list[e]);
            } else {
                assert(self.watches@[x] == o.watches@[x]);
                assert(self.watches@[x]@[e] == list[e]);
            }
        }
        let list = self.watches@[y]@;
        assert(list[list.len() - 1].clause_idx == w.clause_idx);
    }

    /// A clause all of whose literals are False at the root refutes the formula.
    pub(crate) proof fn lemma_root_conflict(&self, c: int)
        requires
            self.wf_core(),
            self.dl() == 0,
            0 <= c < self.clauses@.len(),
            clause_falsified(self.assignments@, self.lits(c)),
        ensures
            self.unsat(),
    {
        assert forall|m: Seq<bool>| !self.models(m) by {
            if self.models(m) {
                let ls = self.lits(c);
                assert(clause_holds(m, ls));
                let k = choose|k: int| 0 <= k < ls.len() && #[trigger] lit_holds(m, ls[k]);
                assert(self.clause_ok(c));
                assert(lit_value(self.assignments@, ls[k]) == VarValue::False);
                self.lemma_false_on_trail(ls[k]);
                assert(lit_holds(m, self.trail@[self.at(ls[k])]));
            }
        }
    }

    /// The trail begins with the trail of `o`, and every variable that was
    /// assigned in `o` has the value it had.
    pub open(crate) spec fn keeps_values(&self, o: &Solver) -> bool {
        &&& o.trail@.len() <= self.trail@.len()
        &&& forall|i: int| 0 <= i < o.trail@.len() ==> #[trigger] self.trail@[i] == o.trail@[i]
        &&& forall|v: int|
            0 <= v < o.n() && #[trigger] o.assignments@[v] != VarValue::Unassigned ==> self.assignments@[v]
                == o.assignments@[v]
    }

    /// The first two literals of `ls` can guard it under the current
    /// assignment: one of them is not False, or some literal of `ls` is True.
    pub open(crate) spec fn can_watch(&self, ls: Seq<Lit>) -> bool {
        ||| lit_value(self.assignments@, ls[0]) != VarValue::False
        ||| lit_value(self.assignments@, ls[1]) != VarValue::False
        ||| clause_satisfied(self.assignments@, ls)
    }

    /// The first two literals of `ls` can guard it strictly under the
    /// current assignment: neither of them is False, or some literal of `ls`
    /// is True.
    pub open(crate) spec fn can_watch_strictly(&self, ls: Seq<Lit>) -> bool {
        ||| lit_value(self.assignments@, ls[0]) != VarValue::False && lit_value(self.assignments@, ls[1])
            != VarValue::False
        ||| clause_satisfied(self.assignments@, ls)
    }

    /// Adds a clause to the formula. The clause is brought into normal form.
    /// Empty, it is a contradiction. With one literal, that literal is
    /// enqueued at the root and propagated; a literal that is False, or a
    /// conflict, is a contradiction. Longer, it is stored and watched through
    /// its first two literals, whatever was recorded before. Returns `false`
    /// on a contradiction, which is then recorded for good: for one literal
    /// that is not False and watches that guard their clauses, exactly when
    /// a stored clause is falsified once the literal has been propagated.
    pub fn add_clause(&mut self, lits: Vec<Lit>) -> (r: bool)
        requires
            old(self).wf(),
            old(self).spec_decision_level() == 0,
            lits_in_range(lits@, old(self).spec_num_vars()),
        ensures
            final(self).wf(),
            final(self).spec_decision_level() == 0,
            final(self).spec_num_vars() == old(self).spec_num_vars(),
            final(self).spec_ok() == (old(self).spec_ok() && r),
            forall|m: Seq<bool>| #[trigger] final(self).models(m) <==> old(self).models(m) && clause_holds(m, lits@),
            lits@.len() == 0 ==> !r,
            normal_form(lits@).len() >= 2 ==> r && final(self).assignment() == old(self).assignment()
                && final(self).clause_seq() == old(self).clause_seq().push(normal_form(lits@)),
            normal_form(lits@).len() < 2 ==> final(self).clause_seq().len() == old(self).clause_seq().len(),
            normal_form(lits@).len() == 1 && lit_value(old(self).assignment(), normal_form(lits@)[0])
                == VarValue::False ==> !r,
            old(self).guarded() && r && (normal_form(lits@).len() >= 2 ==> old(self).can_watch(normal_form(lits@)))
                ==> final(self).guarded(),
            old(self).strict() && r && (normal_form(lits@).len() >= 2 ==> old(self).can_watch_strictly(
                normal_form(lits@),
            )) ==> final(self).strict(),
            old(self).guarded() && normal_form(lits@).len() == 1 && lit_value(
                old(self).assignment(),
                normal_form(lits@)[0],
            ) != VarValue::False ==> (r <==> forall|c: int|
                0 <= c < final(self).clause_seq().len() ==> !clause_falsified(
                    final(self).assignment(),
                    #[trigger] final(self).clause_seq()[c],
                )),
            normal_form(lits@).len() == 1 && lit_value(
                old(self).assignment(),
                normal_form(lits@)[0],
            ) != VarValue::False && !r ==> exists|c: int|
                0 <= c < final(self).clause_seq().len() && clause_falsified(
                    final(self).assignment(),
                    #[trigger] final(self).clause_seq()[c],
                ),
            r && (old(self).idle() || normal_form(lits@).len() == 1) ==> final(self).idle(),
            normal_form(lits@).len() >= 2 ==> final(self).trail_seq() == old(self).trail_seq()
                && final(self).stored() == old(self).stored().push((normal_form(lits@), false)) && final(self).attached_watches(old(self), old(self).stored().len() as int, normal_form(lits@)),
            lits@.len() == 0 || (normal_form(lits@).len() == 1 && lit_value(
                old(self).assignment(),
                normal_form(lits@)[0],
            ) == VarValue::False) ==> final(self).assignment() == old(self).assignment() && final(self).trail_seq() == old(self).trail_seq() && final(self).stored() == old(self).stored(),
            final(self).keeps_values(old(self)),
            normal_form(lits@).len() == 1 && r ==> lit_value(
                final(self).assignment(),
                normal_form(lits@)[0],
            ) == VarValue::True,
            normal_form(lits@).len() == 1 && old(self).idle() && lit_value(
                old(self).assignment(),
                normal_form(lits@)[0],
            ) == VarValue::True ==> r && *final(self) == *old(self),
            normal_form(lits@).len() == 1 && lit_value(
                old(self).assignment(),
                normal_form(lits@)[0],
            ) == VarValue::Unassigned ==> final(self).trail_seq().len() > old(self).trail_seq().len() && final(self).trail_seq()[old(self).trail_seq().len() as int] == normal_form(lits@)[0],
    {
        let ghost o = *self;
        let ghost given = lits@;
        proof {
            o.lemma_extends_refl();
        }
        if lits.is_empty() {
            self.ok = false;
            proof {
                assert(crate::normalize::is_normal_form(Seq::<Lit>::empty(), given)) by {
                    assert forall|l: Lit| Seq::<Lit>::empty().contains(l) <==> given.contains(l) by {
                        if given.contains(l) {
                            let k = choose|k: int| 0 <= k < given.len() && given[k] == l;
                        }
                    }
                }
                lemma_normal_form_same(Seq::<Lit>::empty(), given);
                self.lemma_flagged(&o);
            }
            return false;
        }
        let mut lits = lits;
        sort_dedup(&mut lits);
        proof {
            lemma_normal_form_same(lits@, given);
        }
        if lits.len() == 1 {
            let unit = lits[0];
            match Self::value_lit(&self.assignments, unit) {
                VarValue::False => {
                    self.ok = false;
                    proof {
                        self.lemma_flagged(&o);
                        assert forall|m: Seq<bool>| !(o.models(m) && clause_holds(m, given)) by {
                            if o.models(m) && clause_holds(m, given) {
                                assert(clause_holds(m, lits@));
                                let k = choose|k: int| 0 <= k < lits@.len() && #[trigger] lit_holds(m, lits@[k]);
                                o.lemma_false_on_trail(unit);
                                assert(lit_holds(m, o.trail@[o.at(unit)]));
                            }
                        }
                    }
                    return false;
                },
                _ => {},
            }
            self.unchecked_enqueue(unit, None);
            let ghost s1 = *self;
            proof {
                assert forall|m: Seq<bool>| #[trigger] s1.models(m) <==> o.models(m) && clause_holds(m, given) by {
                    assert(clause_holds(m, given) == clause_holds(m, lits@));
                    if clause_holds(m, lits@) {
                        let k = choose|k: int| 0 <= k < lits@.len() && #[trigger] lit_holds(m, lits@[k]);
                    }
                    if lit_holds(m, unit) {
                        assert(lit_holds(m, lits@[0]));
                    }
                    if o.val(unit) == VarValue::Unassigned {
                        s1.lemma_enqueued_models(&o, unit, None, m);
                    } else {
                        if o.models(m) {
                            o.lemma_true_on_trail(unit);
                            assert(lit_holds(m, o.trail@[o.at(unit)]));
                        }
                    }
                }
                if o.guarded() {
                    s1.lemma_guarded_enqueued(&o, unit, None, o.q_head as int);
                }
                if o.strict() {
                    s1.lemma_strict_kept_enqueued(&o, unit, None, o.q_head as int);
                }
                assert(s1.clause_seq() =~= o.clause_seq());
            }
            proof {
                assert(s1.keeps_values(&o)) by {
                    assert forall|i: int| 0 <= i < o.trail@.len() implies #[trigger] s1.trail@[i] == o.trail@[i] by {}
                    assert forall|v: int|
                        0 <= v < o.n() && #[trigger] o.assignments@[v] != VarValue::Unassigned implies s1.assignments@[v]
                        == o.assignments@[v] by {}
                }
                assert(s1.val(unit) == VarValue::True);
            }
            let conflict = self.propagate();
            let ghost s2 = *self;
            proof {
                assert(s2.clause_seq().len() == s1.clause_seq().len());
                assert(s2.keeps_values(&o)) by {
                    assert forall|i: int| 0 <= i < o.trail@.len() implies #[trigger] s2.trail@[i] == o.trail@[i] by {
                        assert(s1.trail@[i] == o.trail@[i]);
                    }
                    assert forall|v: int|
                        0 <= v < o.n() && #[trigger] o.assignments@[v] != VarValue::Unassigned implies s2.assignments@[v]
                        == o.assignments@[v] by {
                        assert(s1.assignments@[v] == o.assignments@[v]);
                        assert(s2.var_kept(&s1, v));
                    }
                }
                assert(s2.var_kept(&s1, unit.spec_var()));
                if o.val(unit) == VarValue::Unassigned {
                    assert(s2.trail@[o.trail@.len() as int] == s1.trail@[o.trail@.len() as int]);
                }
            }
            match conflict {
                Some(c) => {
                    self.ok = false;
                    proof {
                        s2.lemma_root_conflict(c as int);
                        self.lemma_flagged(&s2);
                        assert(self.clause_seq()[c as int] == s2.lits(c as int));
                        assert(clause_falsified(self.assignment(), self.clause_seq()[c as int]));
                        assert forall|m: Seq<bool>| !(o.models(m) && clause_holds(m, given)) by {
                            assert(s2.models(m) <==> s1.models(m));
                            assert(!s2.models(m));
                        }
                    }
                    return false;
                },
                None => {
                    proof {
                        assert forall|m: Seq<bool>| #[trigger] self.models(m) <==> o.models(m) && clause_holds(
                            m,
                            given,
                        ) by {
                            assert(s2.models(m) <==> s1.models(m));
                        }
                        if o.guarded() {
                            assert forall|c: int| 0 <= c < self.clause_seq().len() implies !clause_falsified(
                                self.assignment(),
                                #[trigger] self.clause_seq()[c],
                            ) by {
                                self.no_clause_falsified_when_idle(c);
                            }
                        }
                    }
                    return true;
                },
            }
        }
        let ghost normal = lits@;
        let clause_idx = self.attach_clause(lits, false);
        proof {
            assert(self.clause_seq() =~= o.clause_seq().push(normal));
            assert(self.stored() =~= o.stored().push((normal, false)));
            if o.strict() && o.can_watch_strictly(normal) {
                assert forall|c: int| 0 <= c < self.clauses@.len() implies #[trigger] self.clause_strict(
                    c,
                    self.q_head as int,
                ) by {
                    if c < clause_idx {
                        assert(o.clause_strict(c, o.q_head as int));
                    } else {
                        assert(self.lits(c) == normal);
                    }
                }
            }
            if o.guarded() && o.can_watch(normal) {
                let c_new = clause_idx as int;
                assert forall|c: int| 0 <= c < self.clauses@.len() implies #[trigger] self.clause_watched(c) by {
                    if c < c_new {
                        assert(o.clause_watched(c));
                    }
                }
                assert forall|c: int| 0 <= c < self.clauses@.len() implies #[trigger] self.clause_guarded(
                    c,
                    self.q_head as int,
                ) by {
                    if c < c_new {
                        assert(o.clause_guarded(c, o.q_head as int));
                    } else {
                        if clause_satisfied(o.assignments@, normal) && lit_value(o.assignments@, normal[0])
                            == VarValue::False {
                            let j = choose|j: int|
                                0 <= j < normal.len() && #[trigger] lit_value(o.assignments@, normal[j])
                                    == VarValue::True;
                            assert(self.val(self.lits(c)[j]) == VarValue::True);
                            self.lemma_true_on_trail(normal[j]);
                            self.lemma_false_on_trail(normal[0]);
                            assert(self.lvl(normal[j]) == 0);
                        }
                    }
                }
            }
        }
        true
    }

    /// This state is `o` but for the clause store and the contents of the
    /// watch lists.
    pub open(crate) spec fn same_but_store(&self, o: &Solver) -> bool {
        &&& self.assignments == o.assignments
        &&& self.level == o.level
        &&& self.reason == o.reason
        &&& self.trail == o.trail
        &&& self.trail_lim == o.trail_lim
        &&& self.q_head == o.q_head
        &&& self.num_vars == o.num_vars
        &&& self.ok == o.ok
        &&& self.analyze_seen == o.analyze_seen
        &&& self.analyze_toclear == o.analyze_toclear
        &&& self.analyze_clause == o.analyze_clause
        &&& self.pos == o.pos
        &&& self.watches@.len() == o.watches@.len()
    }

    /// Appends a clause to the store and, if it has two or more literals,
    /// enters it in the watch lists of the negations of its first two.
    /// Returns its index.
    pub(crate) fn attach_clause(&mut self, lits: Vec<Lit>, learned: bool) -> (idx: usize)
        requires
            old(self).wf_core(),
            lits_in_range(lits@, old(self).n() as nat),
            distinct(lits@),
        ensures
            final(self).wf_core(),
            old(self).lims_strict() ==> final(self).lims_strict(),
            idx == old(self).clauses@.len(),
            final(self).clauses@ == old(self).clauses@.push(Clause { lits, learned }),
            final(self).same_but_store(old(self)),
            final(self).attached_watches(old(self), idx as int, lits@),
            forall|m: Seq<bool>| #[trigger] final(self).models(m) <==> old(self).models(m) && clause_holds(m, lits@),
            forall|c: int, q: int|
                0 <= c < old(self).clauses@.len() && old(self).clause_guarded(c, q)
                    ==> #[trigger] final(self).clause_guarded(c, q),
            forall|c: int, q: int|
                0 <= c < old(self).clauses@.len() && old(self).clause_strict(c, q)
                    ==> #[trigger] final(self).clause_strict(c, q),
            forall|c: int|
                0 <= c < old(self).clauses@.len() && old(self).clause_watched(c)
                    ==> #[trigger] final(self).clause_watched(c),
            final(self).clause_watched(idx as int),
    {
        let ghost o = *self;
        let ghost ls = lits@;
        let clause_idx = self.clauses.len();
        if lits.len() < 2 {
            let clause = Clause { lits, learned };
            self.clauses.push(clause);
            proof {
                self.lemma_clause_pushed(&o, clause);
            }
            return clause_idx;
        }
        let l0 = lits[0];
        let l1 = lits[1];
        let clause = Clause { lits, learned };
        self.clauses.push(clause);
        let ghost s1 = *self;
        let w0 = Watcher { clause_idx, blocker: l1 };
        let w1 = Watcher { clause_idx, blocker: l0 };
        let i0 = l0.not().to_usize();
        let i1 = l1.not().to_usize();
        proof {
            s1.lemma_clause_pushed(&o, clause);
            assert(s1.clause_ok(clause_idx as int));
        }
        self.watches[i0].push(w0);
        let ghost s2 = *self;
        proof {
            assert(ls.contains(l1)) by {
                assert(ls[1] == l1);
            }
            assert(ls.contains(l0)) by {
                assert(ls[0] == l0);
            }
            assert(entry_ok(s1.clauses@, s1.n(), i0 as int, w0));
            s1.lemma_no_entry_yet(&o, clause, i0 as int);
            s2.lemma_watch_pushed_wf(&s1, i0 as int, w0);
            s2.lemma_watch_pushed_same(&s1, i0 as int, w0);
        }
        self.watches[i1].push(w1);
        proof {
            assert(entry_ok(s2.clauses@, s2.n(), i1 as int, w1));
            assert(i0 != i1) by {
                if i0 == i1 {
                    crate::solver::propagate::lemma_not_injective(l0, l1);
                }
            }
            assert(s2.watches@[i1 as int] == s1.watches@[i1 as int]);
            s1.lemma_no_entry_yet(&o, clause, i1 as int);
            self.lemma_watch_pushed_wf(&s2, i1 as int, w1);
            self.lemma_watch_pushed_same(&s2, i1 as int, w1);
            assert forall|m: Seq<bool>| #[trigger] self.models(m) <==> o.models(m) && clause_holds(m, ls) by {
                assert(s2.models(m) <==> s1.models(m));
                assert(s1.models(m) <==> o.models(m) && clause_holds(m, clause.lits@));
            }
            let c_new = clause_idx as int;
            assert forall|c: int, q: int| 0 <= c < o.clauses@.len() && o.clause_guarded(c, q) implies #[trigger] self.clause_guarded(
                c,
                q,
            ) by {
                assert(s1.clause_guarded(c, q));
                assert(s2.clause_guarded(c, q));
            }
            assert forall|c: int, q: int| 0 <= c < o.clauses@.len() && o.clause_strict(c, q) implies #[trigger] self.clause_strict(
                c,
                q,
            ) by {
                assert(s1.clause_strict(c, q));
                assert(s2.clause_strict(c, q));
            }
            assert forall|c: int| 0 <= c < o.clauses@.len() && o.clause_watched(c) implies #[trigger] self.clause_watched(
                c,
            ) by {
                assert(s1.clause_watched(c));
                assert(o.clause_ok(c));
                let cl = o.lits(c);
                assert(s1.lits(c) == cl);
                if cl.len() >= 2 {
                    let y0 = cl[0].spec_not().code();
                    let y1 = cl[1].spec_not().code();
                    assert(has_entry(s2.watches@[y0]@, c));
                    assert(has_entry(s2.watches@[y1]@, c));
                    assert(has_entry(self.watches@[y0]@, c));
                    assert(has_entry(self.watches@[y1]@, c));
                }
            }
            assert(has_entry(s2.watches@[i0 as int]@, c_new));
            assert(has_entry(self.watches@[i0 as int]@, c_new));
            assert(has_entry(self.watches@[i1 as int]@, c_new));
        }
        clause_idx
    }

    /// No watch list holds an entry for a clause that was only just appended.
    pub(crate) proof fn lemma_no_entry_yet(&self, o: &Solver, cl: Clause, y: int)
        requires
            o.wf_core(),
            self.clause_pushed(o, cl),
            0 <= y < o.watches@.len(),
        ensures
            !has_entry(o.watches@[y]@, o.clauses@.len() as int),
    {
        let list = o.watches@[y]@;
        if has_entry(list, o.clauses@.len() as int) {
            let e = choose|e: int| 0 <= e < list.len() && (#[trigger] list[e]).clause_idx == o.clauses@.len();
            assert(list_ok(o.clauses@, o.n(), y, list));
            assert(entry_ok(o.clauses@, o.n(), y, list[e]));
        }
    }

    /// A state that differs from a sound one only in the flag cleared is
    /// sound and has no model.
    pub(crate) proof fn lemma_flagged(&self, o: &Solver)
        requires
            o.wf(),
            !self.ok,
            self.clauses == o.clauses,
            self.watches == o.watches,
            self.assignments == o.assignments,
            self.level == o.level,
            self.reason == o.reason,
            self.trail == o.trail,
            self.trail_lim == o.trail_lim,
            self.q_head == o.q_head,
            self.num_vars == o.num_vars,
            self.analyze_seen == o.analyze_seen,
            self.analyze_toclear == o.analyze_toclear,
            self.analyze_clause == o.analyze_clause,
            self.pos == o.pos,
        ensures
            self.wf(),
            self.unsat(),
            self.clause_seq() == o.clause_seq(),
    {
        assert(self.reflagged(o));
        assert(self.inv_watches());
        self.lemma_requeued_wf(o);
        assert forall|c: int| 0 <= c < self.clauses@.len() implies #[trigger] self.clause_watched(c) by {
            assert(o.clause_watched(c));
        }
        assert(self.clause_seq() =~= o.clause_seq());
    }
}

impl Solver {
    /// Everything but the watch lists is as in `o`.
    pub open(crate) spec fn same_but_watches(&self, o: &Solver) -> bool {
        &&& self.clauses == o.clauses
        &&& self.assignments == o.assignments
        &&& self.level == o.level
        &&& self.reason == o.reason
        &&& self.trail == o.trail
        &&& self.trail_lim == o.trail_lim
        &&& self.q_head == o.q_head
        &&& self.num_vars == o.num_vars
        &&& self.ok == o.ok
        &&& self.analyze_seen == o.analyze_seen
        &&& self.analyze_toclear == o.analyze_toclear
        &&& self.analyze_clause == o.analyze_clause
        &&& self.pos == o.pos
        &&& self.watches@.len() == o.watches@.len()
    }

    /// The entries of every watch list are sound, unique, and for clauses
    /// below `upto` only.
    pub open(crate) spec fn watches_upto(&self, upto: int) -> bool {
        forall|x: int|
            0 <= x < self.watches@.len() ==> list_ok(self.clauses@, self.n(), x, #[trigger] self.watches@[x]@) && forall|
                e: int,
            | 0 <= e < self.watches@[x]@.len() ==> (#[trigger] self.watches@[x]@[e]).clause_idx < upto
    }

    /// Every entry of every watch list has as its blocker the other of the
    /// first two literals of its clause, and the entries of a list stand in
    /// the order of their clauses.
    pub open(crate) spec fn watches_fresh(&self) -> bool {
        forall|x: int|
            0 <= x < self.watches@.len() ==> {
                let list = #[trigger] self.watches@[x]@;
                &&& forall|e: int| 0 <= e < list.len() ==> entry_fresh(self.clauses@, x, #[trigger] list[e])
                &&& forall|e1: int, e2: int|
                    0 <= e1 < e2 < list.len() ==> (#[trigger] list[e1]).clause_idx < (#[trigger] list[e2]).clause_idx
            }
    }

    /// The watch lists are those of `o`, with an entry for clause `idx`
    /// appended to the lists of the negations of the first two literals of
    /// `ls`, each with the other literal as its blocker, if `ls` has two or
    /// more literals.
    pub open(crate) spec fn attached_watches(&self, o: &Solver, idx: int, ls: Seq<Lit>) -> bool {
        let y0 = ls[0].spec_not().code();
        let y1 = ls[1].spec_not().code();
        &&& self.watches@.len() == o.watches@.len()
        &&& forall|x: int|
            0 <= x < o.watches@.len() && (ls.len() < 2 || (x != y0 && x != y1)) ==> (#[trigger] self.watches@[x])@
                == o.watches@[x]@
        &&& ls.len() >= 2 ==> {
            &&& y0 != y1
            &&& 0 <= y0 < o.watches@.len()
            &&& 0 <= y1 < o.watches@.len()
            &&& self.watches@[y0]@ == o.watches@[y0]@.push(Watcher { clause_idx: idx as usize, blocker: ls[1] })
            &&& self.watches@[y1]@ == o.watches@[y1]@.push(Watcher { clause_idx: idx as usize, blocker: ls[0] })
        }
    }

    /// Empties the watch lists and fills them again from the clause store:
    /// each clause of two or more literals is entered in the lists of the
    /// negations of its first two literals.
    pub(crate) fn rebuild_watches(&mut self)
        requires
            old(self).num_vars <= crate::lit::MAX_VARS,
            old(self).watches@.len() == 2 * old(self).n(),
            old(self).inv_clauses(),
        ensures
            final(self).same_but_watches(old(self)),
            final(self).inv_watches(),
            final(self).watches_fresh(),
            forall|c: int| 0 <= c < final(self).clauses@.len() ==> #[trigger] final(self).clause_watched(c),
    {
        let ghost o = *self;
        let mut x: usize = 0;
        while x < self.watches.len()
            invariant
                self.same_but_watches(&o),
                0 <= x <= self.watches@.len(),
                forall|y: int| 0 <= y < x ==> (#[trigger] self.watches@[y])@.len() == 0,
            decreases self.watches.len() - x,
        {
            self.watches[x].clear();
            x = x + 1;
        }
        let mut i: usize = 0;
        while i < self.clauses.len()
            invariant
                o.num_vars <= crate::lit::MAX_VARS,
                o.watches@.len() == 2 * o.n(),
                o.inv_clauses(),
                self.same_but_watches(&o),
                0 <= i <= self.clauses@.len(),
                self.watches_upto(i as int),
                self.watches_fresh(),
                forall|c: int| 0 <= c < i ==> #[trigger] self.clause_watched(c),
            decreases self.clauses.len() - i,
        {
            if self.clauses[i].lits.len() > 1 {
                let l0 = self.clauses[i].lits[0];
                let l1 = self.clauses[i].lits[1];
                let i0 = l0.not().to_usize();
                let i1 = l1.not().to_usize();
                let w0 = Watcher { clause_idx: i, blocker: l1 };
                let w1 = Watcher { clause_idx: i, blocker: l0 };
                let ghost s0 = *self;
                proof {
                    assert(o.clause_ok(i as int));
                    assert(self.lits(i as int) == o.lits(i as int));
                    assert(l0 != l1);
                    assert(i0 != i1) by {
                        if i0 == i1 {
                            crate::solver::propagate::lemma_not_injective(l0, l1);
                        }
                    }
                    assert(self.lits(i as int).contains(l0)) by {
                        assert(self.lits(i as int)[0] == l0);
                    }
                    assert(self.lits(i as int).contains(l1)) by {
                        assert(self.lits(i as int)[1] == l1);
                    }
                }
                self.watches[i0].push(w0);
                self.watches[i1].push(w1);
                proof {
                    assert forall|y: int| 0 <= y < self.watches@.len() implies {
                        let list = #[trigger] self.watches@[y]@;
                        &&& forall|e: int| 0 <= e < list.len() ==> entry_fresh(self.clauses@, y, #[trigger] list[e])
                        &&& forall|e1: int, e2: int|
                            0 <= e1 < e2 < list.len() ==> (#[trigger] list[e1]).clause_idx < (#[trigger] list[e2]).clause_idx
                    } by {
                        let before = s0.watches@[y]@;
                        let now = self.watches@[y]@;
                        if y == i0 {
                            assert(now == before.push(w0));
                        } else if y == i1 {
                            assert(now == before.push(w1));
                        } else {
                            assert(now == before);
                        }
                        assert forall|e: int| 0 <= e < now.len() implies entry_fresh(self.clauses@, y, #[trigger] now[e]) by {
                            if e < before.len() {
                                assert(now[e] == before[e]);
                                assert(entry_fresh(s0.clauses@, y, before[e]));
                            }
                        }
                        assert forall|e1: int, e2: int| 0 <= e1 < e2 < now.len() implies (#[trigger] now[e1]).clause_idx < (
                        #[trigger] now[e2]).clause_idx by {
                            assert(now[e1] == before[e1]);
                            assert(before[e1].clause_idx < i);
                            if e2 < before.len() {
                                assert(now[e2] == before[e2]);
                            }
                        }
                    }
                    assert forall|y: int| 0 <= y < self.watches@.len() implies list_ok(
                        self.clauses@,
                        self.n(),
                        y,
                        #[trigger] self.watches@[y]@,
                    ) && forall|e: int|
                        0 <= e < self.watches@[y]@.len() ==> (#[trigger] self.watches@[y]@[e]).clause_idx < i + 1 by {
                        let before = s0.watches@[y]@;
                        let now = self.watches@[y]@;
                        assert(list_ok(s0.clauses@, s0.n(), y, before));
                        if y == i0 {
                            assert(now == before.push(w0));
                        } else if y == i1 {
                            assert(now == before.push(w1));
                        } else {
                            assert(now == before);
                        }
                        assert forall|e: int| 0 <= e < now.len() implies entry_ok(
                            self.clauses@,
                            self.n(),
                            y,
                            #[trigger] now[e],
                        ) && now[e].clause_idx < i + 1 by {
                            if e < before.len() {
                                assert(now[e] == before[e]);
                                assert(entry_ok(s0.clauses@, s0.n(), y, before[e]));
                            }
                        }
                        assert forall|e1: int, e2: int| 0 <= e1 < e2 < now.len() implies (#[trigger] now[e1]).clause_idx
                            != (#[trigger] now[e2]).clause_idx by {
                            assert(now[e1] == before[e1]);
                            if e2 < before.len() {
                                assert(now[e2] == before[e2]);
                            }
                        }
                    }
                    assert forall|c: int| 0 <= c < i + 1 implies #[trigger] self.clause_watched(c) by {
                        let ls = self.lits(c);
                        if c < i {
                            assert(s0.clause_watched(c));
                            assert(o.clause_ok(c));
                            if ls.len() >= 2 {
                                self.lemma_entries_kept(&s0, ls[0].spec_not().code(), c);
                                self.lemma_entries_kept(&s0, ls[1].spec_not().code(), c);
                            }
                        } else {
                            let n0 = self.watches@[i0 as int]@;
                            let n1 = self.watches@[i1 as int]@;
                            assert(n0[n0.len() - 1].clause_idx == i);
                            assert(n1[n1.len() - 1].clause_idx == i);
                        }
                    }
                }
            } else {
                proof {
                    assert forall|c: int| 0 <= c < i + 1 implies #[trigger] self.clause_watched(c) by {}
                }
            }
            i = i + 1;
        }
    }

    /// Lists that have only grown at their ends still hold their entries.
    pub(crate) proof fn lemma_entries_kept(&self, o: &Solver, y: int, c: int)
        requires
            0 <= y < o.watches@.len(),
            self.watches@.len() == o.watches@.len(),
            o.watches@[y]@.len() <= self.watches@[y]@.len(),
            forall|e: int| 0 <= e < o.watches@[y]@.len() ==> self.watches@[y]@[e] == o.watches@[y]@[e],
            has_entry(o.watches@[y]@, c),
        ensures
            has_entry(self.watches@[y]@, c),
    {
        let list = o.watches@[y]@;
        let e = choose|e: int| 0 <= e < list.len() && (#[trigger] list[e]).clause_idx == c;
        assert(self.watches@[y]@[e] == list[e]);
    }
}

} // verus!
